//! A retirement against the store, one call at a time.
//!
//! The queue is truncated first. A packet id whose message the truncation covers is cleared, as
//! is one whose message never stood in the queue. A packet id of an earlier session is cleared
//! once the head of the queue shows that its message is gone, and that is durable.

use vstd::prelude::*;

use crate::assoc::push_item;

use crate::qos2::{Qos2RetirePlan, Qos2RetireResult, RetirePlanView, RetireResultView};

verus! {

/// A call to the store.
#[derive(Debug, Clone, Copy, PartialEq, Eq, Structural)]
pub enum RetireCall {
    /// Truncate the queue, durably.
    Truncate {
        up_to: u64,
    },
    /// Clear a packet id.
    Clear {
        pkid: u16,
    },
    /// Read the offset at the head of the queue.
    Head,
}

/// What the store answered.
#[derive(Debug, Clone, Copy, PartialEq, Eq, Structural)]
pub enum RetireAnswer {
    /// It is done.
    Done,
    /// It is not.
    Failed,
    /// The offset at the head of the queue, or that the queue is empty.
    Head(Option<u64>),
}

/// How far a retirement has come.
#[derive(Debug, Clone, Copy, PartialEq, Eq, Structural)]
pub enum RetireStage {
    /// The queue is being truncated.
    Truncating,
    /// A packet id is being cleared.
    Clearing(usize),
    /// The message of an orphan is being looked for.
    Looking(usize),
    /// That the message of an orphan is gone is being made durable.
    Settling(usize),
    /// An orphan is being cleared.
    Freeing(usize),
    /// It is over.
    Over,
}

/// A retirement.
#[derive(Debug)]
pub struct RetireRun {
    pub plan: Qos2RetirePlan,
    pub stage: RetireStage,
    pub durable: Option<u64>,
    pub cleared: Vec<u16>,
    pub orphans_cleared: Vec<u16>,
}

/// Model of [`RetireRun`].
#[verifier::ext_equal]
pub struct RunView {
    pub plan: RetirePlanView,
    pub stage: RetireStage,
    pub durable: Option<u64>,
    pub cleared: Seq<u16>,
    pub orphans_cleared: Seq<u16>,
}

impl DeepView for RetireRun {
    type V = RunView;

    open spec fn deep_view(&self) -> RunView {
        RunView {
            plan: self.plan.deep_view(),
            stage: self.stage,
            durable: self.durable,
            cleared: self.cleared.deep_view(),
            orphans_cleared: self.orphans_cleared.deep_view(),
        }
    }
}

impl RunView {
    /// Whether the stage is one of the plan.
    pub open spec fn well_formed(self) -> bool {
        &&& self.plan.candidates.len() <= usize::MAX
        &&& self.plan.orphans.len() <= usize::MAX
        &&& match self.stage {
            RetireStage::Truncating => self.plan.up_to is Some,
            RetireStage::Clearing(i) => i < self.plan.candidates.len()
                && self.plan.candidates[i as int].1 is Some,
            RetireStage::Looking(i) => i < self.plan.orphans.len(),
            RetireStage::Settling(i) => i < self.plan.orphans.len(),
            RetireStage::Freeing(i) => i < self.plan.orphans.len(),
            RetireStage::Over => true,
        }
    }

    /// Going on with the `i`-th packet id.
    pub open spec fn from_candidate(self, i: nat) -> RunView
        decreases self.plan.candidates.len() - i,
    {
        if i >= self.plan.candidates.len() {
            self.from_orphan(0)
        } else {
            let (pkid, offset) = self.plan.candidates[i as int];
            match offset {
                None => RunView { cleared: self.cleared.push(pkid), ..self }.from_candidate(i + 1),
                Some(o) => if self.durable matches Some(t) && o <= t {
                    RunView { stage: RetireStage::Clearing(i as usize), ..self }
                } else {
                    self.from_candidate(i + 1)
                },
            }
        }
    }

    /// Going on with the `i`-th orphan.
    pub open spec fn from_orphan(self, i: nat) -> RunView {
        if i < self.plan.orphans.len() {
            RunView { stage: RetireStage::Looking(i as usize), ..self }
        } else {
            RunView { stage: RetireStage::Over, ..self }
        }
    }

    /// A retirement before its first call.
    pub open spec fn start(plan: RetirePlanView) -> RunView {
        let run = RunView {
            plan,
            stage: RetireStage::Truncating,
            durable: None,
            cleared: Seq::empty(),
            orphans_cleared: Seq::empty(),
        };
        if plan.up_to is Some {
            run
        } else {
            run.from_candidate(0)
        }
    }

    /// The call to make.
    pub open spec fn call(self) -> Option<RetireCall> {
        match self.stage {
            RetireStage::Truncating => Some(RetireCall::Truncate { up_to: self.plan.up_to->Some_0 }),
            RetireStage::Clearing(i) => Some(
                RetireCall::Clear { pkid: self.plan.candidates[i as int].0 },
            ),
            RetireStage::Looking(i) => Some(RetireCall::Head),
            RetireStage::Settling(i) => Some(
                RetireCall::Truncate { up_to: self.plan.orphans[i as int].1 },
            ),
            RetireStage::Freeing(i) => Some(
                RetireCall::Clear { pkid: self.plan.orphans[i as int].0 },
            ),
            RetireStage::Over => None,
        }
    }

    /// The retirement after the answer to its call.
    pub open spec fn after(self, answer: RetireAnswer) -> RunView {
        let done = answer == RetireAnswer::Done;
        match self.stage {
            RetireStage::Truncating => RunView {
                durable: if done {
                    self.plan.up_to
                } else {
                    None
                },
                ..self
            }.from_candidate(0),
            RetireStage::Clearing(i) => RunView {
                cleared: if done {
                    self.cleared.push(self.plan.candidates[i as int].0)
                } else {
                    self.cleared
                },
                ..self
            }.from_candidate((i + 1) as nat),
            RetireStage::Looking(i) => if self.gone(i as int, answer) {
                RunView { stage: RetireStage::Settling(i), ..self }
            } else {
                self.from_orphan((i + 1) as nat)
            },
            RetireStage::Settling(i) => if done {
                RunView { stage: RetireStage::Freeing(i), ..self }
            } else {
                self.from_orphan((i + 1) as nat)
            },
            RetireStage::Freeing(i) => RunView {
                orphans_cleared: if done {
                    self.orphans_cleared.push(self.plan.orphans[i as int].0)
                } else {
                    self.orphans_cleared
                },
                ..self
            }.from_orphan((i + 1) as nat),
            RetireStage::Over => self,
        }
    }

    /// Whether the head of the queue shows that the message of the `i`-th orphan is gone.
    pub open spec fn gone(self, i: int, answer: RetireAnswer) -> bool {
        match answer {
            RetireAnswer::Head(Some(o)) => o > self.plan.orphans[i].1,
            RetireAnswer::Head(None) => true,
            _ => false,
        }
    }

    /// What the retirement came to.
    pub open spec fn result(self) -> RetireResultView {
        RetireResultView {
            client: self.plan.client,
            epoch: self.plan.epoch,
            durable: self.durable,
            cleared: self.cleared,
            orphans_cleared: self.orphans_cleared,
        }
    }

    /// The retirement after `answers` to its calls.
    pub open spec fn replayed(self, answers: Seq<RetireAnswer>) -> RunView
        decreases answers.len(),
    {
        if answers.len() == 0 {
            self
        } else {
            self.replayed(answers.drop_last()).after(answers.last())
        }
    }
}

impl RetireRun {
    /// Goes on with the packet id at `first`.
    fn go_on(&mut self, first: usize)
        requires
            old(self).deep_view().plan.candidates.len() <= usize::MAX,
            old(self).deep_view().plan.orphans.len() <= usize::MAX,
        ensures
            final(self).deep_view() == old(self).deep_view().from_candidate(first as nat),
            final(self).deep_view().well_formed(),
            final(self).plan == old(self).plan,
    {
        let ghost goal = self.deep_view().from_candidate(first as nat);
        let mut i: usize = first;
        while i < self.plan.candidates.len()
            invariant
                self.plan == old(self).plan,
                self.deep_view().plan.candidates.len() <= usize::MAX,
                self.deep_view().plan.orphans.len() <= usize::MAX,
                self.deep_view().from_candidate(i as nat) == goal,
                goal == old(self).deep_view().from_candidate(first as nat),
            decreases self.plan.candidates@.len() - i,
        {
            let (pkid, offset) = self.plan.candidates[i];
            assert(self.deep_view().plan.candidates[i as int] == (pkid, offset));
            match offset {
                None => {
                    push_item(&mut self.cleared, pkid);
                },
                Some(o) => {
                    let covered = match self.durable {
                        Some(t) => o <= t,
                        None => false,
                    };
                    if covered {
                        self.stage = RetireStage::Clearing(i);
                        return;
                    }
                },
            }
            i += 1;
        }
        self.go_on_orphan(0);
    }

    /// Goes on with the `i`-th orphan.
    fn go_on_orphan(&mut self, i: usize)
        requires
            old(self).deep_view().plan.candidates.len() <= usize::MAX,
            old(self).deep_view().plan.orphans.len() <= usize::MAX,
        ensures
            final(self).deep_view() == old(self).deep_view().from_orphan(i as nat),
            final(self).deep_view().well_formed(),
            final(self).plan == old(self).plan,
    {
        self.stage = if i < self.plan.orphans.len() {
            RetireStage::Looking(i)
        } else {
            RetireStage::Over
        };
    }

    /// See [`RunView::start`].
    pub fn new(plan: Qos2RetirePlan) -> (r: Self)
        ensures
            r.deep_view() == RunView::start(plan.deep_view()),
            r.deep_view().well_formed(),
    {
        let truncates = plan.up_to.is_some();
        let mut r = RetireRun {
            plan,
            stage: RetireStage::Truncating,
            durable: None,
            cleared: Vec::new(),
            orphans_cleared: Vec::new(),
        };
        assert(r.cleared.deep_view() =~= Seq::empty());
        assert(r.orphans_cleared.deep_view() =~= Seq::empty());
        assert(r.deep_view().plan.candidates.len() == r.plan.candidates.len());
        assert(r.deep_view().plan.orphans.len() == r.plan.orphans.len());
        if !truncates {
            r.go_on(0);
        }
        r
    }

    /// See [`RunView::call`].
    pub fn call(&self) -> (r: Option<RetireCall>)
        requires
            self.deep_view().well_formed(),
        ensures
            r == self.deep_view().call(),
    {
        match self.stage {
            RetireStage::Truncating => match self.plan.up_to {
                Some(up_to) => Some(RetireCall::Truncate { up_to }),
                None => None,
            },
            RetireStage::Clearing(i) => {
                assert(self.deep_view().plan.candidates[i as int]
                    == self.plan.candidates@[i as int]);
                Some(RetireCall::Clear { pkid: self.plan.candidates[i].0 })
            },
            RetireStage::Looking(_) => Some(RetireCall::Head),
            RetireStage::Settling(i) => {
                assert(self.deep_view().plan.orphans[i as int] == self.plan.orphans@[i as int]);
                Some(RetireCall::Truncate { up_to: self.plan.orphans[i].1 })
            },
            RetireStage::Freeing(i) => {
                assert(self.deep_view().plan.orphans[i as int] == self.plan.orphans@[i as int]);
                Some(RetireCall::Clear { pkid: self.plan.orphans[i].0 })
            },
            RetireStage::Over => None,
        }
    }

    /// See [`RunView::after`].
    pub fn answer(&mut self, answer: RetireAnswer)
        requires
            old(self).deep_view().well_formed(),
        ensures
            final(self).deep_view() == old(self).deep_view().after(answer),
            final(self).deep_view().well_formed(),
    {
        let done = answer == RetireAnswer::Done;
        match self.stage {
            RetireStage::Truncating => {
                self.durable = if done {
                    self.plan.up_to
                } else {
                    None
                };
                self.go_on(0);
            },
            RetireStage::Clearing(i) => {
                assert(self.deep_view().plan.candidates[i as int]
                    == self.plan.candidates@[i as int]);
                if done {
                    let pkid: u16 = self.plan.candidates[i].0;
                    push_item(&mut self.cleared, pkid);
                }
                self.go_on(i + 1);
            },
            RetireStage::Looking(i) => {
                assert(self.deep_view().plan.orphans[i as int] == self.plan.orphans@[i as int]);
                let gone = match answer {
                    RetireAnswer::Head(Some(o)) => o > self.plan.orphans[i].1,
                    RetireAnswer::Head(None) => true,
                    _ => false,
                };
                if gone {
                    self.stage = RetireStage::Settling(i);
                } else {
                    self.go_on_orphan(i + 1);
                }
            },
            RetireStage::Settling(i) => {
                if done {
                    self.stage = RetireStage::Freeing(i);
                } else {
                    self.go_on_orphan(i + 1);
                }
            },
            RetireStage::Freeing(i) => {
                assert(self.deep_view().plan.orphans[i as int] == self.plan.orphans@[i as int]);
                if done {
                    let pkid: u16 = self.plan.orphans[i].0;
                    push_item(&mut self.orphans_cleared, pkid);
                }
                self.go_on_orphan(i + 1);
            },
            RetireStage::Over => {},
        }
    }

    /// See [`RunView::result`].
    pub fn finish(self) -> (r: Qos2RetireResult)
        ensures
            r.deep_view() == self.deep_view().result(),
    {
        Qos2RetireResult {
            client: self.plan.client,
            epoch: self.plan.epoch,
            durable: self.durable,
            cleared: self.cleared,
            orphans_cleared: self.orphans_cleared,
        }
    }
}

/// Whether the `j`-th call was `call` and got `answer`.
pub open spec fn answered(
    plan: RetirePlanView,
    answers: Seq<RetireAnswer>,
    j: int,
    call: RetireCall,
    answer: RetireAnswer,
) -> bool {
    0 <= j < answers.len() && answers[j] == answer && RunView::start(plan).replayed(
        answers.take(j),
    ).call() == Some(call)
}

/// Whether the retirement of `pkid` is in order: it has no place in the queue, or the queue is
/// truncated past it and the store has cleared it.
pub open spec fn in_order(
    plan: RetirePlanView,
    answers: Seq<RetireAnswer>,
    durable: Option<u64>,
    pkid: u16,
) -> bool {
    exists|i: int|
        0 <= i < plan.candidates.len() && (#[trigger] plan.candidates[i]).0 == pkid && (
        plan.candidates[i].1 matches Some(o) ==> (durable matches Some(t) && o <= t) && cleared_by(
            plan,
            answers,
            pkid,
        ))
}

/// Whether the store has cleared `pkid`.
pub open spec fn cleared_by(plan: RetirePlanView, answers: Seq<RetireAnswer>, pkid: u16) -> bool {
    exists|j: int|
        #[trigger] answered(plan, answers, j, RetireCall::Clear { pkid }, RetireAnswer::Done)
}

proof fn lemma_answered_grows(
    plan: RetirePlanView,
    answers: Seq<RetireAnswer>,
    j: int,
    call: RetireCall,
    answer: RetireAnswer,
)
    requires
        answers.len() > 0,
        answered(plan, answers.drop_last(), j, call, answer),
    ensures
        answered(plan, answers, j, call, answer),
{
    assert(answers.drop_last().take(j) =~= answers.take(j));
}

proof fn lemma_in_order_grows(
    plan: RetirePlanView,
    answers: Seq<RetireAnswer>,
    durable: Option<u64>,
    pkid: u16,
)
    requires
        answers.len() > 0,
        in_order(plan, answers.drop_last(), durable, pkid),
    ensures
        in_order(plan, answers, durable, pkid),
{
    let i = choose|i: int|
        0 <= i < plan.candidates.len() && (#[trigger] plan.candidates[i]).0 == pkid && (
        plan.candidates[i].1 matches Some(o) ==> (durable matches Some(t) && o <= t) && cleared_by(
            plan,
            answers.drop_last(),
            pkid,
        ));
    if plan.candidates[i].1 is Some {
        let call = RetireCall::Clear { pkid };
        let j = choose|j: int|
            #[trigger] answered(plan, answers.drop_last(), j, call, RetireAnswer::Done);
        lemma_answered_grows(plan, answers, j, call, RetireAnswer::Done);
    }
}

proof fn lemma_from_candidate(
    run: RunView,
    i: nat,
    plan: RetirePlanView,
    answers: Seq<RetireAnswer>,
)
    requires
        run.plan == plan,
        plan.candidates.len() <= usize::MAX,
        plan.orphans.len() <= usize::MAX,
        forall|k: int|
            0 <= k < run.cleared.len() ==> in_order(plan, answers, run.durable, #[trigger] run.cleared[k]),
    ensures
        ({
            let r = run.from_candidate(i);
            &&& r.plan == plan
            &&& r.durable == run.durable
            &&& r.orphans_cleared == run.orphans_cleared
            &&& r.well_formed()
            &&& !(r.stage is Truncating)
            &&& r.stage is Settling || r.stage is Freeing ==> false
            &&& r.stage matches RetireStage::Clearing(k) ==> r.durable matches Some(t)
                && plan.candidates[k as int].1->Some_0 <= t
            &&& forall|k: int|
                0 <= k < r.cleared.len() ==> in_order(plan, answers, r.durable, #[trigger] r.cleared[k])
        }),
    decreases plan.candidates.len() - i,
{
    if i < plan.candidates.len() {
        let (pkid, offset) = plan.candidates[i as int];
        match offset {
            None => {
                let more = RunView { cleared: run.cleared.push(pkid), ..run };
                assert(in_order(plan, answers, run.durable, pkid)) by {
                    assert(plan.candidates[i as int].0 == pkid);
                }
                assert forall|k: int| 0 <= k < more.cleared.len() implies in_order(
                    plan,
                    answers,
                    more.durable,
                    #[trigger] more.cleared[k],
                ) by {
                    if k < run.cleared.len() {
                        assert(more.cleared[k] == run.cleared[k]);
                    }
                }
                lemma_from_candidate(more, i + 1, plan, answers);
            },
            Some(o) => {
                if !(run.durable matches Some(t) && o <= t) {
                    lemma_from_candidate(run, i + 1, plan, answers);
                }
            },
        }
    }
}

/// Whatever the store answers, a packet id is retired in order only: one whose message stood in
/// the durable queue only after the queue was truncated past it, and with the store's word that
/// it is cleared.
pub proof fn law_retired_in_order(plan: RetirePlanView, answers: Seq<RetireAnswer>)
    requires
        plan.candidates.len() <= usize::MAX,
        plan.orphans.len() <= usize::MAX,
    ensures
        ({
            let run = RunView::start(plan).replayed(answers);
            &&& run.plan == plan
            &&& run.well_formed()
            &&& run.durable is Some ==> run.durable == plan.up_to
            &&& run.stage is Truncating ==> run.durable is None && run.cleared.len() == 0
            &&& run.stage matches RetireStage::Clearing(k) ==> run.durable matches Some(t)
                && plan.candidates[k as int].1->Some_0 <= t
            &&& forall|k: int|
                0 <= k < run.cleared.len() ==> in_order(
                    plan,
                    answers,
                    run.durable,
                    #[trigger] run.cleared[k],
                )
        }),
    decreases answers.len(),
{
    let first = RunView {
        plan,
        stage: RetireStage::Truncating,
        durable: None,
        cleared: Seq::empty(),
        orphans_cleared: Seq::empty(),
    };
    if answers.len() == 0 {
        if plan.up_to is None {
            lemma_from_candidate(first, 0, plan, answers);
        }
    } else {
        let before = answers.drop_last();
        let answer = answers.last();
        law_retired_in_order(plan, before);
        let run = RunView::start(plan).replayed(before);
        assert forall|k: int| 0 <= k < run.cleared.len() implies in_order(
            plan,
            answers,
            run.durable,
            #[trigger] run.cleared[k],
        ) by {
            lemma_in_order_grows(plan, answers, run.durable, run.cleared[k]);
        }
        match run.stage {
            RetireStage::Truncating => {
                let next = RunView {
                    durable: if answer == RetireAnswer::Done {
                        plan.up_to
                    } else {
                        None
                    },
                    ..run
                };
                lemma_from_candidate(next, 0, plan, answers);
            },
            RetireStage::Clearing(i) => {
                let pkid = plan.candidates[i as int].0;
                let next = RunView {
                    cleared: if answer == RetireAnswer::Done {
                        run.cleared.push(pkid)
                    } else {
                        run.cleared
                    },
                    ..run
                };
                if answer == RetireAnswer::Done {
                    let j = answers.len() - 1;
                    assert(answers.take(j) =~= before);
                    assert(answered(
                        plan,
                        answers,
                        j,
                        RetireCall::Clear { pkid },
                        RetireAnswer::Done,
                    ));
                    assert(in_order(plan, answers, run.durable, pkid)) by {
                        assert(plan.candidates[i as int].0 == pkid);
                    }
                }
                assert forall|k: int| 0 <= k < next.cleared.len() implies in_order(
                    plan,
                    answers,
                    next.durable,
                    #[trigger] next.cleared[k],
                ) by {
                    if k < run.cleared.len() {
                        assert(next.cleared[k] == run.cleared[k]);
                    }
                }
                lemma_from_candidate(next, (i + 1) as nat, plan, answers);
            },
            _ => {},
        }
    }
}

/// Whether the `j`-th call read the head of the queue and showed that nothing up to `offset` is
/// left.
pub open spec fn shown_gone(
    plan: RetirePlanView,
    answers: Seq<RetireAnswer>,
    j: int,
    offset: u64,
) -> bool {
    0 <= j < answers.len() && RunView::start(plan).replayed(answers.take(j)).call() == Some(
        RetireCall::Head,
    ) && match answers[j] {
        RetireAnswer::Head(Some(o)) => o > offset,
        RetireAnswer::Head(None) => true,
        _ => false,
    }
}

/// Whether an orphan that is gone is so in order: the head of the queue showed that its message
/// is gone, that was made durable next, and the packet id was cleared after that.
pub open spec fn orphan_in_order(
    plan: RetirePlanView,
    answers: Seq<RetireAnswer>,
    pkid: u16,
) -> bool {
    exists|i: int, j: int| #[trigger] orphan_steps(plan, answers, pkid, i, j)
}

/// See [`orphan_in_order`]: the three calls start with the `j`-th.
pub open spec fn orphan_steps(
    plan: RetirePlanView,
    answers: Seq<RetireAnswer>,
    pkid: u16,
    i: int,
    j: int,
) -> bool {
    &&& 0 <= i < plan.orphans.len()
    &&& plan.orphans[i].0 == pkid
    &&& shown_gone(plan, answers, j, plan.orphans[i].1)
    &&& answered(
        plan,
        answers,
        j + 1,
        RetireCall::Truncate { up_to: plan.orphans[i].1 },
        RetireAnswer::Done,
    )
    &&& answered(plan, answers, j + 2, RetireCall::Clear { pkid }, RetireAnswer::Done)
}

/// Whatever the store answers, an orphan is retired in order only.
pub proof fn law_orphans_retired_in_order(plan: RetirePlanView, answers: Seq<RetireAnswer>)
    requires
        plan.candidates.len() <= usize::MAX,
        plan.orphans.len() <= usize::MAX,
    ensures
        ({
            let run = RunView::start(plan).replayed(answers);
            let n = answers.len();
            &&& run.stage matches RetireStage::Settling(i) ==> shown_gone(
                plan,
                answers,
                n - 1,
                plan.orphans[i as int].1,
            )
            &&& run.stage matches RetireStage::Freeing(i) ==> shown_gone(
                plan,
                answers,
                n - 2,
                plan.orphans[i as int].1,
            ) && answered(
                plan,
                answers,
                n - 1,
                RetireCall::Truncate { up_to: plan.orphans[i as int].1 },
                RetireAnswer::Done,
            )
            &&& forall|k: int|
                0 <= k < run.orphans_cleared.len() ==> orphan_in_order(
                    plan,
                    answers,
                    #[trigger] run.orphans_cleared[k],
                )
        }),
    decreases answers.len(),
{
    let first = RunView {
        plan,
        stage: RetireStage::Truncating,
        durable: None,
        cleared: Seq::empty(),
        orphans_cleared: Seq::empty(),
    };
    if answers.len() == 0 {
        if plan.up_to is None {
            lemma_from_candidate(first, 0, plan, answers);
        }
    } else {
        let before = answers.drop_last();
        let answer = answers.last();
        let n = answers.len();
        law_orphans_retired_in_order(plan, before);
        law_retired_in_order(plan, before);
        let run = RunView::start(plan).replayed(before);
        assert(answers.take(n - 1) =~= before);
        assert(n >= 2 ==> answers.take(n - 2) =~= before.take(n - 2));
        assert(n >= 3 ==> answers.take(n - 3) =~= before.take(n - 3));
        assert forall|k: int| 0 <= k < run.orphans_cleared.len() implies orphan_in_order(
            plan,
            answers,
            #[trigger] run.orphans_cleared[k],
        ) by {
            let pkid = run.orphans_cleared[k];
            let (i, j) = choose|i: int, j: int| #[trigger] orphan_steps(plan, before, pkid, i, j);
            assert(answers.take(j) =~= before.take(j));
            assert(answers.take(j + 1) =~= before.take(j + 1));
            assert(answers.take(j + 2) =~= before.take(j + 2));
            assert(orphan_steps(plan, answers, pkid, i, j));
        }
        match run.stage {
            RetireStage::Truncating => {
                let next = RunView {
                    durable: if answer == RetireAnswer::Done {
                        plan.up_to
                    } else {
                        None
                    },
                    ..run
                };
                lemma_from_candidate(next, 0, plan, answers);
            },
            RetireStage::Clearing(i) => {
                let pkid = plan.candidates[i as int].0;
                let next = RunView {
                    cleared: if answer == RetireAnswer::Done {
                        run.cleared.push(pkid)
                    } else {
                        run.cleared
                    },
                    ..run
                };
                lemma_orphans_untouched(next, (i + 1) as nat);
            },
            RetireStage::Freeing(i) => {
                let pkid = plan.orphans[i as int].0;
                if answer == RetireAnswer::Done {
                    assert(orphan_steps(plan, answers, pkid, i as int, n - 3));
                }
                let after = run.after(answer);
                assert forall|k: int| 0 <= k < after.orphans_cleared.len() implies orphan_in_order(
                    plan,
                    answers,
                    #[trigger] after.orphans_cleared[k],
                ) by {
                    if k < run.orphans_cleared.len() {
                        assert(after.orphans_cleared[k] == run.orphans_cleared[k]);
                    }
                }
            },
            _ => {},
        }
    }
}

proof fn lemma_orphans_untouched(run: RunView, i: nat)
    ensures
        run.from_candidate(i).orphans_cleared == run.orphans_cleared,
        !(run.from_candidate(i).stage is Settling),
        !(run.from_candidate(i).stage is Freeing),
    decreases run.plan.candidates.len() - i,
{
    if i < run.plan.candidates.len() {
        let (pkid, offset) = run.plan.candidates[i as int];
        match offset {
            None => {
                lemma_orphans_untouched(
                    RunView { cleared: run.cleared.push(pkid), ..run },
                    i + 1,
                );
            },
            Some(o) => {
                if !(run.durable matches Some(t) && o <= t) {
                    lemma_orphans_untouched(run, i + 1);
                }
            },
        }
    }
}

} // verus!
