//! The fetch of a session for a client that attaches, one call to the store at a time.
//!
//! The session is claimed first: whose it is decides who may have it. Then its subscriptions are
//! read, and the head of its queue, to see that the queue can be read. The queue itself is not part
//! of the fetch: it is read when the hub takes up what was fetched, so that nothing is missing from
//! it that was recorded in the meantime. A fault that may pass is waited out and the fetch begun
//! anew, for some time; any other ends it. A session that could not be read is never taken for one
//! that is not there.

use vstd::prelude::*;

use crate::session::{RecoveryView, SessionRecovery};
use crate::subscriptions::{Grants, Subscription};

verus! {

/// For how long the fetch of a session is tried again, in milliseconds.
pub const ATTACH_RECOVERY_TIMEOUT: u64 = 5_000;

/// The first wait before the fetch of a session is tried again, in milliseconds.
pub const ATTACH_RECOVERY_BACKOFF_START: u64 = 50;

/// The longest such wait.
pub const ATTACH_RECOVERY_BACKOFF_MAX: u64 = 250;

/// What to do after a try to fetch a session.
#[derive(Debug, Clone, Copy, PartialEq, Eq, Structural)]
pub enum RecoveryStep {
    /// Go on with what was fetched.
    Done,
    /// Try again after `wait`; the wait after that is `next`.
    Again {
        wait: u64,
        next: u64,
    },
    /// Tell the client to try later.
    GiveUp,
}

/// What to do `elapsed` milliseconds into the fetch of a session, which was `fetched` or failed
/// with a fault that is `transient` or not.
pub open spec fn next_step(fetched: bool, transient: bool, elapsed: u64, backoff: u64) -> RecoveryStep {
    if fetched {
        RecoveryStep::Done
    } else if transient && elapsed < ATTACH_RECOVERY_TIMEOUT {
        RecoveryStep::Again {
            wait: backoff,
            next: if 2 * backoff < ATTACH_RECOVERY_BACKOFF_MAX {
                (2 * backoff) as u64
            } else {
                ATTACH_RECOVERY_BACKOFF_MAX
            },
        }
    } else {
        RecoveryStep::GiveUp
    }
}

/// See [`next_step`].
pub fn recovery_step(fetched: bool, transient: bool, elapsed: u64, backoff: u64) -> (r: RecoveryStep)
    ensures
        r == next_step(fetched, transient, elapsed, backoff),
{
    if fetched {
        RecoveryStep::Done
    } else if transient && elapsed < ATTACH_RECOVERY_TIMEOUT {
        let next: u64 = if backoff < 125 {
            2 * backoff
        } else {
            ATTACH_RECOVERY_BACKOFF_MAX
        };
        RecoveryStep::Again { wait: backoff, next }
    } else {
        RecoveryStep::GiveUp
    }
}

/// A call to the store, or a wait.
#[derive(Debug, Clone, Copy, PartialEq, Eq, Structural)]
pub enum FetchCall {
    /// Claim the session for the client's identity.
    Claim,
    /// Read the subscriptions.
    Subscriptions,
    /// Read the head of the queue, to see that it can be read.
    Probe,
    /// Wait so many milliseconds.
    Wait(u64),
}

/// What came of a call.
#[derive(Debug)]
pub enum FetchAnswer {
    /// The session is the claimant's; whether there was one.
    Granted {
        present: bool,
    },
    /// The session is somebody else's.
    Denied {
        owner: String,
    },
    /// The subscriptions.
    Subscriptions(Vec<Subscription>),
    /// The head of the queue can be read.
    Probed,
    /// The store failed; whether the fault may pass by itself.
    Failed {
        transient: bool,
    },
    /// The wait is over.
    Waited,
}

/// Model of [`FetchAnswer`].
pub enum FetchAnswerView {
    Granted {
        present: bool,
    },
    Denied {
        owner: Seq<char>,
    },
    Subscriptions(Grants),
    Probed,
    Failed {
        transient: bool,
    },
    Waited,
}

impl DeepView for FetchAnswer {
    type V = FetchAnswerView;

    open spec fn deep_view(&self) -> FetchAnswerView {
        match *self {
            FetchAnswer::Granted { present } => FetchAnswerView::Granted { present },
            FetchAnswer::Denied { owner } => FetchAnswerView::Denied { owner: owner@ },
            FetchAnswer::Subscriptions(subs) => FetchAnswerView::Subscriptions(subs.deep_view()),
            FetchAnswer::Probed => FetchAnswerView::Probed,
            FetchAnswer::Failed { transient } => FetchAnswerView::Failed { transient },
            FetchAnswer::Waited => FetchAnswerView::Waited,
        }
    }
}

/// How far a fetch has come.
#[derive(Debug)]
pub enum FetchStage {
    /// The session is being claimed.
    Claiming,
    /// The subscriptions of a session that was claimed are being read.
    Reading {
        present: bool,
    },
    /// The head of the queue is being read.
    Probing {
        present: bool,
        subscriptions: Vec<Subscription>,
    },
    /// The store is given some time.
    Waiting {
        wait: u64,
    },
    /// The fetch is over.
    Over(SessionRecovery),
}

/// Model of [`FetchStage`].
pub enum FetchStageView {
    Claiming,
    Reading {
        present: bool,
    },
    Probing {
        present: bool,
        subscriptions: Grants,
    },
    Waiting {
        wait: u64,
    },
    Over(RecoveryView),
}

impl DeepView for FetchStage {
    type V = FetchStageView;

    open spec fn deep_view(&self) -> FetchStageView {
        match *self {
            FetchStage::Claiming => FetchStageView::Claiming,
            FetchStage::Reading { present } => FetchStageView::Reading { present },
            FetchStage::Probing { present, subscriptions } => FetchStageView::Probing {
                present,
                subscriptions: subscriptions.deep_view(),
            },
            FetchStage::Waiting { wait } => FetchStageView::Waiting { wait },
            FetchStage::Over(r) => FetchStageView::Over(r.deep_view()),
        }
    }
}

/// The fetch of a session.
#[derive(Debug)]
pub struct SessionFetch {
    pub stage: FetchStage,
    /// The next wait.
    pub backoff: u64,
}

/// Model of [`SessionFetch`].
#[verifier::ext_equal]
pub struct FetchView {
    pub stage: FetchStageView,
    pub backoff: u64,
}

impl DeepView for SessionFetch {
    type V = FetchView;

    open spec fn deep_view(&self) -> FetchView {
        FetchView { stage: self.stage.deep_view(), backoff: self.backoff }
    }
}

impl FetchView {
    /// A fetch before its first call.
    pub open spec fn start() -> FetchView {
        FetchView { stage: FetchStageView::Claiming, backoff: ATTACH_RECOVERY_BACKOFF_START }
    }

    /// The call to make.
    pub open spec fn call(self) -> Option<FetchCall> {
        match self.stage {
            FetchStageView::Claiming => Some(FetchCall::Claim),
            FetchStageView::Reading { .. } => Some(FetchCall::Subscriptions),
            FetchStageView::Probing { .. } => Some(FetchCall::Probe),
            FetchStageView::Waiting { wait } => Some(FetchCall::Wait(wait)),
            FetchStageView::Over(_) => None,
        }
    }

    /// The fetch after a fault, `elapsed` milliseconds after it began.
    pub open spec fn failed(self, transient: bool, elapsed: u64) -> FetchView {
        match next_step(false, transient, elapsed, self.backoff) {
            RecoveryStep::Again { wait, next } => FetchView {
                stage: FetchStageView::Waiting { wait },
                backoff: next,
            },
            _ => FetchView { stage: FetchStageView::Over(RecoveryView::Unavailable), ..self },
        }
    }

    /// The fetch after the answer to its call; an answer to another call counts as a fault that
    /// does not pass.
    pub open spec fn after(self, answer: FetchAnswerView, elapsed: u64) -> FetchView {
        let transient = answer == (FetchAnswerView::Failed { transient: true });
        match self.stage {
            FetchStageView::Claiming => match answer {
                FetchAnswerView::Granted { present } => FetchView {
                    stage: FetchStageView::Reading { present },
                    ..self
                },
                FetchAnswerView::Denied { owner } => FetchView {
                    stage: FetchStageView::Over(RecoveryView::Denied { owner }),
                    ..self
                },
                _ => self.failed(transient, elapsed),
            },
            FetchStageView::Reading { present } => match answer {
                FetchAnswerView::Subscriptions(subscriptions) => FetchView {
                    stage: FetchStageView::Probing { present, subscriptions },
                    ..self
                },
                _ => self.failed(transient, elapsed),
            },
            FetchStageView::Probing { present, subscriptions } => match answer {
                FetchAnswerView::Probed => FetchView {
                    stage: FetchStageView::Over(RecoveryView::Ready { present, subscriptions }),
                    ..self
                },
                _ => self.failed(transient, elapsed),
            },
            FetchStageView::Waiting { .. } => FetchView { stage: FetchStageView::Claiming, ..self },
            FetchStageView::Over(_) => self,
        }
    }

    /// The fetch after `answers`, each with the time at which it came.
    pub open spec fn replayed(self, answers: Seq<(FetchAnswerView, u64)>) -> FetchView
        decreases answers.len(),
    {
        if answers.len() == 0 {
            self
        } else {
            self.replayed(answers.drop_last()).after(answers.last().0, answers.last().1)
        }
    }
}

impl SessionFetch {
    /// See [`FetchView::start`].
    pub fn new() -> (r: Self)
        ensures
            r.deep_view() == FetchView::start(),
    {
        SessionFetch { stage: FetchStage::Claiming, backoff: ATTACH_RECOVERY_BACKOFF_START }
    }

    /// See [`FetchView::call`].
    pub fn call(&self) -> (r: Option<FetchCall>)
        ensures
            r == self.deep_view().call(),
    {
        match &self.stage {
            FetchStage::Claiming => Some(FetchCall::Claim),
            FetchStage::Reading { .. } => Some(FetchCall::Subscriptions),
            FetchStage::Probing { .. } => Some(FetchCall::Probe),
            FetchStage::Waiting { wait } => Some(FetchCall::Wait(*wait)),
            FetchStage::Over(_) => None,
        }
    }

    /// See [`FetchView::failed`].
    fn fail(backoff: u64, transient: bool, elapsed: u64) -> (r: Self)
        ensures
            forall|f: FetchView|
                f.backoff == backoff ==> r.deep_view() == #[trigger] f.failed(transient, elapsed),
    {
        match recovery_step(false, transient, elapsed, backoff) {
            RecoveryStep::Again { wait, next } => SessionFetch {
                stage: FetchStage::Waiting { wait },
                backoff: next,
            },
            _ => SessionFetch { stage: FetchStage::Over(SessionRecovery::Unavailable), backoff },
        }
    }

    /// See [`FetchView::after`].
    pub fn answer(self, answer: FetchAnswer, elapsed: u64) -> (r: Self)
        ensures
            r.deep_view() == self.deep_view().after(answer.deep_view(), elapsed),
    {
        let backoff: u64 = self.backoff;
        let transient = match &answer {
            FetchAnswer::Failed { transient } => *transient,
            _ => false,
        };
        match self.stage {
            FetchStage::Claiming => match answer {
                FetchAnswer::Granted { present } => SessionFetch {
                    stage: FetchStage::Reading { present },
                    backoff,
                },
                FetchAnswer::Denied { owner } => SessionFetch {
                    stage: FetchStage::Over(SessionRecovery::Denied { owner }),
                    backoff,
                },
                _ => SessionFetch::fail(backoff, transient, elapsed),
            },
            FetchStage::Reading { present } => match answer {
                FetchAnswer::Subscriptions(subscriptions) => SessionFetch {
                    stage: FetchStage::Probing { present, subscriptions },
                    backoff,
                },
                _ => SessionFetch::fail(backoff, transient, elapsed),
            },
            FetchStage::Probing { present, subscriptions } => match answer {
                FetchAnswer::Probed => SessionFetch {
                    stage: FetchStage::Over(SessionRecovery::Ready { present, subscriptions }),
                    backoff,
                },
                _ => SessionFetch::fail(backoff, transient, elapsed),
            },
            FetchStage::Waiting { .. } => SessionFetch { stage: FetchStage::Claiming, backoff },
            FetchStage::Over(r) => SessionFetch { stage: FetchStage::Over(r), backoff },
        }
    }

    /// What was fetched, once the fetch is over.
    pub fn finish(self) -> (r: Option<SessionRecovery>)
        ensures
            r.deep_view() == (match self.deep_view().stage {
                FetchStageView::Over(recovery) => Some(recovery),
                _ => None,
            }),
    {
        match self.stage {
            FetchStage::Over(recovery) => Some(recovery),
            _ => None,
        }
    }
}

/// Whether one of `answers` is `a`.
pub open spec fn heard(answers: Seq<(FetchAnswerView, u64)>, a: FetchAnswerView) -> bool {
    exists|i: int| 0 <= i < answers.len() && (#[trigger] answers[i]).0 == a
}

/// A fetch never makes anything up: it says that a session is there, or is not, only if the
/// claim of the session was granted with that answer; that it is somebody else's only if the
/// claim was denied; the subscriptions are the ones that were read; and a session is not ready
/// before its queue was seen to be readable.
pub proof fn law_fetch_is_honest(answers: Seq<(FetchAnswerView, u64)>)
    ensures
        match FetchView::start().replayed(answers).stage {
            FetchStageView::Claiming => true,
            FetchStageView::Waiting { .. } => true,
            FetchStageView::Reading { present } => heard(
                answers,
                FetchAnswerView::Granted { present },
            ),
            FetchStageView::Probing { present, subscriptions } => heard(
                answers,
                FetchAnswerView::Granted { present },
            ) && heard(answers, FetchAnswerView::Subscriptions(subscriptions)),
            FetchStageView::Over(RecoveryView::Ready { present, subscriptions }) => {
                &&& heard(answers, FetchAnswerView::Granted { present })
                &&& heard(answers, FetchAnswerView::Subscriptions(subscriptions))
                &&& heard(answers, FetchAnswerView::Probed)
            },
            FetchStageView::Over(RecoveryView::Denied { owner }) => heard(
                answers,
                FetchAnswerView::Denied { owner },
            ),
            FetchStageView::Over(RecoveryView::Unavailable) => true,
            FetchStageView::Over(RecoveryView::Cleaned) => false,
        },
    decreases answers.len(),
{
    if answers.len() > 0 {
        let rest = answers.drop_last();
        law_fetch_is_honest(rest);
        assert(answers[answers.len() - 1] == answers.last());
        assert forall|a: FetchAnswerView| #[trigger] heard(rest, a) implies heard(answers, a) by {
            let i = choose|i: int| 0 <= i < rest.len() && (#[trigger] rest[i]).0 == a;
            assert(answers[i] == rest[i]);
        }
        assert(heard(answers, answers.last().0));
    }
}

/// A fault that may pass does not end a fetch before its time is up: the fetch waits, no longer
/// than the longest wait, and begins anew.
pub proof fn law_faults_are_waited_out(f: FetchView, elapsed: u64)
    requires
        elapsed < ATTACH_RECOVERY_TIMEOUT,
        f.stage !is Over,
        f.stage !is Waiting,
        f.backoff <= ATTACH_RECOVERY_BACKOFF_MAX,
    ensures
        f.after(FetchAnswerView::Failed { transient: true }, elapsed).stage == (FetchStageView::Waiting {
            wait: f.backoff,
        }),
        f.after(FetchAnswerView::Failed { transient: true }, elapsed).backoff <= ATTACH_RECOVERY_BACKOFF_MAX,
        forall|t: u64|
            (#[trigger] f.after(FetchAnswerView::Failed { transient: true }, elapsed).after(
                FetchAnswerView::Waited,
                t,
            )).stage == FetchStageView::Claiming,
{
}

} // verus!
