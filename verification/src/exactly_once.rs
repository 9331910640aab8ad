//! The exchange about messages that are sent exactly once, and about acknowledgements in
//! general.

use vstd::prelude::*;

use crate::assoc::{adjoin, bound, cut, lookup, lookup_or, put, push_item, without, Key, Roster};

use crate::hub::{Hub, HubView};
use crate::ids::{next_number, ClientId};
use crate::inflight::{Inflight, InflightView, OutState, PendingOutView};
use crate::lanes::{LaneJob, LaneJobView};
use crate::packet::{Packet, PacketView};
use crate::qos2::{Qos2LaneOp, Qos2OpOutcome, Qos2OpView, Qos2RetirePlan, Qos2RetireResult,
    Qos2View, RetirePlanView, RetireResultView};

verus! {

/// The packet ids that are done and whose messages stand within `safe`.
pub open spec fn retirable(pending: Seq<(u16, PendingOutView)>, safe: u64) -> Seq<(u16, Option<u64>)>
    decreases pending.len(),
{
    if pending.len() == 0 {
        Seq::empty()
    } else {
        let rest = retirable(pending.drop_last(), safe);
        let (pkid, p) = pending.last();
        if p.state == OutState::CompletedQos2 && (p.offset matches Some(o) ==> o <= safe) {
            rest.push((pkid, p.offset))
        } else {
            rest
        }
    }
}

/// Whether one of them has a place in the durable queue.
pub open spec fn some_placed(candidates: Seq<(u16, Option<u64>)>) -> bool {
    exists|i: int| 0 <= i < candidates.len() && (#[trigger] candidates[i]).1 is Some
}

/// The packet ids to retire that an earlier session left behind.
pub open spec fn orphans_due(cleanup: Seq<u16>, orphaned: Seq<(u16, u64)>) -> Seq<(u16, u64)>
    decreases cleanup.len(),
{
    if cleanup.len() == 0 {
        Seq::empty()
    } else {
        let rest = orphans_due(cleanup.drop_last(), orphaned);
        match lookup(orphaned, cleanup.last()) {
            Some(offset) => rest.push((cleanup.last(), offset)),
            None => rest,
        }
    }
}

/// Tells the pairs of other clients than `c`.
pub open spec fn not_of_client(c: Seq<char>) -> spec_fn((Seq<char>, u16)) -> bool {
    |x: (Seq<char>, u16)| x.0 != c
}

impl InflightView {
    /// Whether a packet id waits to be retired.
    pub open spec fn retires(self) -> bool {
        self.orphaned_qos2_cleanup.len() > 0 || exists|i: int|
            0 <= i < self.pending.len() && (#[trigger] self.pending[i]).1.state
                == OutState::CompletedQos2
    }

    /// With the durable queue known to be truncated through `through`.
    pub open spec fn truncated(self, through: Option<u64>) -> InflightView {
        InflightView {
            acked_through: match through {
                Some(t) => if self.acked_through < t {
                    t
                } else {
                    self.acked_through
                },
                None => self.acked_through,
            },
            ..self
        }
    }

    /// With those of `pkids` free that are done.
    pub open spec fn freed(self, pkids: Seq<u16>) -> InflightView
        decreases pkids.len(),
    {
        if pkids.len() == 0 {
            self
        } else {
            let rest = self.freed(pkids.drop_last());
            match lookup(rest.pending, pkids.last()) {
                Some(p) => if p.state == OutState::CompletedQos2 {
                    InflightView { pending: cut(rest.pending, pkids.last()), ..rest }
                } else {
                    rest
                },
                None => rest,
            }
        }
    }

    /// With none of `pkids` left behind.
    pub open spec fn orphans_gone(self, pkids: Seq<u16>) -> InflightView
        decreases pkids.len(),
    {
        if pkids.len() == 0 {
            self
        } else {
            let rest = self.orphans_gone(pkids.drop_last());
            InflightView {
                orphaned_qos2: cut(rest.orphaned_qos2, pkids.last()),
                orphaned_qos2_cleanup: without(rest.orphaned_qos2_cleanup, pkids.last()),
                ..rest
            }
        }
    }

    /// With what a retirement came to.
    pub open spec fn retired(self, r: RetireResultView) -> InflightView {
        self.truncated(r.durable).freed(r.cleared).orphans_gone(r.orphans_cleared)
    }

    /// Without the message that held `pkid`, which is acknowledged.
    pub open spec fn acked(self, pkid: u16, p: PendingOutView) -> InflightView {
        InflightView { pending: cut(self.pending, pkid), ..self }.released_at(p.offset)
    }

    /// With the message at `offset` acknowledged, if it has a place.
    pub open spec fn released_at(self, offset: Option<u64>) -> InflightView {
        match offset {
            Some(o) => self.released(o),
            None => self,
        }
    }
}

impl HubView {
    /// With other bookkeeping.
    pub open spec fn with_qos2(self, qos2: Qos2View) -> HubView {
        HubView { qos2, ..self }
    }

    /// What tells the session of `client` apart from earlier ones.
    pub open spec fn epoch(self, client: Seq<char>) -> u64 {
        lookup_or(self.qos2.epoch, client, 0)
    }

    /// The message that holds `pkid`.
    pub open spec fn held_by(self, client: Seq<char>, pkid: u16) -> Option<PendingOutView> {
        match lookup(self.sessions.inflight, client) {
            Some(inf) => lookup(inf.pending, pkid),
            None => None,
        }
    }

    /// What there is to retire for `client`.
    pub open spec fn retire_plan(self, client: Seq<char>) -> RetirePlanView {
        match lookup(self.sessions.inflight, client) {
            None => RetirePlanView {
                client,
                epoch: self.epoch(client),
                up_to: None,
                candidates: Seq::empty(),
                orphans: Seq::empty(),
            },
            Some(inf) => {
                let safe = inf.safe_through();
                let candidates = retirable(inf.pending, safe);
                RetirePlanView {
                    client,
                    epoch: self.epoch(client),
                    up_to: if some_placed(candidates) && safe > 0 {
                        Some(safe)
                    } else {
                        None
                    },
                    candidates,
                    orphans: orphans_due(inf.orphaned_qos2_cleanup, inf.orphaned_qos2),
                }
            },
        }
    }

    /// Whether a packet id of `client` waits to be retired.
    pub open spec fn retires(self, client: Seq<char>) -> bool {
        match lookup(self.sessions.inflight, client) {
            Some(inf) => inf.retires(),
            None => false,
        }
    }

    /// With `client` among those that have packet ids to retire, or not.
    pub open spec fn cleaning(self, client: Seq<char>, on: bool) -> HubView {
        self.with_qos2(
            Qos2View {
                cleanup: if on {
                    adjoin(self.qos2.cleanup, client)
                } else {
                    without(self.qos2.cleanup, client)
                },
                ..self.qos2
            },
        )
    }

    /// With a retirement for `client` under way, if there is something to retire and none is
    /// under way.
    pub open spec fn retiring(self, client: Seq<char>) -> HubView {
        let plan = self.retire_plan(client);
        if self.qos2.retire_inflight.contains(client) {
            self
        } else if plan.candidates.len() == 0 && plan.orphans.len() == 0 {
            if self.retires(client) {
                self
            } else {
                self.cleaning(client, false)
            }
        } else {
            let (h, taken) = self.controlling(
                client,
                LaneJobView::Qos2Op { client, op: Qos2OpView::Retire(plan) },
            );
            if taken {
                h.with_qos2(
                    Qos2View {
                        retire_inflight: adjoin(h.qos2.retire_inflight, client),
                        ..h.qos2
                    },
                )
            } else {
                h
            }
        }
    }

    /// With the acknowledgement of the message that holds `pkid`.
    pub open spec fn puback(self, client: Seq<char>, pkid: u16) -> HubView {
        match self.held_by(client, pkid) {
            Some(p) => if p.state == OutState::AwaitingPubAck {
                let h = self.with_inf(client, self.inf(client).acked(pkid, p)).truncating(client);
                let h2 = if h.qos2.cleanup.contains(client) {
                    h.retiring(client)
                } else {
                    h
                };
                h2.drained(client)
            } else {
                self
            },
            None => self,
        }
    }

    /// With the message that holds `pkid` released, if its receipt was to be confirmed.
    pub open spec fn releasing(self, client: Seq<char>, pkid: u16) -> HubView {
        match self.held_by(client, pkid) {
            Some(p) => if p.state == OutState::AwaitingPubRec {
                self.with_state(client, pkid, OutState::AwaitingPubComp).sending(
                    client,
                    PacketView::PubRel(pkid),
                    0,
                )
            } else {
                self
            },
            None => self,
        }
    }

    /// With the receipt of the message that holds `pkid` confirmed. A message that stands in
    /// the durable queue is released only once that is recorded.
    pub open spec fn pubrec(self, client: Seq<char>, pkid: u16) -> HubView {
        let durable = self.held_by(client, pkid) matches Some(p) && p.state
            == OutState::AwaitingPubRec && p.offset is Some;
        if !durable {
            self.releasing(client, pkid)
        } else if self.qos2.advance_inflight.contains((client, pkid)) {
            self
        } else {
            let op = Qos2OpView::Advance { pkid, epoch: self.epoch(client) };
            let (h, taken) = self.controlling(client, LaneJobView::Qos2Op { client, op });
            if taken {
                h.with_qos2(
                    Qos2View {
                        advance_inflight: adjoin(h.qos2.advance_inflight, (client, pkid)),
                        ..h.qos2
                    },
                )
            } else {
                h
            }
        }
    }

    /// With the message that holds `pkid` done.
    pub open spec fn marking(self, client: Seq<char>, pkid: u16) -> HubView {
        let h = match self.held_by(client, pkid) {
            Some(p) => {
                let inf = self.inf(client);
                self.with_inf(
                    client,
                    InflightView {
                        pending: put(
                            inf.pending,
                            pkid,
                            PendingOutView { state: OutState::CompletedQos2, ..p },
                        ),
                        ..inf
                    }.released_at(p.offset),
                )
            },
            None => self,
        };
        h.cleaning(client, true)
    }

    /// With the completion of the message that held `pkid`.
    pub open spec fn pubcomp(self, client: Seq<char>, pkid: u16) -> HubView {
        match self.held_by(client, pkid) {
            Some(p) => match p.state {
                OutState::AwaitingPubComp => self.marking(client, pkid).retiring(client),
                OutState::CompletedQos2 => self.marking(client, pkid).retiring(client),
                OutState::AwaitingPubRec => if self.qos2.advance_inflight.contains(
                    (client, pkid),
                ) {
                    self.with_qos2(
                        Qos2View {
                            held_pubcomp: adjoin(self.qos2.held_pubcomp, (client, pkid)),
                            ..self.qos2
                        },
                    )
                } else {
                    self
                },
                _ => self,
            },
            None => match lookup(self.sessions.inflight, client) {
                Some(inf) => if bound(inf.orphaned_qos2, pkid) {
                    self.with_inf(
                        client,
                        InflightView {
                            orphaned_qos2_cleanup: adjoin(inf.orphaned_qos2_cleanup, pkid),
                            ..inf
                        },
                    ).cleaning(client, true).retiring(client)
                } else {
                    self
                },
                None => self,
            },
        }
    }

    /// With `pkid`, whose message stood at `offset` in an earlier session, to be retired.
    pub open spec fn orphaning(self, client: Seq<char>, pkid: u16, offset: u64) -> HubView {
        let inf = self.inf(client);
        self.with_inf(
            client,
            InflightView {
                orphaned_qos2: put(inf.orphaned_qos2, pkid, offset),
                orphaned_qos2_cleanup: adjoin(inf.orphaned_qos2_cleanup, pkid),
                ..inf
            },
        ).cleaning(client, true)
    }

    /// With retirements for each of `clients` under way, and what waits for them sent.
    pub open spec fn retiring_each(self, clients: Seq<Seq<char>>) -> HubView
        decreases clients.len(),
    {
        if clients.len() == 0 {
            self
        } else {
            let c = clients.last();
            self.retiring_each(clients.drop_last()).retiring(c).drained(c)
        }
    }

    /// With the receipt of the message that holds `pkid` recorded, or not. What belongs to an
    /// earlier session of the client changes nothing.
    pub open spec fn advanced(self, client: Seq<char>, pkid: u16, epoch: u64, ok: bool) -> HubView {
        let key = (client, pkid);
        let waits = self.qos2.held_pubcomp.contains(key);
        let h = self.with_qos2(
            Qos2View {
                advance_inflight: without(self.qos2.advance_inflight, key),
                held_pubcomp: without(self.qos2.held_pubcomp, key),
                ..self.qos2
            },
        );
        if epoch != self.epoch(client) || !ok {
            h
        } else if waits {
            h.releasing(client, pkid).pubcomp(client, pkid)
        } else {
            h.releasing(client, pkid)
        }
    }

    /// With what a retirement came to. What belongs to an earlier session of the client changes
    /// nothing.
    pub open spec fn applying_retire(self, r: RetireResultView) -> HubView {
        let h = self.with_qos2(
            Qos2View {
                retire_inflight: without(self.qos2.retire_inflight, r.client),
                ..self.qos2
            },
        );
        if r.epoch != self.epoch(r.client) {
            h
        } else {
            let h2 = match lookup(h.sessions.inflight, r.client) {
                Some(inf) => h.with_inf(r.client, inf.retired(r)),
                None => h,
            };
            let h3 = if h2.retires(r.client) {
                h2.cleaning(r.client, true).retiring(r.client)
            } else {
                h2.cleaning(r.client, false)
            };
            h3.drained(r.client)
        }
    }

    /// With nothing under way for `client`, and whatever is told apart from what comes after.
    pub open spec fn forgetting(self, client: Seq<char>) -> HubView {
        self.with_qos2(
            Qos2View {
                cleanup: without(self.qos2.cleanup, client),
                retire_inflight: without(self.qos2.retire_inflight, client),
                advance_inflight: self.qos2.advance_inflight.filter(not_of_client(client)),
                held_pubcomp: self.qos2.held_pubcomp.filter(not_of_client(client)),
                epoch: put(self.qos2.epoch, client, next_number(self.epoch(client))),
            },
        )
    }
}

fn drop_client(items: &mut Roster<(ClientId, u16)>, client: &ClientId)
    ensures
        final(items).deep_view() == old(items).deep_view().filter(
            not_of_client(client.deep_view()),
        ),
{
    let ghost s = items.deep_view();
    let ghost keep = not_of_client(client.deep_view());
    let mut i: usize = 0;
    while i < items.items.len()
        invariant
            i <= items.items@.len(),
            keep == not_of_client(client.deep_view()),
            items.deep_view().filter(keep) == s.filter(keep),
            forall|j: int| 0 <= j < i ==> keep(#[trigger] items.deep_view()[j]),
        decreases items.items@.len() - i,
    {
        if items.items[i].0.same(client) {
            let ghost t = items.deep_view();
            let _dropped = items.items.remove(i);
            assert(items.deep_view() =~= t.remove(i as int));
            proof {
                crate::assoc::lemma_filter_remove(t, i as int, keep);
            }
            assert forall|j: int| 0 <= j < i implies keep(#[trigger] items.deep_view()[j]) by {
                assert(items.deep_view()[j] == t[j]);
            }
        } else {
            assert(keep(items.deep_view()[i as int]));
            i += 1;
        }
    }
    proof {
        crate::assoc::lemma_filter_all(items.deep_view(), keep);
    }
}

impl Inflight {
    /// See [`InflightView::retires`].
    pub fn retires(&self) -> (r: bool)
        ensures
            r == self.deep_view().retires(),
    {
        if !self.orphaned_qos2_cleanup.is_empty() {
            return true;
        }
        let ghost s = self.deep_view().pending;
        let mut i: usize = 0;
        while i < self.pending.len()
            invariant
                i <= s.len(),
                s == self.deep_view().pending,
                forall|j: int|
                    0 <= j < i ==> (#[trigger] s[j]).1.state != OutState::CompletedQos2,
            decreases s.len() - i,
        {
            if self.pending.value_at(i).state == OutState::CompletedQos2 {
                assert(s[i as int].1.state == OutState::CompletedQos2);
                return true;
            }
            i += 1;
        }
        false
    }

    /// See [`retirable`].
    fn retirable(&self, safe: u64) -> (r: Vec<(u16, Option<u64>)>)
        ensures
            r.deep_view() == retirable(self.deep_view().pending, safe),
    {
        let ghost s = self.deep_view().pending;
        let mut r: Vec<(u16, Option<u64>)> = Vec::new();
        let mut i: usize = 0;
        assert(r.deep_view() =~= retirable(s.take(0), safe));
        while i < self.pending.len()
            invariant
                i <= s.len(),
                s == self.deep_view().pending,
                r.deep_view() == retirable(s.take(i as int), safe),
            decreases s.len() - i,
        {
            proof {
                assert(s.take(i as int + 1).drop_last() =~= s.take(i as int));
                assert(s.take(i as int + 1).last() == s[i as int]);
            }
            let p = self.pending.value_at(i);
            let within = match p.offset {
                Some(o) => o <= safe,
                None => true,
            };
            if p.state == OutState::CompletedQos2 && within {
                push_item(&mut r, (*self.pending.key_at(i), p.offset));
            }
            i += 1;
        }
        assert(s.take(i as int) =~= s);
        r
    }

    /// See [`orphans_due`].
    fn orphans_due(&self) -> (r: Vec<(u16, u64)>)
        ensures
            r.deep_view() == orphans_due(
                self.deep_view().orphaned_qos2_cleanup,
                self.deep_view().orphaned_qos2,
            ),
    {
        let ghost s = self.deep_view().orphaned_qos2_cleanup;
        let ghost o = self.deep_view().orphaned_qos2;
        let mut r: Vec<(u16, u64)> = Vec::new();
        let mut i: usize = 0;
        assert(r.deep_view() =~= orphans_due(s.take(0), o));
        while i < self.orphaned_qos2_cleanup.len()
            invariant
                i <= s.len(),
                s == self.deep_view().orphaned_qos2_cleanup,
                o == self.deep_view().orphaned_qos2,
                r.deep_view() == orphans_due(s.take(i as int), o),
            decreases s.len() - i,
        {
            proof {
                assert(s.take(i as int + 1).drop_last() =~= s.take(i as int));
                assert(s.take(i as int + 1).last() == s[i as int]);
            }
            let pkid: u16 = *self.orphaned_qos2_cleanup.at(i);
            match self.orphaned_qos2.get(&pkid) {
                Some(offset) => {
                    push_item(&mut r, (pkid, *offset));
                },
                None => {},
            }
            i += 1;
        }
        assert(s.take(i as int) =~= s);
        r
    }

    /// See [`InflightView::released_at`].
    fn release_at(&mut self, offset: Option<u64>)
        ensures
            final(self).deep_view() == old(self).deep_view().released_at(offset),
    {
        if let Some(o) = offset {
            self.release(o);
        }
    }

    /// See [`InflightView::retired`].
    fn retire(&mut self, r: &Qos2RetireResult)
        ensures
            final(self).deep_view() == old(self).deep_view().retired(r.deep_view()),
    {
        if let Some(through) = r.durable {
            if self.acked_through < through {
                self.acked_through = through;
            }
        }
        let ghost base = self.deep_view();
        assert(base == old(self).deep_view().truncated(r.durable));
        let ghost cs = r.cleared.deep_view();
        let mut i: usize = 0;
        assert(cs.take(0) =~= Seq::empty());
        while i < r.cleared.len()
            invariant
                i <= r.cleared@.len(),
                cs == r.cleared.deep_view(),
                self.deep_view() == base.freed(cs.take(i as int)),
            decreases r.cleared@.len() - i,
        {
            proof {
                assert(cs.take(i as int + 1).drop_last() =~= cs.take(i as int));
                assert(cs.take(i as int + 1).last() == cs[i as int]);
            }
            let pkid: u16 = r.cleared[i];
            let done = match self.pending.get(&pkid) {
                Some(p) => p.state == OutState::CompletedQos2,
                None => false,
            };
            if done {
                let _gone = self.pending.remove(&pkid);
            }
            i += 1;
        }
        assert(cs.take(i as int) =~= cs);
        let ghost mid = self.deep_view();
        let ghost os = r.orphans_cleared.deep_view();
        let mut j: usize = 0;
        assert(os.take(0) =~= Seq::empty());
        while j < r.orphans_cleared.len()
            invariant
                j <= r.orphans_cleared@.len(),
                os == r.orphans_cleared.deep_view(),
                self.deep_view() == mid.orphans_gone(os.take(j as int)),
            decreases r.orphans_cleared@.len() - j,
        {
            proof {
                assert(os.take(j as int + 1).drop_last() =~= os.take(j as int));
                assert(os.take(j as int + 1).last() == os[j as int]);
            }
            let pkid: u16 = r.orphans_cleared[j];
            let _offset = self.orphaned_qos2.remove(&pkid);
            let _due = self.orphaned_qos2_cleanup.remove(&pkid);
            j += 1;
        }
        assert(os.take(j as int) =~= os);
    }
}

impl Hub {
    /// See [`HubView::epoch`].
    pub fn qos2_epoch(&self, client: &ClientId) -> (r: u64)
        ensures
            r == self.deep_view().epoch(client.deep_view()),
    {
        match self.qos2.epoch.get(client) {
            Some(e) => *e,
            None => 0,
        }
    }

    /// Tells the session of `client` apart from what was.
    pub fn bump_qos2_epoch(&mut self, client: &ClientId)
        ensures
            final(self).deep_view() == old(self).deep_view().with_qos2(
                (Qos2View {
                    epoch: put(
                        old(self).deep_view().qos2.epoch,
                        client.deep_view(),
                        next_number(old(self).deep_view().epoch(client.deep_view())),
                    ),
                    ..old(self).deep_view().qos2
                }),
            ),
    {
        let epoch = self.qos2.epoch.entry_or(client, 0);
        let _now = crate::ids::advance(epoch);
    }

    /// See [`HubView::forgetting`].
    pub fn forget_qos2_isolation(&mut self, client: &ClientId)
        ensures
            final(self).deep_view() == old(self).deep_view().forgetting(client.deep_view()),
    {
        let _cleanup = self.qos2.cleanup.remove(client);
        let _retire = self.qos2.retire_inflight.remove(client);
        drop_client(&mut self.qos2.advance_inflight, client);
        drop_client(&mut self.qos2.held_pubcomp, client);
        self.bump_qos2_epoch(client);
    }

    /// See [`HubView::retires`].
    fn retires(&self, client: &ClientId) -> (r: bool)
        ensures
            r == self.deep_view().retires(client.deep_view()),
    {
        match self.sessions.inflight.get(client) {
            Some(inf) => inf.retires(),
            None => false,
        }
    }

    /// See [`HubView::retire_plan`].
    pub fn plan_qos2_retire(&self, client: &ClientId) -> (r: Qos2RetirePlan)
        ensures
            r.deep_view() == self.deep_view().retire_plan(client.deep_view()),
    {
        let epoch = self.qos2_epoch(client);
        let inf = match self.sessions.inflight.get(client) {
            Some(inf) => inf,
            None => {
                let r = Qos2RetirePlan {
                    client: client.clone(),
                    epoch,
                    up_to: None,
                    candidates: Vec::new(),
                    orphans: Vec::new(),
                };
                assert(r.candidates.deep_view() =~= Seq::empty());
                assert(r.orphans.deep_view() =~= Seq::empty());
                return r;
            },
        };
        let safe: u64 = inf.safe_ack();
        let candidates = inf.retirable(safe);
        let ghost cs = candidates.deep_view();
        let mut placed = false;
        let mut i: usize = 0;
        while i < candidates.len()
            invariant
                i <= candidates@.len(),
                cs == candidates.deep_view(),
                placed == exists|j: int| 0 <= j < i && (#[trigger] cs[j]).1 is Some,
            decreases candidates@.len() - i,
        {
            assert(cs[i as int] == candidates@[i as int]);
            if candidates[i].1.is_some() {
                placed = true;
            }
            i += 1;
        }
        Qos2RetirePlan {
            client: client.clone(),
            epoch,
            up_to: if placed && safe > 0 {
                Some(safe)
            } else {
                None
            },
            candidates,
            orphans: inf.orphans_due(),
        }
    }

    /// See [`HubView::retiring`].
    pub fn submit_qos2_retire(&mut self, client: &ClientId)
        ensures
            final(self).deep_view() == old(self).deep_view().retiring(client.deep_view()),
    {
        if self.qos2.retire_inflight.contains(client) {
            return;
        }
        let plan = self.plan_qos2_retire(client);
        if plan.is_empty() {
            if !self.retires(client) {
                let _gone = self.qos2.cleanup.remove(client);
            }
            return;
        }
        if self.submit_qos2_op(client, Qos2LaneOp::Retire(plan)) {
            self.qos2.retire_inflight.insert(client.clone());
        }
    }

    /// Hands a step to the lane of `client`, and says whether the lane took it.
    pub fn submit_qos2_op(&mut self, client: &ClientId, op: Qos2LaneOp) -> (r: bool)
        ensures
            (final(self).deep_view(), r) == old(self).deep_view().controlling(
                client.deep_view(),
                (LaneJobView::Qos2Op { client: client.deep_view(), op: op.deep_view() }),
            ),
    {
        self.submit_control_job(client, LaneJob::Qos2Op { client: client.clone(), op })
    }

    /// Takes the message that holds `pkid` off the wire if its acknowledgement is what was
    /// waited for, and says whether it was.
    fn complete_pending(&mut self, client: &ClientId, pkid: u16) -> (r: bool)
        ensures
            match old(self).deep_view().held_by(client.deep_view(), pkid) {
                Some(p) => if p.state == OutState::AwaitingPubAck {
                    r && final(self).deep_view() == old(self).deep_view().with_inf(
                        client.deep_view(),
                        old(self).deep_view().inf(client.deep_view()).acked(pkid, p),
                    )
                } else {
                    !r && final(self).deep_view() == old(self).deep_view()
                },
                None => !r && final(self).deep_view() == old(self).deep_view(),
            },
    {
        let ghost h = self.deep_view();
        match self.sessions.inflight.get_mut(client) {
            None => false,
            Some(inf) => {
                let awaited = match inf.pending.get(&pkid) {
                    Some(p) => p.state == OutState::AwaitingPubAck,
                    None => false,
                };
                if !awaited {
                    proof {
                        crate::ledger::lemma_put_same(h.sessions.inflight, client.deep_view());
                    }
                    return false;
                }
                let offset = match inf.pending.remove(&pkid) {
                    Some(p) => p.offset,
                    None => None,
                };
                inf.release_at(offset);
                true
            },
        }
    }

    /// See [`HubView::puback`].
    pub fn dispatch_pub_ack(&mut self, client: &ClientId, pkid: u16)
        ensures
            final(self).deep_view() == old(self).deep_view().puback(client.deep_view(), pkid),
    {
        if self.complete_pending(client, pkid) {
            self.truncate_acked(client);
            if self.qos2.cleanup.contains(client) {
                self.submit_qos2_retire(client);
            }
            self.drain_backlog(client);
        }
    }

    /// See [`HubView::releasing`].
    pub fn send_pubrel_after_advance(&mut self, client: &ClientId, pkid: u16)
        ensures
            final(self).deep_view() == old(self).deep_view().releasing(client.deep_view(), pkid),
    {
        let awaited = match self.sessions.inflight.get(client) {
            Some(inf) => match inf.pending.get(&pkid) {
                Some(p) => p.state == OutState::AwaitingPubRec,
                None => false,
            },
            None => false,
        };
        if awaited {
            self.set_out_state(client, pkid, OutState::AwaitingPubComp);
            self.send_packet(client, Packet::PubRel(pkid), 0);
        }
    }

    /// See [`HubView::pubrec`].
    pub fn dispatch_pub_rec(&mut self, client: &ClientId, pkid: u16)
        ensures
            final(self).deep_view() == old(self).deep_view().pubrec(client.deep_view(), pkid),
    {
        let durable = match self.sessions.inflight.get(client) {
            Some(inf) => match inf.pending.get(&pkid) {
                Some(p) => p.state == OutState::AwaitingPubRec && p.offset.is_some(),
                None => false,
            },
            None => false,
        };
        if !durable {
            self.send_pubrel_after_advance(client, pkid);
            return;
        }
        let key = (client.clone(), pkid);
        if self.qos2.advance_inflight.contains(&key) {
            return;
        }
        let epoch = self.qos2_epoch(client);
        if self.submit_qos2_op(client, Qos2LaneOp::Advance { pkid, epoch }) {
            self.qos2.advance_inflight.insert(key);
        }
    }

    /// See [`HubView::marking`].
    pub fn mark_qos2_completed(&mut self, client: &ClientId, pkid: u16)
        ensures
            final(self).deep_view() == old(self).deep_view().marking(client.deep_view(), pkid),
    {
        let ghost h = self.deep_view();
        match self.sessions.inflight.get_mut(client) {
            Some(inf) => {
                let mut offset: Option<u64> = None;
                let mut found = false;
                match inf.pending.get_mut(&pkid) {
                    Some(p) => {
                        p.state = OutState::CompletedQos2;
                        offset = p.offset;
                        found = true;
                    },
                    None => {},
                }
                if found {
                    inf.release_at(offset);
                } else {
                    proof {
                        crate::ledger::lemma_put_same(h.sessions.inflight, client.deep_view());
                    }
                }
            },
            None => {},
        }
        self.qos2.cleanup.insert(client.clone());
    }

    /// See [`HubView::pubcomp`].
    pub fn dispatch_pub_comp(&mut self, client: &ClientId, pkid: u16)
        ensures
            final(self).deep_view() == old(self).deep_view().pubcomp(client.deep_view(), pkid),
    {
        let state = match self.sessions.inflight.get(client) {
            Some(inf) => match inf.pending.get(&pkid) {
                Some(p) => Some(p.state),
                None => None,
            },
            None => None,
        };
        match state {
            Some(OutState::AwaitingPubComp) | Some(OutState::CompletedQos2) => {
                self.mark_qos2_completed(client, pkid);
                self.submit_qos2_retire(client);
            },
            Some(OutState::AwaitingPubRec) => {
                let key = (client.clone(), pkid);
                if self.qos2.advance_inflight.contains(&key) {
                    self.qos2.held_pubcomp.insert(key);
                }
            },
            Some(_) => {},
            None => {
                let ghost h = self.deep_view();
                let mut orphaned = false;
                match self.sessions.inflight.get_mut(client) {
                    Some(inf) => {
                        if inf.orphaned_qos2.contains_key(&pkid) {
                            inf.orphaned_qos2_cleanup.insert(pkid);
                            orphaned = true;
                        } else {
                            proof {
                                crate::ledger::lemma_put_same(
                                    h.sessions.inflight,
                                    client.deep_view(),
                                );
                            }
                        }
                    },
                    None => {},
                }
                if orphaned {
                    self.qos2.cleanup.insert(client.clone());
                    self.submit_qos2_retire(client);
                }
            },
        }
    }

    /// See [`HubView::retiring_each`].
    pub fn submit_pending_qos2_cleanup(&mut self)
        ensures
            final(self).deep_view() == old(self).deep_view().retiring_each(
                old(self).deep_view().qos2.cleanup,
            ),
    {
        let ghost base = self.deep_view();
        let clients = crate::assoc::copy_keys(&self.qos2.cleanup.items);
        let ghost cs = clients.deep_view();
        let mut i: usize = 0;
        assert(cs.take(0) =~= Seq::empty());
        while i < clients.len()
            invariant
                i <= clients@.len(),
                cs == clients.deep_view(),
                self.deep_view() == base.retiring_each(cs.take(i as int)),
            decreases clients@.len() - i,
        {
            proof {
                assert(cs.take(i as int + 1).drop_last() =~= cs.take(i as int));
                assert(cs.take(i as int + 1).last() == cs[i as int]);
            }
            self.submit_qos2_retire(&clients[i]);
            self.drain_backlog(&clients[i]);
            i += 1;
        }
        assert(cs.take(i as int) =~= cs);
    }

    /// See [`HubView::orphaning`].
    pub fn queue_unreleased_qos2_orphan(&mut self, client: &ClientId, pkid: u16, offset: u64)
        ensures
            final(self).deep_view() == old(self).deep_view().orphaning(
                client.deep_view(),
                pkid,
                offset,
            ),
    {
        let inf = self.sessions.inflight.entry_or(client, Inflight::new());
        inf.orphaned_qos2.insert(pkid, offset);
        inf.orphaned_qos2_cleanup.insert(pkid);
        self.qos2.cleanup.insert(client.clone());
    }

    /// See [`HubView::advanced`].
    pub fn qos2_advance_done(&mut self, client: &ClientId, pkid: u16, epoch: u64, ok: bool)
        ensures
            final(self).deep_view() == old(self).deep_view().advanced(
                client.deep_view(),
                pkid,
                epoch,
                ok,
            ),
    {
        let key = (client.clone(), pkid);
        let _under_way = self.qos2.advance_inflight.remove(&key);
        let waits = self.qos2.held_pubcomp.remove(&key);
        if epoch != self.qos2_epoch(client) || !ok {
            return;
        }
        self.send_pubrel_after_advance(client, pkid);
        if waits {
            self.dispatch_pub_comp(client, pkid);
        }
    }

    /// See [`HubView::applying_retire`].
    pub fn apply_qos2_retire(&mut self, result: &Qos2RetireResult)
        ensures
            final(self).deep_view() == old(self).deep_view().applying_retire(result.deep_view()),
    {
        let client = &result.client;
        let _under_way = self.qos2.retire_inflight.remove(client);
        if result.epoch != self.qos2_epoch(client) {
            return;
        }
        match self.sessions.inflight.get_mut(client) {
            Some(inf) => {
                inf.retire(result);
            },
            None => {},
        }
        if self.retires(client) {
            self.qos2.cleanup.insert(client.clone());
            self.submit_qos2_retire(client);
        } else {
            let _gone = self.qos2.cleanup.remove(client);
        }
        self.drain_backlog(client);
    }

    /// Goes on where a step of the lane of `client` left off.
    pub fn qos2_op_done(&mut self, client: &ClientId, outcome: &Qos2OpOutcome)
        ensures
            final(self).deep_view() == match *outcome {
                Qos2OpOutcome::Advance { pkid, epoch, ok } => old(self).deep_view().job_finished(
                    client.deep_view(),
                ).advanced(client.deep_view(), pkid, epoch, ok),
                Qos2OpOutcome::Retire(r) => old(self).deep_view().job_finished(
                    client.deep_view(),
                ).applying_retire(r.deep_view()),
            },
    {
        self.lane_finished(client);
        match outcome {
            Qos2OpOutcome::Advance { pkid, epoch, ok } => {
                self.qos2_advance_done(client, *pkid, *epoch, *ok);
            },
            Qos2OpOutcome::Retire(result) => {
                self.apply_qos2_retire(result);
            },
        }
    }
}

/// The answer to a step of an earlier session changes nothing but that no step is under way.
pub proof fn law_epochs_are_fenced(
    h: HubView,
    client: Seq<char>,
    pkid: u16,
    epoch: u64,
    ok: bool,
    r: RetireResultView,
)
    requires
        epoch != h.epoch(client),
        r.epoch != h.epoch(r.client),
    ensures
        h.advanced(client, pkid, epoch, ok) == (HubView {
            qos2: h.advanced(client, pkid, epoch, ok).qos2,
            ..h
        }),
        h.applying_retire(r) == (HubView { qos2: h.applying_retire(r).qos2, ..h }),
        h.forgetting(client).epoch(client) != h.epoch(client),
{
    crate::assoc::lemma_lookup_put(
        h.qos2.epoch,
        client,
        next_number(h.epoch(client)),
        client,
    );
}

/// Only the outcome of a recorded receipt lets a message of the durable queue be released: a
/// confirmation alone leaves it as it is.
pub proof fn law_release_after_record(h: HubView, client: Seq<char>, pkid: u16)
    requires
        h.held_by(client, pkid) matches Some(p) && p.state == OutState::AwaitingPubRec
            && p.offset is Some,
    ensures
        h.pubrec(client, pkid).held_by(client, pkid) == h.held_by(client, pkid),
        h.pubrec(client, pkid).sessions.online == h.sessions.online,
        h.advanced(client, pkid, h.epoch(client), false).held_by(client, pkid) == h.held_by(
            client,
            pkid,
        ),
{
}

} // verus!
