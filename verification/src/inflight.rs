//! The messages of one client that are on the wire, or wait to be.

use std::collections::VecDeque;

use vstd::prelude::*;

use crate::assoc::{adjoin, bound, push_item, put_ranked, without, Roster, Table};
use crate::message::{message_size, Message, MessageView};

verus! {

/// How many messages wait for a client at most.
pub const MAX_BACKLOG: usize = 10_000;

/// How many packet ids are reserved at a time.
pub const PKID_BLOCK: u16 = 1024;

/// How many packets a connection may have unwritten before messages of the weakest guarantee
/// are shed.
pub const MAX_OUTBOUND_QUEUE: usize = 10_000;

/// Bounds on what one client may hold up.
#[derive(Debug, Clone, Copy, PartialEq, Eq, Structural)]
pub struct SubscriberLimits {
    /// Room for packets that are not written.
    pub max_outbound_bytes: Option<usize>,
    /// Room for messages that wait.
    pub max_backlog_bytes: Option<usize>,
    /// Jobs of its lane that are not started, beyond which a publish is not acknowledged ahead of
    /// its durable writes.
    pub soft_lane_depth: Option<usize>,
}

/// How far the exchange about a message has come.
#[derive(Debug, Clone, Copy, PartialEq, Eq, Structural)]
pub enum OutState {
    /// Sent; to be acknowledged.
    AwaitingPubAck,
    /// Sent; its receipt is to be confirmed.
    AwaitingPubRec,
    /// Released; its completion is to be confirmed.
    AwaitingPubComp,
    /// Not sent: its packet id is being recorded.
    AwaitingIdRecord,
    /// Completed; its packet id is to be retired.
    CompletedQos2,
}

impl DeepView for OutState {
    type V = OutState;

    open spec fn deep_view(&self) -> OutState {
        *self
    }
}

/// A message that holds a packet id.
#[derive(Debug)]
pub struct PendingOut {
    pub message: Message,
    pub state: OutState,
    /// Where the message stands in the session's durable queue.
    pub offset: Option<u64>,
}

/// Model of [`PendingOut`].
#[verifier::ext_equal]
pub struct PendingOutView {
    pub message: MessageView,
    pub state: OutState,
    pub offset: Option<u64>,
}

impl DeepView for PendingOut {
    type V = PendingOutView;

    open spec fn deep_view(&self) -> PendingOutView {
        PendingOutView {
            message: self.message.deep_view(),
            state: self.state,
            offset: self.offset,
        }
    }
}

/// A message that waits for its turn.
#[derive(Debug)]
pub struct BacklogEntry {
    pub message: Message,
    pub retain: bool,
    pub message_expiry: Option<u32>,
    pub offset: Option<u64>,
}

/// Model of [`BacklogEntry`].
#[verifier::ext_equal]
pub struct BacklogView {
    pub message: MessageView,
    pub retain: bool,
    pub message_expiry: Option<u32>,
    pub offset: Option<u64>,
}

impl DeepView for BacklogEntry {
    type V = BacklogView;

    open spec fn deep_view(&self) -> BacklogView {
        BacklogView {
            message: self.message.deep_view(),
            retain: self.retain,
            message_expiry: self.message_expiry,
            offset: self.offset,
        }
    }
}

impl BacklogEntry {
    /// An entry for a copy of `message`.
    pub fn new(message: &Message, retain: bool, message_expiry: Option<u32>, offset: Option<u64>) -> (r:
        Self)
        ensures
            r.deep_view() == (BacklogView {
                message: message.deep_view(),
                retain,
                message_expiry,
                offset,
            }),
    {
        BacklogEntry { message: message.clone(), retain, message_expiry, offset }
    }
}

/// The exchange with one client.
#[derive(Debug)]
pub struct Inflight {
    /// The packet id that was used last.
    pub next_pkid: u16,
    /// How many reserved packet ids are left.
    pub block_remaining: u16,
    /// Where the next block starts, once it is reserved; 0 goes on from the last.
    pub banked_base: Option<u16>,
    /// Whether a reservation is under way.
    pub reserve_outstanding: bool,
    /// The messages that hold a packet id, by packet id.
    pub pending: Table<u16, PendingOut>,
    /// How many may hold one at a time.
    pub receive_maximum: u16,
    /// The messages that wait, oldest first.
    pub backlog: VecDeque<BacklogEntry>,
    /// How many packet ids are being recorded.
    pub records_pending: usize,
    /// The last offset that the replay of the present connection covered.
    pub high_water: u64,
    /// How far the durable queue was truncated.
    pub acked_through: u64,
    /// Offsets whose messages the client has not acknowledged.
    pub outstanding: Roster<u64>,
    /// The highest offset that was ever handed to the client.
    pub tracked_through: u64,
    /// Packet ids that an earlier session left behind, and where their messages stand.
    pub orphaned_qos2: Table<u16, u64>,
    /// Those of them that are to be retired.
    pub orphaned_qos2_cleanup: Roster<u16>,
}

/// Model of [`Inflight`].
#[verifier::ext_equal]
pub struct InflightView {
    pub next_pkid: u16,
    pub block_remaining: u16,
    pub banked_base: Option<u16>,
    pub reserve_outstanding: bool,
    pub pending: Seq<(u16, PendingOutView)>,
    pub receive_maximum: u16,
    pub backlog: Seq<BacklogView>,
    pub records_pending: usize,
    pub high_water: u64,
    pub acked_through: u64,
    pub outstanding: Seq<u64>,
    pub tracked_through: u64,
    pub orphaned_qos2: Seq<(u16, u64)>,
    pub orphaned_qos2_cleanup: Seq<u16>,
}

impl DeepView for Inflight {
    type V = InflightView;

    open spec fn deep_view(&self) -> InflightView {
        InflightView {
            next_pkid: self.next_pkid,
            block_remaining: self.block_remaining,
            banked_base: self.banked_base,
            reserve_outstanding: self.reserve_outstanding,
            pending: self.pending.deep_view(),
            receive_maximum: self.receive_maximum,
            backlog: self.backlog.deep_view(),
            records_pending: self.records_pending,
            high_water: self.high_water,
            acked_through: self.acked_through,
            outstanding: self.outstanding.deep_view(),
            tracked_through: self.tracked_through,
            orphaned_qos2: self.orphaned_qos2.deep_view(),
            orphaned_qos2_cleanup: self.orphaned_qos2_cleanup.deep_view(),
        }
    }
}

/// The room that waiting messages take.
pub open spec fn backlog_size(b: Seq<BacklogView>) -> nat
    decreases b.len(),
{
    if b.len() == 0 {
        0
    } else {
        backlog_size(b.drop_last()) + message_size(b.last().message)
    }
}

/// Whether `e` may join the waiting messages `b`.
pub open spec fn has_place(b: Seq<BacklogView>, e: BacklogView, limits: SubscriberLimits) -> bool {
    &&& b.len() < MAX_BACKLOG
    &&& limits.max_backlog_bytes matches Some(cap) ==> backlog_size(b) + message_size(e.message)
        <= cap
}

/// What is left of the waiting messages when the oldest make place for `e`.
pub open spec fn make_place(
    b: Seq<BacklogView>,
    e: BacklogView,
    limits: SubscriberLimits,
) -> Seq<BacklogView>
    decreases b.len(),
{
    if b.len() == 0 || has_place(b, e, limits) {
        b
    } else {
        make_place(b.skip(1), e, limits)
    }
}

/// The smallest of `s`.
pub open spec fn least(s: Seq<u64>) -> u64
    decreases s.len(),
{
    if s.len() == 0 {
        u64::MAX
    } else if s.last() < least(s.drop_last()) {
        s.last()
    } else {
        least(s.drop_last())
    }
}

/// The packet id after `n`; 0 is none.
pub open spec fn next_id(n: u16) -> u16 {
    if n == u16::MAX {
        1
    } else {
        (n + 1) as u16
    }
}

impl InflightView {
    /// The exchange with a client that was never sent anything.
    pub open spec fn fresh() -> InflightView {
        InflightView {
            next_pkid: 0,
            block_remaining: 0,
            banked_base: None,
            reserve_outstanding: false,
            pending: Seq::empty(),
            receive_maximum: u16::MAX,
            backlog: Seq::empty(),
            records_pending: 0,
            high_water: 0,
            acked_through: 0,
            outstanding: Seq::empty(),
            tracked_through: 0,
            orphaned_qos2: Seq::empty(),
            orphaned_qos2_cleanup: Seq::empty(),
        }
    }

    /// Whether the client holds as many packet ids as it may.
    pub open spec fn is_full(self) -> bool {
        self.pending.len() >= self.receive_maximum
    }

    /// Whether a message has to wait.
    pub open spec fn must_wait(self) -> bool {
        self.is_full() || self.backlog.len() > 0 || self.records_pending > 0
    }

    /// With `e` waiting last; the oldest made place.
    pub open spec fn waiting(self, e: BacklogView, limits: SubscriberLimits) -> InflightView {
        InflightView { backlog: make_place(self.backlog, e, limits).push(e), ..self }
    }

    /// The messages that made place for `e`.
    pub open spec fn evicted(self, e: BacklogView, limits: SubscriberLimits) -> Seq<BacklogView> {
        self.backlog.take(self.backlog.len() - make_place(self.backlog, e, limits).len())
    }

    /// With `e` waiting first.
    pub open spec fn waiting_first(self, e: BacklogView) -> InflightView {
        InflightView { backlog: seq![e] + self.backlog, ..self }
    }

    /// With the message at `offset` owed an acknowledgement.
    pub open spec fn tracking(self, offset: u64) -> InflightView {
        InflightView {
            outstanding: adjoin(self.outstanding, offset),
            tracked_through: if self.tracked_through < offset {
                offset
            } else {
                self.tracked_through
            },
            ..self
        }
    }

    /// With the message at `offset` acknowledged.
    pub open spec fn released(self, offset: u64) -> InflightView {
        InflightView { outstanding: without(self.outstanding, offset), ..self }
    }

    /// With every message of `gone` that has an offset acknowledged.
    pub open spec fn released_all(self, gone: Seq<BacklogView>) -> InflightView
        decreases gone.len(),
    {
        if gone.len() == 0 {
            self
        } else {
            let rest = self.released_all(gone.drop_last());
            match gone.last().offset {
                Some(o) => rest.released(o),
                None => rest,
            }
        }
    }

    /// How far the durable queue holds nothing that is owed.
    pub open spec fn safe_through(self) -> u64 {
        if self.outstanding.len() == 0 {
            self.tracked_through
        } else if least(self.outstanding) == 0 {
            0
        } else {
            (least(self.outstanding) - 1) as u64
        }
    }

    /// The exchange after a packet id was looked for, and the packet id: the next reserved one
    /// that no message holds. None when the reserved ones are used up.
    pub open spec fn allocated(self) -> (InflightView, Option<u16>)
        decreases
            (if self.banked_base is Some {
                (PKID_BLOCK + 1) as int
            } else {
                0
            }) + self.block_remaining,
    {
        if self.block_remaining == 0 && self.banked_base is None {
            (self, None)
        } else {
            let refilled = if self.block_remaining == 0 {
                InflightView {
                    next_pkid: if self.banked_base == Some(0u16) {
                        self.next_pkid
                    } else {
                        self.banked_base->Some_0
                    },
                    block_remaining: PKID_BLOCK,
                    banked_base: None,
                    ..self
                }
            } else {
                self
            };
            let id = next_id(refilled.next_pkid);
            let used = InflightView {
                next_pkid: id,
                block_remaining: (refilled.block_remaining - 1) as u16,
                ..refilled
            };
            if bound(used.pending, id) {
                used.allocated()
            } else {
                (used, Some(id))
            }
        }
    }

    /// With packet id `pkid` held by a message.
    pub open spec fn holding(self, pkid: u16, p: PendingOutView) -> InflightView {
        InflightView { pending: put_ranked::<u16, PendingOutView>(self.pending, pkid, p), ..self }
    }
}

/// Looking for a packet id touches nothing but the packet ids; one that is found is held by no
/// message.
pub proof fn lemma_allocated_keeps_line(inf: InflightView)
    ensures
        ({
            let (r, id) = inf.allocated();
            &&& r.pending == inf.pending
            &&& r.backlog == inf.backlog
            &&& r.records_pending == inf.records_pending
            &&& r.receive_maximum == inf.receive_maximum
            &&& r.outstanding == inf.outstanding
            &&& r.high_water == inf.high_water
            &&& r.reserve_outstanding == inf.reserve_outstanding
            &&& id matches Some(n) ==> !bound(inf.pending, n)
        }),
    decreases
            (if inf.banked_base is Some {
                (PKID_BLOCK + 1) as int
            } else {
                0
            }) + inf.block_remaining,
{
    if !(inf.block_remaining == 0 && inf.banked_base is None) {
        let refilled = if inf.block_remaining == 0 {
            InflightView {
                next_pkid: if inf.banked_base == Some(0u16) {
                    inf.next_pkid
                } else {
                    inf.banked_base->Some_0
                },
                block_remaining: PKID_BLOCK,
                banked_base: None,
                ..inf
            }
        } else {
            inf
        };
        let id = next_id(refilled.next_pkid);
        let used = InflightView {
            next_pkid: id,
            block_remaining: (refilled.block_remaining - 1) as u16,
            ..refilled
        };
        if bound(used.pending, id) {
            lemma_allocated_keeps_line(used);
        }
    }
}

proof fn lemma_make_place(b: Seq<BacklogView>, e: BacklogView, limits: SubscriberLimits)
    ensures
        make_place(b, e, limits).len() <= b.len(),
        make_place(b, e, limits) == b.skip(b.len() - make_place(b, e, limits).len()),
        make_place(b, e, limits).len() == 0 || has_place(make_place(b, e, limits), e, limits),
    decreases b.len(),
{
    if b.len() > 0 && !has_place(b, e, limits) {
        let t = b.skip(1);
        lemma_make_place(t, e, limits);
        let m = make_place(b, e, limits);
        assert(t.skip(t.len() - m.len()) =~= b.skip(b.len() - m.len()));
    } else {
        assert(b.skip(0) =~= b);
    }
}

impl Inflight {
    /// See [`InflightView::fresh`].
    pub fn new() -> (r: Self)
        ensures
            r.deep_view() == InflightView::fresh(),
    {
        let r = Inflight {
            next_pkid: 0,
            block_remaining: 0,
            banked_base: None,
            reserve_outstanding: false,
            pending: Table::new(),
            receive_maximum: u16::MAX,
            backlog: VecDeque::new(),
            records_pending: 0,
            high_water: 0,
            acked_through: 0,
            outstanding: Roster::new(),
            tracked_through: 0,
            orphaned_qos2: Table::new(),
            orphaned_qos2_cleanup: Roster::new(),
        };
        assert(r.backlog.deep_view() =~= Seq::empty());
        r
    }

    /// See [`InflightView::is_full`].
    pub fn quota_full(&self) -> (r: bool)
        ensures
            r == self.deep_view().is_full(),
    {
        self.pending.len() >= self.receive_maximum as usize
    }

    /// Whether the waiting messages and one more take at most `cap`.
    fn fits(&self, e: &BacklogEntry, cap: usize) -> (r: bool)
        ensures
            r == (backlog_size(self.deep_view().backlog) + message_size(e.deep_view().message)
                <= cap),
    {
        let ghost b = self.deep_view().backlog;
        let mut left: usize = cap;
        let mut i: usize = 0;
        assert(backlog_size(b.take(0)) == 0);
        while i < self.backlog.len()
            invariant
                i <= self.backlog@.len(),
                b == self.deep_view().backlog,
                left == cap - backlog_size(b.take(i as int)),
            decreases self.backlog@.len() - i,
        {
            proof {
                assert(b.take(i as int + 1).drop_last() =~= b.take(i as int));
                assert(b.take(i as int + 1).last() == b[i as int]);
                lemma_backlog_size_grows(b, i as int + 1);
            }
            let m = &self.backlog[i].message;
            let t: usize = m.topic.as_str().as_bytes().len();
            let p: usize = m.payload.len();
            if t > left || p > left - t {
                return false;
            }
            left = left - t - p;
            i += 1;
        }
        assert(b.take(i as int) =~= b);
        let t: usize = e.message.topic.as_str().as_bytes().len();
        let p: usize = e.message.payload.len();
        t <= left && p <= left - t
    }

    /// Lets `entry` wait last. The oldest make place where the waiting messages are at a
    /// bound, and are returned.
    pub fn push_backlog(&mut self, entry: BacklogEntry, limits: &SubscriberLimits) -> (r: Vec<
        BacklogEntry,
    >)
        ensures
            final(self).deep_view() == old(self).deep_view().waiting(entry.deep_view(), *limits),
            r.deep_view() == old(self).deep_view().evicted(entry.deep_view(), *limits),
    {
        let ghost b = self.deep_view().backlog;
        let ghost e = entry.deep_view();
        let mut gone: Vec<BacklogEntry> = Vec::new();
        assert(gone.deep_view() =~= b.take(0));
        assert(b.skip(0) =~= b);
        loop
            invariant
                e == entry.deep_view(),
                gone@.len() <= b.len(),
                gone.deep_view() == b.take(gone@.len() as int),
                self.deep_view() == (InflightView {
                    backlog: b.skip(gone@.len() as int),
                    ..old(self).deep_view()
                }),
                make_place(b.skip(gone@.len() as int), e, *limits) == make_place(b, e, *limits),
            ensures
                gone@.len() <= b.len(),
                gone.deep_view() == b.take(gone@.len() as int),
                self.deep_view() == (InflightView {
                    backlog: b.skip(gone@.len() as int),
                    ..old(self).deep_view()
                }),
                make_place(b, e, *limits) == b.skip(gone@.len() as int),
            decreases b.len() - gone@.len(),
        {
            let ghost k = gone@.len() as int;
            if self.backlog.len() == 0 {
                break;
            }
            let full = match limits.max_backlog_bytes {
                Some(cap) => self.backlog.len() >= MAX_BACKLOG || !self.fits(&entry, cap),
                None => self.backlog.len() >= MAX_BACKLOG,
            };
            if !full {
                break;
            }
            if let Some(oldest) = self.pop_backlog() {
                assert(b.skip(k).skip(1) =~= b.skip(k + 1));
                push_item(&mut gone, oldest);
                assert(gone.deep_view() =~= b.take(k + 1));
            }
        }
        self.backlog.push_back(entry);
        assert(self.backlog.deep_view() =~= make_place(b, e, *limits).push(e));
        gone
    }

    /// Lets `entry` wait first; it was taken in before, so no bound applies.
    pub fn push_front_admitted(&mut self, entry: BacklogEntry)
        ensures
            final(self).deep_view() == old(self).deep_view().waiting_first(entry.deep_view()),
    {
        self.backlog.push_front(entry);
        assert(self.backlog.deep_view() =~= seq![entry.deep_view()]
            + old(self).backlog.deep_view());
    }

    /// Takes the message that has waited longest.
    pub fn pop_backlog(&mut self) -> (r: Option<BacklogEntry>)
        ensures
            match r {
                Some(e) => {
                    &&& old(self).deep_view().backlog.len() > 0
                    &&& e.deep_view() == old(self).deep_view().backlog[0]
                    &&& final(self).deep_view() == (InflightView {
                        backlog: old(self).deep_view().backlog.skip(1),
                        ..old(self).deep_view()
                    })
                },
                None => {
                    &&& old(self).deep_view().backlog.len() == 0
                    &&& final(self).deep_view() == old(self).deep_view()
                },
            },
    {
        let ghost b = self.backlog.deep_view();
        let r = self.backlog.pop_front();
        proof {
            if b.len() > 0 {
                assert(self.backlog.deep_view() =~= b.skip(1));
            } else {
                assert(self.backlog.deep_view() =~= b);
            }
        }
        r
    }

    /// See [`InflightView::tracking`].
    pub fn track(&mut self, offset: u64)
        ensures
            final(self).deep_view() == old(self).deep_view().tracking(offset),
    {
        self.outstanding.insert(offset);
        if self.tracked_through < offset {
            self.tracked_through = offset;
        }
    }

    /// See [`InflightView::released`].
    pub fn release(&mut self, offset: u64)
        ensures
            final(self).deep_view() == old(self).deep_view().released(offset),
    {
        let _held = self.outstanding.remove(&offset);
    }

    /// See [`InflightView::released_all`].
    pub fn release_all(&mut self, gone: &Vec<BacklogEntry>)
        ensures
            final(self).deep_view() == old(self).deep_view().released_all(gone.deep_view()),
    {
        let ghost g = gone.deep_view();
        let mut i: usize = 0;
        assert(g.take(0) =~= Seq::empty());
        while i < gone.len()
            invariant
                i <= gone@.len(),
                g == gone.deep_view(),
                self.deep_view() == old(self).deep_view().released_all(g.take(i as int)),
            decreases gone@.len() - i,
        {
            proof {
                assert(g.take(i as int + 1).drop_last() =~= g.take(i as int));
                assert(g.take(i as int + 1).last() == g[i as int]);
            }
            if let Some(o) = gone[i].offset {
                self.release(o);
            }
            i += 1;
        }
        assert(g.take(i as int) =~= g);
    }

    /// See [`InflightView::safe_through`].
    pub fn safe_ack(&self) -> (r: u64)
        ensures
            r == self.deep_view().safe_through(),
    {
        if self.outstanding.is_empty() {
            return self.tracked_through;
        }
        let ghost s = self.outstanding.deep_view();
        let mut low: u64 = u64::MAX;
        let mut i: usize = 0;
        assert(s.take(0) =~= Seq::empty());
        while i < self.outstanding.len()
            invariant
                i <= s.len(),
                s == self.outstanding.deep_view(),
                low == least(s.take(i as int)),
            decreases s.len() - i,
        {
            proof {
                assert(s.take(i as int + 1).drop_last() =~= s.take(i as int));
                assert(s.take(i as int + 1).last() == s[i as int]);
            }
            let o: u64 = *self.outstanding.at(i);
            if o < low {
                low = o;
            }
            i += 1;
        }
        assert(s.take(i as int) =~= s);
        low.saturating_sub(1)
    }

    /// See [`InflightView::allocated`].
    pub fn alloc_pkid(&mut self) -> (r: Option<u16>)
        ensures
            (final(self).deep_view(), r) == old(self).deep_view().allocated(),
    {
        let ghost goal = self.deep_view().allocated();
        loop
            invariant
                self.deep_view().allocated() == goal,
                goal == old(self).deep_view().allocated(),
            decreases
                (if self.banked_base is Some {
                    (PKID_BLOCK + 1) as int
                } else {
                    0
                }) + self.block_remaining,
        {
            if self.block_remaining == 0 {
                match self.banked_base.take() {
                    None => {
                        return None;
                    },
                    Some(base) => {
                        if base != 0 {
                            self.next_pkid = base;
                        }
                    },
                }
                self.block_remaining = PKID_BLOCK;
            }
            self.next_pkid = if self.next_pkid == u16::MAX {
                1
            } else {
                self.next_pkid + 1
            };
            self.block_remaining = self.block_remaining - 1;
            let id: u16 = self.next_pkid;
            if !self.pending.contains_key(&id) {
                return Some(id);
            }
        }
    }
}

proof fn lemma_backlog_size_grows(b: Seq<BacklogView>, i: int)
    requires
        0 <= i <= b.len(),
    ensures
        backlog_size(b.take(i)) <= backlog_size(b),
    decreases b.len() - i,
{
    if i < b.len() {
        assert(b.take(i + 1).drop_last() =~= b.take(i));
        lemma_backlog_size_grows(b, i + 1);
    } else {
        assert(b.take(i) =~= b);
    }
}

/// A packet id that is handed out is a valid one that no message holds.
pub proof fn law_fresh_packet_id(inf: InflightView)
    ensures
        inf.allocated().1 matches Some(id) ==> id != 0 && !bound(inf.pending, id),
        inf.allocated().0.pending == inf.pending,
        inf.allocated().0.backlog == inf.backlog,
    decreases
        (if inf.banked_base is Some {
            (PKID_BLOCK + 1) as int
        } else {
            0
        }) + inf.block_remaining,
{
    if !(inf.block_remaining == 0 && inf.banked_base is None) {
        let refilled = if inf.block_remaining == 0 {
            InflightView {
                next_pkid: if inf.banked_base == Some(0u16) {
                    inf.next_pkid
                } else {
                    inf.banked_base->Some_0
                },
                block_remaining: PKID_BLOCK,
                banked_base: None,
                ..inf
            }
        } else {
            inf
        };
        let id = next_id(refilled.next_pkid);
        let used = InflightView {
            next_pkid: id,
            block_remaining: (refilled.block_remaining - 1) as u16,
            ..refilled
        };
        if bound(used.pending, id) {
            law_fresh_packet_id(used);
        }
    }
}

/// The waiting messages stay within their bounds: by number always, and by room unless a
/// single message is over it.
pub proof fn law_backlog_bound(inf: InflightView, e: BacklogView, limits: SubscriberLimits)
    requires
        inf.backlog.len() <= MAX_BACKLOG,
    ensures
        inf.waiting(e, limits).backlog.len() <= MAX_BACKLOG,
        inf.waiting(e, limits).backlog.last() == e,
        inf.evicted(e, limits) + inf.waiting(e, limits).backlog == inf.backlog.push(e),
        limits.max_backlog_bytes matches Some(cap) ==> inf.waiting(e, limits).backlog.len() > 1
            ==> backlog_size(inf.waiting(e, limits).backlog) <= cap,
{
    lemma_make_place(inf.backlog, e, limits);
    let m = make_place(inf.backlog, e, limits);
    assert(inf.evicted(e, limits) + m.push(e) =~= inf.backlog.push(e));
    assert(m.push(e).drop_last() =~= m);
}

pub proof fn lemma_least(s: Seq<u64>, o: u64)
    requires
        s.contains(o),
    ensures
        least(s) <= o,
    decreases s.len(),
{
    let i = choose|i: int| 0 <= i < s.len() && s[i] == o;
    if i < s.len() - 1 {
        assert(s.drop_last()[i] == o);
        lemma_least(s.drop_last(), o);
    }
}

/// The durable queue is never truncated past a message that the client has not acknowledged.
/// Offsets start at 1.
pub proof fn law_truncation_stops_at_owed(inf: InflightView, o: u64)
    requires
        inf.outstanding.contains(o),
        o > 0,
    ensures
        inf.safe_through() < o,
{
    lemma_least(inf.outstanding, o);
}

} // verus!
