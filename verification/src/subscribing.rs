//! Subscribing and unsubscribing.
//!
//! What a persistent session subscribes to is a promise about messages to come, so it is
//! granted only once the store has it: [`Hub::plan_subscribe`] says what to store, and
//! [`Hub::subscribe`] goes on with whether it was stored.

use vstd::prelude::*;

use crate::assoc::{adjoin, bound, cut, lookup, lookup_or, put, push_item, without, Roster, Table};

use crate::effects::{Effect, EffectView};
use crate::hub::{Hub, HubView, Routing, RoutingView};
use crate::ids::ClientId;
use crate::inflight::BacklogView;
use crate::message::{Message, MessageView};
use crate::qos::{min_qos, weaker, QoS};
use crate::retained::retained_for;
use crate::shared::{join, leave, leave_all};
use crate::subscriptions::{without_client, Grants, Subscription};
use crate::topic::{parse_shared, share_parts};

verus! {

/// One subscription that a client asks for.
#[derive(Debug)]
pub struct Wish {
    pub filter: String,
    pub qos: QoS,
    /// Not to get its own messages back.
    pub no_local: bool,
    /// To get messages with the retain flag they came with.
    pub retain_as_published: bool,
}

/// Model of [`Wish`].
#[verifier::ext_equal]
pub struct WishView {
    pub filter: Seq<char>,
    pub qos: QoS,
    pub no_local: bool,
    pub retain_as_published: bool,
}

impl DeepView for Wish {
    type V = WishView;

    open spec fn deep_view(&self) -> WishView {
        WishView {
            filter: self.filter@,
            qos: self.qos,
            no_local: self.no_local,
            retain_as_published: self.retain_as_published,
        }
    }
}

/// Whether `w`, asked for after `before`, is within the cap. A filter that the client held
/// already takes no room.
pub open spec fn admits(held: Grants, before: Seq<WishView>, w: WishView, cap: Option<usize>) -> bool {
    bound(held, w.filter) || match cap {
        Some(n) => held.len() + taken(held, before, cap) < n,
        None => true,
    }
}

/// How many of `wishes` are new and within the cap.
pub open spec fn taken(held: Grants, wishes: Seq<WishView>, cap: Option<usize>) -> nat
    decreases wishes.len(), 0nat,
{
    if wishes.len() == 0 {
        0
    } else {
        let before = wishes.drop_last();
        let w = wishes.last();
        let within = bound(held, w.filter) || match cap {
            Some(n) => held.len() + taken(held, before, cap) < n,
            None => true,
        };
        taken(held, before, cap) + (if within && !bound(held, w.filter) {
            1nat
        } else {
            0
        })
    }
}

/// Which of `wishes` are within the cap.
pub open spec fn verdicts(held: Grants, wishes: Seq<WishView>, cap: Option<usize>) -> Seq<bool>
    decreases wishes.len(),
{
    if wishes.len() == 0 {
        Seq::empty()
    } else {
        verdicts(held, wishes.drop_last(), cap).push(
            admits(held, wishes.drop_last(), wishes.last(), cap),
        )
    }
}

/// The filters of a client after it was granted what is within the cap.
pub open spec fn grants_after(held: Grants, wishes: Seq<WishView>, cap: Option<usize>) -> Grants
    decreases wishes.len(),
{
    if wishes.len() == 0 {
        held
    } else {
        let rest = grants_after(held, wishes.drop_last(), cap);
        if admits(held, wishes.drop_last(), wishes.last(), cap) {
            put(rest, wishes.last().filter, wishes.last().qos)
        } else {
            rest
        }
    }
}

/// `m` as it is replayed to a subscriber that was granted `qos`.
pub open spec fn as_retained(m: MessageView, qos: QoS) -> MessageView {
    MessageView { qos: weaker(m.qos, qos), retain: true, ..m }
}

/// The retained messages that are replayed: those of every granted filter, but for shared ones.
pub open spec fn replay(
    cache: Seq<(Seq<char>, MessageView)>,
    held: Grants,
    wishes: Seq<WishView>,
    cap: Option<usize>,
) -> Seq<MessageView>
    decreases wishes.len(),
{
    if wishes.len() == 0 {
        Seq::empty()
    } else {
        let rest = replay(cache, held, wishes.drop_last(), cap);
        let w = wishes.last();
        if admits(held, wishes.drop_last(), w, cap) && share_parts(w.filter) is None {
            let found = retained_for(cache, w.filter);
            rest + Seq::new(found.len(), |i: int| as_retained(found[i], w.qos))
        } else {
            rest
        }
    }
}

impl RoutingView {
    /// The filters of `client`.
    pub open spec fn grants(self, client: Seq<char>) -> Grants {
        lookup_or(self.subs_by_client, client, Seq::empty())
    }

    /// With `client` subscribed to `filter`.
    pub open spec fn entering(self, client: Seq<char>, filter: Seq<char>, qos: QoS) -> RoutingView {
        let r = RoutingView {
            subs_by_client: put(
                self.subs_by_client,
                client,
                put(self.grants(client), filter, qos),
            ),
            ..self
        };
        match share_parts(filter) {
            Some(key) => RoutingView { shared: join(self.shared, key, client, qos), ..r },
            None => RoutingView { table: adjoin(self.table, (filter, client)), ..r },
        }
    }

    /// With what `client` asked for along with `w.filter`.
    pub open spec fn with_options(self, client: Seq<char>, w: WishView) -> RoutingView {
        let quiet = lookup_or(self.no_local, client, Seq::empty());
        let kept = lookup_or(self.retain_as_published, client, Seq::empty());
        RoutingView {
            no_local: put(
                self.no_local,
                client,
                if w.no_local {
                    adjoin(quiet, w.filter)
                } else {
                    without(quiet, w.filter)
                },
            ),
            retain_as_published: put(
                self.retain_as_published,
                client,
                if w.retain_as_published {
                    adjoin(kept, w.filter)
                } else {
                    without(kept, w.filter)
                },
            ),
            ..self
        }
    }

    /// With `client` granted those of `wishes` that are within the cap.
    pub open spec fn granting(
        self,
        client: Seq<char>,
        held: Grants,
        wishes: Seq<WishView>,
        cap: Option<usize>,
    ) -> RoutingView
        decreases wishes.len(),
    {
        if wishes.len() == 0 {
            self
        } else {
            let rest = self.granting(client, held, wishes.drop_last(), cap);
            let w = wishes.last();
            if admits(held, wishes.drop_last(), w, cap) {
                rest.entering(client, w.filter, w.qos).with_options(client, w)
            } else {
                rest
            }
        }
    }

    /// With `client` no longer subscribed to `filter`.
    pub open spec fn leaving(self, client: Seq<char>, filter: Seq<char>) -> RoutingView {
        let r = RoutingView {
            subs_by_client: match lookup(self.subs_by_client, client) {
                Some(g) => put(self.subs_by_client, client, cut(g, filter)),
                None => self.subs_by_client,
            },
            no_local: match lookup(self.no_local, client) {
                Some(g) => put(self.no_local, client, without(g, filter)),
                None => self.no_local,
            },
            retain_as_published: match lookup(self.retain_as_published, client) {
                Some(g) => put(self.retain_as_published, client, without(g, filter)),
                None => self.retain_as_published,
            },
            ..self
        };
        match share_parts(filter) {
            Some(key) => RoutingView { shared: leave(self.shared, key, client), ..r },
            None => RoutingView { table: without(self.table, (filter, client)), ..r },
        }
    }

    /// With `client` subscribed to none of `filters`.
    pub open spec fn leaving_each(self, client: Seq<char>, filters: Seq<Seq<char>>) -> RoutingView
        decreases filters.len(),
    {
        if filters.len() == 0 {
            self
        } else {
            self.leaving_each(client, filters.drop_last()).leaving(client, filters.last())
        }
    }

    /// With `client` subscribed to nothing.
    pub open spec fn forgetting(self, client: Seq<char>) -> RoutingView {
        RoutingView {
            subs_by_client: cut(self.subs_by_client, client),
            no_local: cut(self.no_local, client),
            retain_as_published: cut(self.retain_as_published, client),
            table: without_client(self.table, client),
            shared: leave_all(self.shared, client),
            ..self
        }
    }

    /// With `client` subscribed to each of `subs`.
    pub open spec fn entering_each(self, client: Seq<char>, subs: Grants) -> RoutingView
        decreases subs.len(),
    {
        if subs.len() == 0 {
            self
        } else {
            self.entering_each(client, subs.drop_last()).entering(
                client,
                subs.last().0,
                subs.last().1,
            )
        }
    }
}

impl HubView {
    /// With other subscriptions.
    pub open spec fn with_routing(self, routing: RoutingView) -> HubView {
        HubView { routing, ..self }
    }

    /// With each of `messages` sent to `client` as a retained one.
    pub open spec fn replaying(self, client: Seq<char>, messages: Seq<MessageView>) -> HubView
        decreases messages.len(),
    {
        if messages.len() == 0 {
            self
        } else {
            self.replaying(client, messages.drop_last()).to_client(
                client,
                BacklogView {
                    message: messages.last(),
                    retain: true,
                    message_expiry: None,
                    offset: None,
                },
            )
        }
    }

    /// With the client that asked told what it was granted.
    pub open spec fn granted_to(self, token: Option<u64>, verdicts: Seq<bool>) -> HubView {
        match token {
            Some(token) => self.doing(EffectView::Subscribed { token, verdicts }),
            None => self,
        }
    }

    /// With `client` subscribed to those of `wishes` that are within the cap. Where the store
    /// was to have them and has not, nothing changes, and every wish is denied.
    pub open spec fn subscribing(
        self,
        client: Seq<char>,
        wishes: Seq<WishView>,
        token: Option<u64>,
        stored: bool,
    ) -> HubView {
        let held = self.routing.grants(client);
        let cap = self.quotas.max_subscriptions_per_client;
        if self.persistent(client) && !stored {
            self.granted_to(token, Seq::new(wishes.len(), |i: int| false))
        } else {
            let h = self.with_routing(
                self.routing.granting(client, held, wishes, cap),
            ).granted_to(token, verdicts(held, wishes, cap)).gossiping();
            if h.is_online(client) {
                h.replaying(client, replay(self.retained.cache, held, wishes, cap))
            } else {
                h
            }
        }
    }

    /// With the subscriptions of `client` stored, where its session is, or is about to be.
    pub open spec fn storing(self, client: Seq<char>, lasting: bool) -> HubView {
        if self.persistent(client) || lasting {
            self.doing(
                EffectView::SetSubscriptions {
                    client,
                    subscriptions: self.routing.grants(client),
                },
            )
        } else {
            self
        }
    }

    /// With `client` subscribed to none of `filters`, and what is left stored, where its session
    /// is, or is about to be.
    pub open spec fn pruning(
        self,
        client: Seq<char>,
        filters: Seq<Seq<char>>,
        lasting: bool,
    ) -> HubView {
        self.with_routing(self.routing.leaving_each(client, filters)).storing(
            client,
            lasting,
        ).gossiping()
    }

    /// With `client` subscribed to none of `filters`.
    pub open spec fn unsubscribing(self, client: Seq<char>, filters: Seq<Seq<char>>) -> HubView {
        self.pruning(client, filters, false)
    }
}

/// The list that stands for a table of filters.
pub fn list_grants(grants: &Table<String, QoS>) -> (r: Vec<Subscription>)
    ensures
        r.deep_view() == grants.deep_view(),
{
    let ghost g = grants.deep_view();
    let mut r: Vec<Subscription> = Vec::new();
    let mut i: usize = 0;
    assert(r.deep_view() =~= g.take(0));
    while i < grants.len()
        invariant
            i <= g.len(),
            g == grants.deep_view(),
            r.deep_view() == g.take(i as int),
        decreases g.len() - i,
    {
        push_item(
            &mut r,
            Subscription { filter: grants.key_at(i).clone(), max_qos: *grants.value_at(i) },
        );
        i += 1;
        assert(r.deep_view() =~= g.take(i as int));
    }
    assert(g.take(i as int) =~= g);
    r
}

/// See [`verdicts`].
pub fn judge(held: &Table<String, QoS>, wishes: &Vec<Wish>, cap: Option<usize>) -> (r: Vec<bool>)
    ensures
        r.deep_view() == verdicts(held.deep_view(), wishes.deep_view(), cap),
        r@.len() == wishes@.len(),
{
    let ghost h = held.deep_view();
    let ghost ws = wishes.deep_view();
    let mut r: Vec<bool> = Vec::new();
    let mut fresh: usize = 0;
    let mut i: usize = 0;
    assert(ws.take(0) =~= Seq::empty());
    assert(r.deep_view() =~= Seq::empty());
    while i < wishes.len()
        invariant
            i <= wishes@.len(),
            h == held.deep_view(),
            ws == wishes.deep_view(),
            fresh == taken(h, ws.take(i as int), cap),
            fresh <= i,
            r.deep_view().len() == i,
            r.deep_view() == verdicts(h, ws.take(i as int), cap),
        decreases wishes@.len() - i,
    {
        proof {
            assert(ws.take(i as int + 1).drop_last() =~= ws.take(i as int));
            assert(ws.take(i as int + 1).last() == ws[i as int]);
        }
        let replaces = held.contains_key(&wishes[i].filter);
        let within = replaces || match cap {
            Some(n) => fresh < n.saturating_sub(held.len()),
            None => true,
        };
        assert(within == admits(h, ws.take(i as int), ws[i as int], cap));
        if within && !replaces {
            fresh = fresh + 1;
        }
        push_item(&mut r, within);
        i += 1;
    }
    assert(ws.take(i as int) =~= ws);
    assert(r@.len() == r.deep_view().len());
    r
}

proof fn lemma_verdict_at(held: Grants, wishes: Seq<WishView>, cap: Option<usize>, i: int)
    requires
        0 <= i < wishes.len(),
    ensures
        verdicts(held, wishes, cap).len() == wishes.len(),
        verdicts(held, wishes, cap)[i] == admits(held, wishes.take(i), wishes[i], cap),
    decreases wishes.len(),
{
    let t = wishes.drop_last();
    if i < t.len() {
        lemma_verdict_at(held, t, cap, i);
        assert(t.take(i) =~= wishes.take(i));
    } else {
        assert(wishes.take(i) =~= t);
        if t.len() > 0 {
            lemma_verdict_at(held, t, cap, 0);
        } else {
            assert(verdicts(held, t, cap).len() == 0);
        }
    }
    assert(verdicts(held, wishes, cap).len() == verdicts(held, t, cap).len() + 1);
}

impl Routing {
    /// See [`RoutingView::entering`].
    pub fn enter(&mut self, client: &ClientId, filter: &String, qos: QoS)
        ensures
            final(self).deep_view() == old(self).deep_view().entering(
                client.deep_view(),
                filter@,
                qos,
            ),
    {
        let grants = self.subs_by_client.entry_or(client, Table::new());
        grants.insert(filter.clone(), qos);
        match parse_shared(filter.as_str()) {
            Some((group, inner)) => {
                self.shared.subscribe(client.clone(), group, inner, qos);
            },
            None => {
                self.table.subscribe(client.clone(), filter.clone());
            },
        }
    }

    /// See [`RoutingView::with_options`].
    fn set_options(&mut self, client: &ClientId, w: &Wish)
        ensures
            final(self).deep_view() == old(self).deep_view().with_options(
                client.deep_view(),
                w.deep_view(),
            ),
    {
        let quiet = self.no_local.entry_or(client, Roster::new());
        if w.no_local {
            quiet.insert(w.filter.clone());
        } else {
            let _held = quiet.remove(&w.filter);
        }
        let kept = self.retain_as_published.entry_or(client, Roster::new());
        if w.retain_as_published {
            kept.insert(w.filter.clone());
        } else {
            let _held = kept.remove(&w.filter);
        }
    }

    /// See [`RoutingView::leaving`].
    pub fn leave(&mut self, client: &ClientId, filter: &String)
        ensures
            final(self).deep_view() == old(self).deep_view().leaving(client.deep_view(), filter@),
    {
        match self.subs_by_client.get_mut(client) {
            Some(g) => {
                let _gone = g.remove(filter);
            },
            None => {},
        }
        match self.no_local.get_mut(client) {
            Some(g) => {
                let _gone = g.remove(filter);
            },
            None => {},
        }
        match self.retain_as_published.get_mut(client) {
            Some(g) => {
                let _gone = g.remove(filter);
            },
            None => {},
        }
        match parse_shared(filter.as_str()) {
            Some((group, inner)) => {
                self.shared.unsubscribe(client, group, inner);
            },
            None => {
                self.table.unsubscribe(client, filter);
            },
        }
    }

    /// See [`RoutingView::forgetting`].
    pub fn drop_subscriptions(&mut self, client: &ClientId)
        ensures
            final(self).deep_view() == old(self).deep_view().forgetting(client.deep_view()),
    {
        let _grants = self.subs_by_client.remove(client);
        let _quiet = self.no_local.remove(client);
        let _kept = self.retain_as_published.remove(client);
        self.table.remove_client(client);
        self.shared.remove_client(client);
    }

    /// See [`RoutingView::entering_each`].
    pub fn enter_each(&mut self, client: &ClientId, subs: &Vec<Subscription>)
        ensures
            final(self).deep_view() == old(self).deep_view().entering_each(
                client.deep_view(),
                subs.deep_view(),
            ),
    {
        let ghost base = self.deep_view();
        let ghost ss = subs.deep_view();
        let mut i: usize = 0;
        assert(ss.take(0) =~= Seq::empty());
        while i < subs.len()
            invariant
                i <= subs@.len(),
                ss == subs.deep_view(),
                self.deep_view() == base.entering_each(client.deep_view(), ss.take(i as int)),
            decreases subs@.len() - i,
        {
            proof {
                assert(ss.take(i as int + 1).drop_last() =~= ss.take(i as int));
                assert(ss.take(i as int + 1).last() == ss[i as int]);
            }
            self.enter(client, &subs[i].filter, subs[i].max_qos);
            i += 1;
        }
        assert(ss.take(i as int) =~= ss);
    }

    /// See [`RoutingView::leaving_each`].
    fn leave_each(&mut self, client: &ClientId, filters: &Vec<String>)
        ensures
            final(self).deep_view() == old(self).deep_view().leaving_each(
                client.deep_view(),
                filters.deep_view(),
            ),
    {
        let ghost base = self.deep_view();
        let ghost fs = filters.deep_view();
        let mut i: usize = 0;
        assert(fs.take(0) =~= Seq::empty());
        while i < filters.len()
            invariant
                i <= filters@.len(),
                fs == filters.deep_view(),
                self.deep_view() == base.leaving_each(client.deep_view(), fs.take(i as int)),
            decreases filters@.len() - i,
        {
            proof {
                assert(fs.take(i as int + 1).drop_last() =~= fs.take(i as int));
                assert(fs.take(i as int + 1).last() == fs[i as int]);
            }
            self.leave(client, &filters[i]);
            i += 1;
        }
        assert(fs.take(i as int) =~= fs);
    }

    /// See [`RoutingView::granting`].
    fn grant_each(
        &mut self,
        client: &ClientId,
        wishes: &Vec<Wish>,
        granted: &Vec<bool>,
        Ghost(held): Ghost<Grants>,
        Ghost(cap): Ghost<Option<usize>>,
    )
        requires
            granted@.len() == wishes@.len(),
            granted.deep_view() == verdicts(held, wishes.deep_view(), cap),
        ensures
            final(self).deep_view() == old(self).deep_view().granting(
                client.deep_view(),
                held,
                wishes.deep_view(),
                cap,
            ),
    {
        let ghost base = self.deep_view();
        let ghost ws = wishes.deep_view();
        let ghost c = client.deep_view();
        let mut i: usize = 0;
        assert(ws.take(0) =~= Seq::empty());
        while i < wishes.len()
            invariant
                i <= wishes@.len(),
                granted@.len() == wishes@.len(),
                granted.deep_view() == verdicts(held, ws, cap),
                ws == wishes.deep_view(),
                c == client.deep_view(),
                self.deep_view() == base.granting(c, held, ws.take(i as int), cap),
            decreases wishes@.len() - i,
        {
            proof {
                assert(ws.take(i as int + 1).drop_last() =~= ws.take(i as int));
                assert(ws.take(i as int + 1).last() == ws[i as int]);
                lemma_verdict_at(held, ws, cap, i as int);
                assert(granted.deep_view()[i as int] == granted@[i as int]);
            }
            if granted[i] {
                let w = &wishes[i];
                self.enter(client, &w.filter, w.qos);
                self.set_options(client, w);
            }
            i += 1;
        }
        assert(ws.take(i as int) =~= ws);
    }
}

impl Hub {
    /// Judges `wishes` against what `client` holds.
    fn judge_wishes(&self, client: &ClientId, wishes: &Vec<Wish>) -> (r: Vec<bool>)
        ensures
            r@.len() == wishes@.len(),
            r.deep_view() == verdicts(
                self.deep_view().routing.grants(client.deep_view()),
                wishes.deep_view(),
                self.quotas.max_subscriptions_per_client,
            ),
    {
        let cap = self.quotas.max_subscriptions_per_client;
        match self.routing.subs_by_client.get(client) {
            Some(held) => judge(held, wishes, cap),
            None => {
                let nothing: Table<String, QoS> = Table::new();
                judge(&nothing, wishes, cap)
            },
        }
    }

    /// What the store is to keep for `client` before it is granted `wishes`; none where its
    /// session is not stored.
    pub fn plan_subscribe(&self, client: &ClientId, wishes: &Vec<Wish>) -> (r: Option<
        Vec<Subscription>,
    >)
        ensures
            r.deep_view() == (if self.deep_view().persistent(client.deep_view()) {
                Some(
                    grants_after(
                        self.deep_view().routing.grants(client.deep_view()),
                        wishes.deep_view(),
                        self.quotas.max_subscriptions_per_client,
                    ),
                )
            } else {
                None
            }),
    {
        if !self.is_persistent(client) {
            return None;
        }
        let granted = self.judge_wishes(client, wishes);
        let ghost held = self.deep_view().routing.grants(client.deep_view());
        let ghost cap = self.quotas.max_subscriptions_per_client;
        let ghost ws = wishes.deep_view();
        let mut grants: Table<String, QoS> = match self.routing.subs_by_client.get(client) {
            Some(g) => copy_grants(g),
            None => Table::new(),
        };
        let mut i: usize = 0;
        assert(ws.take(0) =~= Seq::empty());
        while i < wishes.len()
            invariant
                i <= wishes@.len(),
                granted@.len() == wishes@.len(),
                granted.deep_view() == verdicts(held, ws, cap),
                ws == wishes.deep_view(),
                grants.deep_view() == grants_after(held, ws.take(i as int), cap),
            decreases wishes@.len() - i,
        {
            proof {
                assert(ws.take(i as int + 1).drop_last() =~= ws.take(i as int));
                assert(ws.take(i as int + 1).last() == ws[i as int]);
                lemma_verdict_at(held, ws, cap, i as int);
                assert(granted.deep_view()[i as int] == granted@[i as int]);
            }
            if granted[i] {
                grants.insert(wishes[i].filter.clone(), wishes[i].qos);
            }
            i += 1;
        }
        assert(ws.take(i as int) =~= ws);
        Some(list_grants(&grants))
    }

    /// See [`replay`].
    fn collect_replay(&self, wishes: &Vec<Wish>, granted: &Vec<bool>, Ghost(held): Ghost<Grants>) -> (r:
        Vec<Message>)
        requires
            granted@.len() == wishes@.len(),
            granted.deep_view() == verdicts(
                held,
                wishes.deep_view(),
                self.quotas.max_subscriptions_per_client,
            ),
        ensures
            r.deep_view() == replay(
                self.deep_view().retained.cache,
                held,
                wishes.deep_view(),
                self.quotas.max_subscriptions_per_client,
            ),
    {
        let ghost cap = self.quotas.max_subscriptions_per_client;
        let ghost cache = self.deep_view().retained.cache;
        let ghost ws = wishes.deep_view();
        let mut r: Vec<Message> = Vec::new();
        let mut i: usize = 0;
        assert(r.deep_view() =~= replay(cache, held, ws.take(0), cap));
        while i < wishes.len()
            invariant
                i <= wishes@.len(),
                granted@.len() == wishes@.len(),
                granted.deep_view() == verdicts(held, ws, cap),
                ws == wishes.deep_view(),
                cache == self.deep_view().retained.cache,
                r.deep_view() == replay(cache, held, ws.take(i as int), cap),
            decreases wishes@.len() - i,
        {
            proof {
                assert(ws.take(i as int + 1).drop_last() =~= ws.take(i as int));
                assert(ws.take(i as int + 1).last() == ws[i as int]);
                lemma_verdict_at(held, ws, cap, i as int);
                assert(granted.deep_view()[i as int] == granted@[i as int]);
            }
            let w = &wishes[i];
            if granted[i] && parse_shared(w.filter.as_str()).is_none() {
                let found = self.retained.matching(w.filter.as_str());
                append_retained(&mut r, found, w.qos);
            }
            i += 1;
        }
        assert(ws.take(i as int) =~= ws);
        r
    }

    /// See [`HubView::replaying`].
    fn send_retained(&mut self, client: &ClientId, messages: &Vec<Message>)
        ensures
            final(self).deep_view() == old(self).deep_view().replaying(
                client.deep_view(),
                messages.deep_view(),
            ),
    {
        let ghost base = self.deep_view();
        let ghost ms = messages.deep_view();
        let mut i: usize = 0;
        assert(ms.take(0) =~= Seq::empty());
        while i < messages.len()
            invariant
                i <= messages@.len(),
                ms == messages.deep_view(),
                self.deep_view() == base.replaying(client.deep_view(), ms.take(i as int)),
            decreases messages@.len() - i,
        {
            proof {
                assert(ms.take(i as int + 1).drop_last() =~= ms.take(i as int));
                assert(ms.take(i as int + 1).last() == ms[i as int]);
            }
            self.send_to_client(client, &messages[i], true, None, None);
            i += 1;
        }
        assert(ms.take(i as int) =~= ms);
    }

    /// Tells the client that asked what it was granted.
    fn answer_subscribe(&mut self, token: Option<u64>, verdicts: Vec<bool>)
        ensures
            final(self).deep_view() == old(self).deep_view().granted_to(
                token,
                verdicts.deep_view(),
            ),
    {
        assert(verdicts.deep_view() =~= verdicts@);
        if let Some(token) = token {
            self.emit(Effect::Subscribed { token, verdicts });
        }
    }

    /// Subscribes `client` to those of `wishes` that are within the cap; `stored` says whether
    /// the store has what [`Hub::plan_subscribe`] asked it to keep. See
    /// [`HubView::subscribing`].
    pub fn subscribe(
        &mut self,
        client: &ClientId,
        wishes: &Vec<Wish>,
        token: Option<u64>,
        stored: bool,
    )
        ensures
            final(self).deep_view() == old(self).deep_view().subscribing(
                client.deep_view(),
                wishes.deep_view(),
                token,
                stored,
            ),
    {
        if self.is_persistent(client) && !stored {
            let denied = all_denied(wishes.len());
            assert(denied.deep_view() =~= Seq::new(wishes.deep_view().len(), |i: int| false));
            self.answer_subscribe(token, denied);
            return;
        }
        let ghost held = self.deep_view().routing.grants(client.deep_view());
        let ghost cap = self.quotas.max_subscriptions_per_client;
        let granted = self.judge_wishes(client, wishes);
        let messages = self.collect_replay(wishes, &granted, Ghost(held));
        self.routing.grant_each(client, wishes, &granted, Ghost(held), Ghost(cap));
        self.answer_subscribe(token, granted);
        self.gossip_interest();
        if self.is_online(client) {
            self.send_retained(client, &messages);
        }
    }

    /// See [`HubView::storing`].
    fn store_subscriptions(&mut self, client: &ClientId, lasting: bool)
        ensures
            final(self).deep_view() == old(self).deep_view().storing(client.deep_view(), lasting),
    {
        if self.is_persistent(client) || lasting {
            let subscriptions = match self.routing.subs_by_client.get(client) {
                Some(g) => list_grants(g),
                None => {
                    let nothing: Table<String, QoS> = Table::new();
                    list_grants(&nothing)
                },
            };
            self.emit(Effect::SetSubscriptions { client: client.clone(), subscriptions });
        }
    }

    /// See [`HubView::unsubscribing`].
    pub fn unsubscribe(&mut self, client: &ClientId, filters: &Vec<String>)
        ensures
            final(self).deep_view() == old(self).deep_view().unsubscribing(
                client.deep_view(),
                filters.deep_view(),
            ),
    {
        self.prune(client, filters, false);
    }

    /// See [`HubView::pruning`].
    pub fn prune(&mut self, client: &ClientId, filters: &Vec<String>, lasting: bool)
        ensures
            final(self).deep_view() == old(self).deep_view().pruning(
                client.deep_view(),
                filters.deep_view(),
                lasting,
            ),
    {
        self.routing.leave_each(client, filters);
        self.store_subscriptions(client, lasting);
        self.gossip_interest();
    }
}

fn copy_grants(grants: &Table<String, QoS>) -> (r: Table<String, QoS>)
    ensures
        r.deep_view() == grants.deep_view(),
{
    let ghost g = grants.deep_view();
    let mut entries: Vec<(String, QoS)> = Vec::new();
    let mut i: usize = 0;
    assert(entries.deep_view() =~= g.take(0));
    while i < grants.len()
        invariant
            i <= g.len(),
            g == grants.deep_view(),
            entries.deep_view() == g.take(i as int),
        decreases g.len() - i,
    {
        push_item(&mut entries, (grants.key_at(i).clone(), *grants.value_at(i)));
        i += 1;
        assert(entries.deep_view() =~= g.take(i as int));
    }
    assert(g.take(i as int) =~= g);
    Table { entries }
}

fn all_denied(n: usize) -> (r: Vec<bool>)
    ensures
        r@ == Seq::new(n as nat, |i: int| false),
{
    let mut r: Vec<bool> = Vec::new();
    while r.len() < n
        invariant
            r@.len() <= n,
            forall|i: int| 0 <= i < r@.len() ==> !(#[trigger] r@[i]),
        decreases n - r@.len(),
    {
        r.push(false);
    }
    assert(r@ =~= Seq::new(n as nat, |i: int| false));
    r
}

fn append_retained(out: &mut Vec<Message>, found: Vec<Message>, qos: QoS)
    ensures
        final(out).deep_view() == old(out).deep_view() + Seq::new(
            found.deep_view().len(),
            |i: int| as_retained(found.deep_view()[i], qos),
        ),
{
    let ghost fs = found.deep_view();
    let ghost goal = Seq::new(fs.len(), |i: int| as_retained(fs[i], qos));
    let ghost mut i: int = 0;
    assert(out.deep_view() =~= old(out).deep_view() + goal.take(0));
    for m in it: found
        invariant
            it.seq() == found@,
            fs == found.deep_view(),
            goal == Seq::new(fs.len(), |i: int| as_retained(fs[i], qos)),
            i == it.index(),
            out.deep_view() == old(out).deep_view() + goal.take(i),
    {
        assert(fs[i] == m.deep_view());
        let mut m = m;
        m.qos = min_qos(m.qos, qos);
        m.retain = true;
        push_item(out, m);
        proof {
            i = i + 1;
        }
        assert(out.deep_view() =~= old(out).deep_view() + goal.take(i));
    }
    assert(goal.take(i) =~= goal);
}

proof fn lemma_granting_grants(
    r: RoutingView,
    client: Seq<char>,
    held: Grants,
    wishes: Seq<WishView>,
    cap: Option<usize>,
)
    requires
        held == r.grants(client),
    ensures
        r.granting(client, held, wishes, cap).grants(client) == grants_after(held, wishes, cap),
    decreases wishes.len(),
{
    if wishes.len() > 0 {
        let t = wishes.drop_last();
        let w = wishes.last();
        lemma_granting_grants(r, client, held, t, cap);
        let rest = r.granting(client, held, t, cap);
        crate::assoc::lemma_lookup_put(
            rest.subs_by_client,
            client,
            put(rest.grants(client), w.filter, w.qos),
            client,
        );
    }
}

/// What a subscribe grants is what the store was asked to keep; and where the store has not kept
/// it, nothing is granted and nothing changes.
pub proof fn law_granted_is_stored(
    h: HubView,
    client: Seq<char>,
    wishes: Seq<WishView>,
    cap: Option<usize>,
    token: Option<u64>,
)
    requires
        h.persistent(client),
    ensures
        h.routing.granting(client, h.routing.grants(client), wishes, cap).grants(client)
            == grants_after(h.routing.grants(client), wishes, cap),
        h.subscribing(client, wishes, token, false).routing == h.routing,
        h.subscribing(client, wishes, token, false).sessions == h.sessions,
{
    lemma_granting_grants(h.routing, client, h.routing.grants(client), wishes, cap);
}

proof fn lemma_put_len<K, V>(s: Seq<(K, V)>, k: K, v: V)
    ensures
        put(s, k, v).len() == s.len() + (if bound(s, k) {
            0nat
        } else {
            1
        }),
        bound(put(s, k, v), k),
        forall|q: K| bound(s, q) ==> #[trigger] bound(put(s, k, v), q),
{
    crate::assoc::lemma_position(s, k);
    crate::assoc::lemma_lookup_put(s, k, v, k);
    assert forall|q: K| bound(s, q) implies #[trigger] bound(put(s, k, v), q) by {
        crate::assoc::lemma_lookup_put(s, k, v, q);
    }
}

proof fn lemma_grants_len(held: Grants, wishes: Seq<WishView>, cap: Option<usize>)
    ensures
        grants_after(held, wishes, cap).len() <= held.len() + taken(held, wishes, cap),
        forall|q: Seq<char>| bound(held, q) ==> #[trigger] bound(grants_after(held, wishes, cap), q),
    decreases wishes.len(),
{
    if wishes.len() > 0 {
        let t = wishes.drop_last();
        lemma_grants_len(held, t, cap);
        lemma_put_len(grants_after(held, t, cap), wishes.last().filter, wishes.last().qos);
    }
}

/// A cap holds: a client that is within it stays within it, and one that is over it is granted
/// no further filter.
pub proof fn law_subscription_cap(held: Grants, wishes: Seq<WishView>, cap: usize)
    ensures
        grants_after(held, wishes, Some(cap)).len() <= if held.len() > cap {
            held.len()
        } else {
            cap as nat
        },
    decreases wishes.len(),
{
    lemma_grants_len(held, wishes, Some(cap));
    lemma_taken_bound(held, wishes, cap);
}

proof fn lemma_taken_bound(held: Grants, wishes: Seq<WishView>, cap: usize)
    ensures
        held.len() > cap ==> taken(held, wishes, Some(cap)) == 0,
        held.len() <= cap ==> held.len() + taken(held, wishes, Some(cap)) <= cap,
    decreases wishes.len(),
{
    if wishes.len() > 0 {
        lemma_taken_bound(held, wishes.drop_last(), cap);
    }
}

} // verus!
