//! Ordinary subscriptions: who subscribes to what.

use vstd::prelude::*;

use crate::assoc::{adjoin, push_item, without, Key, Roster, Table};
use crate::ids::ClientId;
use crate::qos::{level, qos_num, QoS};
use crate::topic::{matches_topic, topic_matches};

verus! {

/// The subscriptions, as `(filter, client)` pairs in order of arrival.
pub type Pairs = Seq<(Seq<char>, Seq<char>)>;

/// The clients with a subscription that admits `topic`, each once, in order of their first
/// such subscription.
pub open spec fn matching(s: Pairs, topic: Seq<char>) -> Seq<Seq<char>>
    decreases s.len(),
{
    if s.len() == 0 {
        Seq::empty()
    } else if matches_topic(s.last().0, topic) {
        adjoin(matching(s.drop_last(), topic), s.last().1)
    } else {
        matching(s.drop_last(), topic)
    }
}

/// The filters that somebody subscribes to, each once, in order of arrival.
pub open spec fn filters_of(s: Pairs) -> Seq<Seq<char>>
    decreases s.len(),
{
    if s.len() == 0 {
        Seq::empty()
    } else {
        adjoin(filters_of(s.drop_last()), s.last().0)
    }
}

/// Tells the subscriptions of everybody but `client`.
pub open spec fn not_of(client: Seq<char>) -> spec_fn((Seq<char>, Seq<char>)) -> bool {
    |e: (Seq<char>, Seq<char>)| e.1 != client
}

/// The subscriptions without those of `client`.
pub open spec fn without_client(s: Pairs, client: Seq<char>) -> Pairs {
    s.filter(not_of(client))
}

/// A client is found for a topic exactly when one of its subscriptions admits the topic, and
/// it is found once.
pub proof fn law_matching(s: Pairs, topic: Seq<char>, client: Seq<char>)
    ensures
        matching(s, topic).no_duplicates(),
        matching(s, topic).contains(client) <==> exists|i: int|
            0 <= i < s.len() && (#[trigger] s[i]).1 == client && matches_topic(s[i].0, topic),
    decreases s.len(),
{
    if s.len() > 0 {
        let t = s.drop_last();
        let m = matching(t, topic);
        law_matching(t, topic, client);
        law_matching(t, topic, s.last().1);
        let full = matching(s, topic);
        if full.contains(client) {
            if m.contains(client) {
                let i = choose|i: int|
                    0 <= i < t.len() && (#[trigger] t[i]).1 == client && matches_topic(
                        t[i].0,
                        topic,
                    );
                assert(s[i] == t[i]);
            } else {
                let j = choose|j: int| 0 <= j < full.len() && full[j] == client;
                assert(j == m.len());
                assert(s[s.len() - 1].1 == client && matches_topic(s[s.len() - 1].0, topic));
            }
        }
        if exists|i: int|
            0 <= i < s.len() && (#[trigger] s[i]).1 == client && matches_topic(s[i].0, topic) {
            let i = choose|i: int|
                0 <= i < s.len() && (#[trigger] s[i]).1 == client && matches_topic(s[i].0, topic);
            if i < t.len() {
                assert(t[i] == s[i]);
                assert(m.contains(client));
                let j = choose|j: int| 0 <= j < m.len() && m[j] == client;
                assert(full[j] == client);
            } else if !m.contains(client) {
                assert(full[full.len() - 1] == client);
            }
        }
    }
}

/// A table of ordinary subscriptions.
#[derive(Debug)]
pub struct SubscriptionTable {
    pub pairs: Vec<(String, ClientId)>,
}

impl DeepView for SubscriptionTable {
    type V = Pairs;

    open spec fn deep_view(&self) -> Pairs {
        self.pairs.deep_view()
    }
}

impl SubscriptionTable {
    /// The table without subscriptions.
    pub fn new() -> (r: Self)
        ensures
            r.deep_view() == Seq::<(Seq<char>, Seq<char>)>::empty(),
    {
        let r = SubscriptionTable { pairs: Vec::new() };
        assert(r.deep_view() =~= Seq::<(Seq<char>, Seq<char>)>::empty());
        r
    }

    fn as_roster(pairs: Vec<(String, ClientId)>) -> (r: Roster<(String, ClientId)>)
        ensures
            r.deep_view() == pairs.deep_view(),
    {
        Roster { items: pairs }
    }

    /// Subscribes `client` to `filter`.
    pub fn subscribe(&mut self, client: ClientId, filter: String)
        ensures
            final(self).deep_view() == adjoin(
                old(self).deep_view(),
                (filter@, client.deep_view()),
            ),
    {
        let mut pairs: Vec<(String, ClientId)> = Vec::new();
        std::mem::swap(&mut pairs, &mut self.pairs);
        let mut roster = Self::as_roster(pairs);
        roster.insert((filter, client));
        self.pairs = roster.items;
    }

    /// Ends the subscription of `client` to `filter`.
    pub fn unsubscribe(&mut self, client: &ClientId, filter: &String)
        ensures
            final(self).deep_view() == without(
                old(self).deep_view(),
                (filter@, client.deep_view()),
            ),
    {
        let mut pairs: Vec<(String, ClientId)> = Vec::new();
        std::mem::swap(&mut pairs, &mut self.pairs);
        let mut roster = Self::as_roster(pairs);
        let pair = (filter.clone(), client.clone());
        let _held = roster.remove(&pair);
        self.pairs = roster.items;
    }

    /// Ends every subscription of `client`.
    pub fn remove_client(&mut self, client: &ClientId)
        ensures
            final(self).deep_view() == without_client(old(self).deep_view(), client.deep_view()),
    {
        let ghost s = self.deep_view();
        let ghost q = client.deep_view();
        let ghost keep = not_of(q);
        let mut old_pairs: Vec<(String, ClientId)> = Vec::new();
        std::mem::swap(&mut old_pairs, &mut self.pairs);
        let mut kept: Vec<(String, ClientId)> = Vec::new();
        let mut i: usize = 0;
        assert(kept.deep_view() =~= s.take(0).filter(keep)) by {
            reveal(Seq::filter);
        }
        while i < old_pairs.len()
            invariant
                i <= old_pairs@.len(),
                s == old_pairs.deep_view(),
                q == client.deep_view(),
                keep == not_of(q),
                kept.deep_view() == s.take(i as int).filter(keep),
            decreases old_pairs@.len() - i,
        {
            proof {
                reveal(Seq::filter);
                assert(s.take(i as int + 1).drop_last() =~= s.take(i as int));
                assert(s.take(i as int + 1).last() == s[i as int]);
            }
            if !old_pairs[i].1.same(client) {
                push_item(&mut kept, (old_pairs[i].0.clone(), old_pairs[i].1.clone()));
            }
            i += 1;
        }
        assert(s.take(i as int) =~= s);
        self.pairs = kept;
    }

    /// Appends to `out` every client that [`matching`] finds and that is not in it.
    pub fn matching_into(&self, topic: &str, out: &mut Vec<ClientId>)
        requires
            old(out)@.len() == 0,
        ensures
            final(out).deep_view() == matching(self.deep_view(), topic@),
    {
        let ghost s = self.deep_view();
        let mut i: usize = 0;
        assert(out.deep_view() =~= matching(s.take(0), topic@));
        while i < self.pairs.len()
            invariant
                i <= self.pairs@.len(),
                s == self.deep_view(),
                out.deep_view() == matching(s.take(i as int), topic@),
            decreases self.pairs@.len() - i,
        {
            proof {
                assert(s.take(i as int + 1).drop_last() =~= s.take(i as int));
                assert(s.take(i as int + 1).last() == s[i as int]);
            }
            if topic_matches(self.pairs[i].0.as_str(), topic) {
                if !crate::assoc::contains_key(out, &self.pairs[i].1) {
                    push_item(out, self.pairs[i].1.clone());
                }
            }
            i += 1;
        }
        assert(s.take(i as int) =~= s);
    }

    /// See [`matching`].
    pub fn matching_clients(&self, topic: &str) -> (r: Vec<ClientId>)
        ensures
            r.deep_view() == matching(self.deep_view(), topic@),
    {
        let mut r: Vec<ClientId> = Vec::new();
        self.matching_into(topic, &mut r);
        r
    }

    /// See [`filters_of`].
    pub fn filters(&self) -> (r: Vec<String>)
        ensures
            r.deep_view() == filters_of(self.deep_view()),
    {
        let ghost s = self.deep_view();
        let mut r: Vec<String> = Vec::new();
        let mut i: usize = 0;
        assert(r.deep_view() =~= filters_of(s.take(0)));
        while i < self.pairs.len()
            invariant
                i <= self.pairs@.len(),
                s == self.deep_view(),
                r.deep_view() == filters_of(s.take(i as int)),
            decreases self.pairs@.len() - i,
        {
            proof {
                assert(s.take(i as int + 1).drop_last() =~= s.take(i as int));
                assert(s.take(i as int + 1).last() == s[i as int]);
            }
            if !crate::assoc::contains_key(&r, &self.pairs[i].0) {
                push_item(&mut r, self.pairs[i].0.clone());
            }
            i += 1;
        }
        assert(s.take(i as int) =~= s);
        r
    }
}

/// One subscription of a session, as it is kept in the store.
#[derive(Debug)]
pub struct Subscription {
    pub filter: String,
    pub max_qos: QoS,
}

impl DeepView for Subscription {
    type V = (Seq<char>, QoS);

    open spec fn deep_view(&self) -> (Seq<char>, QoS) {
        (self.filter@, self.max_qos)
    }
}

/// The filters of one client and the guarantee that each was granted.
pub type Grants = Seq<(Seq<char>, QoS)>;

/// The strongest guarantee among the grants that admit `topic`.
pub open spec fn strongest(grants: Grants, topic: Seq<char>) -> QoS
    decreases grants.len(),
{
    if grants.len() == 0 {
        QoS::AtMostOnce
    } else {
        let rest = strongest(grants.drop_last(), topic);
        if matches_topic(grants.last().0, topic) && level(grants.last().1) >= level(rest) {
            grants.last().1
        } else {
            rest
        }
    }
}

/// See [`strongest`].
pub fn strongest_grant(grants: &Table<String, QoS>, topic: &str) -> (r: QoS)
    ensures
        r == strongest(grants.deep_view(), topic@),
{
    let ghost s = grants.deep_view();
    let mut r = QoS::AtMostOnce;
    let mut i: usize = 0;
    while i < grants.len()
        invariant
            i <= s.len(),
            s == grants.deep_view(),
            r == strongest(s.take(i as int), topic@),
        decreases s.len() - i,
    {
        proof {
            assert(s.take(i as int + 1).drop_last() =~= s.take(i as int));
            assert(s.take(i as int + 1).last() == s[i as int]);
        }
        let q = *grants.value_at(i);
        if topic_matches(grants.key_at(i).as_str(), topic) && qos_num(q) >= qos_num(r) {
            r = q;
        }
        i += 1;
    }
    assert(s.take(i as int) =~= s);
    r
}

/// No matching grant is stronger than the strongest, and the strongest is a matching grant
/// unless there is none.
pub proof fn law_strongest(grants: Grants, topic: Seq<char>)
    ensures
        forall|i: int|
            0 <= i < grants.len() && matches_topic((#[trigger] grants[i]).0, topic) ==> level(
                grants[i].1,
            ) <= level(strongest(grants, topic)),
        strongest(grants, topic) != QoS::AtMostOnce ==> exists|i: int|
            0 <= i < grants.len() && matches_topic((#[trigger] grants[i]).0, topic) && grants[i].1
                == strongest(grants, topic),
    decreases grants.len(),
{
    if grants.len() > 0 {
        let t = grants.drop_last();
        law_strongest(t, topic);
        let all = strongest(grants, topic);
        assert forall|i: int|
            0 <= i < grants.len() && matches_topic(
                (#[trigger] grants[i]).0,
                topic,
            ) implies level(grants[i].1) <= level(all) by {
            if i < t.len() {
                assert(t[i] == grants[i]);
            }
        }
        if all != QoS::AtMostOnce {
            if all == strongest(t, topic) {
                let i = choose|i: int|
                    0 <= i < t.len() && matches_topic((#[trigger] t[i]).0, topic) && t[i].1 == all;
                assert(grants[i] == t[i]);
            } else {
                assert(grants[grants.len() - 1].1 == all);
            }
        }
    }
}

/// Whether some of `filters` admits `topic`.
pub open spec fn any_matches(filters: Seq<Seq<char>>, topic: Seq<char>) -> bool {
    exists|i: int| 0 <= i < filters.len() && matches_topic(#[trigger] filters[i], topic)
}

/// See [`any_matches`].
pub fn some_filter_matches(filters: &Vec<String>, topic: &str) -> (r: bool)
    ensures
        r == any_matches(filters.deep_view(), topic@),
{
    let mut i: usize = 0;
    while i < filters.len()
        invariant
            i <= filters@.len(),
            forall|j: int|
                0 <= j < i ==> !matches_topic(#[trigger] filters.deep_view()[j], topic@),
        decreases filters@.len() - i,
    {
        if topic_matches(filters[i].as_str(), topic) {
            assert(matches_topic(filters.deep_view()[i as int], topic@));
            return true;
        }
        i += 1;
    }
    false
}

} // verus!
