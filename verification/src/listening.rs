//! What subscribing and unsubscribing come to: who hears what, in which form, and who does not.

use vstd::prelude::*;

use crate::assoc::{adjoin, bound, cut, lookup, lookup_or, put, without};
use crate::cluster::PeerView;
use crate::dispatch::HubCommand;
use crate::effects::EffectView;
use crate::guarantees::distinct;
use crate::hub::{HubView, RoutingView};
use crate::ids::ClientId;
use crate::message::MessageView;
use crate::peers::{gossip_frames, interest_frames};
use crate::qos::QoS;
use crate::reach::{follows, lemma_follows, lemma_follows_same, lemma_to_client_reach};
use crate::shared::{candidates_of, join, leave, leave_all, local_candidates, local_matches,
    members_of, remote_candidates, snapshot, with_node, with_remote, CandidateView, Groups,
    KeyView, Matches, Members, RemoteGroupView, SharedKey};
use crate::subscribing::{admits, replay, taken, verdicts, Wish, WishView};
use crate::subscriptions::Grants;
use crate::topic::share_parts;
use crate::wire::{FrameView, SharedGroupWireView};

verus! {

/// Whether `client` has an ordinary subscription to `filter`.
pub open spec fn listens(r: RoutingView, client: Seq<char>, filter: Seq<char>) -> bool {
    r.table.contains((filter, client))
}

/// Whether `client` is a member of the group `key`.
pub open spec fn belongs(g: Groups, client: Seq<char>, key: KeyView) -> bool {
    exists|i: int| 0 <= i < g.len() && (#[trigger] g[i]).0 == key && bound(g[i].1, client)
}

/// Whether `filter` is among those that `s` has for `client`.
pub open spec fn flagged(
    s: Seq<(Seq<char>, Seq<Seq<char>>)>,
    client: Seq<char>,
    filter: Seq<char>,
) -> bool {
    lookup(s, client) matches Some(f) && f.contains(filter)
}

/// Whether `a` and `b` have the same of `client` and `filter`: whether it subscribes, with which
/// guarantee, and what it wished along with that.
pub open spec fn same_wish(
    a: RoutingView,
    b: RoutingView,
    client: Seq<char>,
    filter: Seq<char>,
) -> bool {
    &&& listens(a, client, filter) == listens(b, client, filter)
    &&& lookup(a.grants(client), filter) == lookup(b.grants(client), filter)
    &&& flagged(a.no_local, client, filter) == flagged(b.no_local, client, filter)
    &&& flagged(a.retain_as_published, client, filter) == flagged(
        b.retain_as_published,
        client,
        filter,
    )
}

/// Whether one of `filters` is that of the group `key`.
pub open spec fn names_group(filters: Seq<Seq<char>>, key: KeyView) -> bool {
    exists|i: int| 0 <= i < filters.len() && share_parts(#[trigger] filters[i]) == Some(key)
}

// Sequences.

pub proof fn lemma_adjoin_contains<T>(s: Seq<T>, x: T, y: T)
    ensures
        adjoin(s, x).contains(y) <==> s.contains(y) || y == x,
{
    if !s.contains(x) {
        let t = s.push(x);
        assert(t[s.len() as int] == x);
        if s.contains(y) {
            let i = choose|i: int| 0 <= i < s.len() && s[i] == y;
            assert(t[i] == y);
        }
    }
}

pub proof fn lemma_without_contains<T>(s: Seq<T>, x: T, y: T)
    ensures
        without(s, x).contains(y) <==> s.contains(y) && y != x,
{
    let keep = crate::assoc::not_item::<T>(x);
    let t = without(s, x);
    if t.contains(y) {
        let i = choose|i: int| 0 <= i < t.len() && t[i] == y;
        crate::ledger::lemma_filter_keeps(s, keep, i);
    }
    if s.contains(y) && y != x {
        let i = choose|i: int| 0 <= i < s.len() && s[i] == y;
        s.lemma_filter_contains(keep, i);
    }
}

proof fn lemma_drop_last_contains<T>(s: Seq<T>, x: T)
    requires
        s.len() > 0,
    ensures
        s.contains(x) <==> s.drop_last().contains(x) || s.last() == x,
{
    let t = s.drop_last();
    if s.contains(x) {
        let i = choose|i: int| 0 <= i < s.len() && s[i] == x;
        if i < t.len() {
            assert(t[i] == x);
        }
    }
    if t.contains(x) {
        let i = choose|i: int| 0 <= i < t.len() && t[i] == x;
        assert(s[i] == x);
    }
    assert(s[s.len() - 1] == s.last());
}

proof fn lemma_drop_last_group(filters: Seq<Seq<char>>, key: KeyView)
    requires
        filters.len() > 0,
    ensures
        names_group(filters, key) <==> names_group(filters.drop_last(), key) || share_parts(
            filters.last(),
        ) == Some(key),
{
    let t = filters.drop_last();
    if names_group(filters, key) {
        let i = choose|i: int|
            0 <= i < filters.len() && share_parts(#[trigger] filters[i]) == Some(key);
        if i < t.len() {
            assert(share_parts(t[i]) == Some(key));
        }
    }
    if names_group(t, key) {
        let i = choose|i: int| 0 <= i < t.len() && share_parts(#[trigger] t[i]) == Some(key);
        assert(share_parts(filters[i]) == Some(key));
    }
    assert(filters[filters.len() - 1] == filters.last());
}

/// Binding a key binds no key twice.
pub proof fn lemma_distinct_put<K, V>(s: Seq<(K, V)>, k: K, v: V)
    requires
        distinct(s),
    ensures
        distinct(put(s, k, v)),
{
    crate::assoc::lemma_position(s, k);
    let t = put(s, k, v);
    assert forall|i: int, j: int| 0 <= i < j < t.len() implies (#[trigger] t[i]).0 != (
    #[trigger] t[j]).0 by {
        if bound(s, k) {
            assert(t[i].0 == s[i].0 && t[j].0 == s[j].0);
        } else {
            assert(t[i] == s[i]);
            if j < s.len() {
                assert(t[j] == s[j]);
            }
        }
    }
}

/// Nor does dropping some.
pub proof fn lemma_distinct_filter<K, V>(s: Seq<(K, V)>, keep: spec_fn((K, V)) -> bool)
    requires
        distinct(s),
    ensures
        distinct(s.filter(keep)),
    decreases s.len(),
{
    reveal(Seq::filter);
    if s.len() > 0 {
        let t = s.drop_last();
        assert(distinct(t)) by {
            assert forall|i: int, j: int| 0 <= i < j < t.len() implies (#[trigger] t[i]).0 != (
            #[trigger] t[j]).0 by {
                assert(t[i] == s[i] && t[j] == s[j]);
            }
        }
        lemma_distinct_filter(t, keep);
        let f = t.filter(keep);
        let g = s.filter(keep);
        assert forall|i: int, j: int| 0 <= i < j < g.len() implies (#[trigger] g[i]).0 != (
        #[trigger] g[j]).0 by {
            if j < f.len() {
                assert(g[i] == f[i] && g[j] == f[j]);
            } else {
                assert(g[i] == f[i]);
                crate::ledger::lemma_filter_keeps(t, keep, i);
                let a = choose|a: int| 0 <= a < t.len() && t[a] == f[i];
                assert(s[a] == t[a]);
                assert(s[s.len() - 1] == g[j]);
            }
        }
    }
}

// Groups.

pub proof fn lemma_belongs(g: Groups, client: Seq<char>, key: KeyView)
    requires
        distinct(g),
    ensures
        belongs(g, client, key) <==> bound(members_of(g, key), client),
{
    crate::assoc::lemma_position(g, key);
    let n = crate::assoc::position(g, key);
    if belongs(g, client, key) {
        let i = choose|i: int|
            0 <= i < g.len() && (#[trigger] g[i]).0 == key && bound(g[i].1, client);
        if n != i {
            assert(g[n].0 == key);
        }
        assert(n == i);
    }
    if bound(g, key) {
        assert(g[n].0 == key);
    } else {
        assert(members_of(g, key).len() == 0);
        crate::assoc::lemma_position(members_of(g, key), client);
    }
}

proof fn lemma_join(
    g: Groups,
    key: KeyView,
    client: Seq<char>,
    qos: QoS,
    other: Seq<char>,
    k: KeyView,
)
    requires
        distinct(g),
    ensures
        distinct(join(g, key, client, qos)),
        belongs(join(g, key, client, qos), other, k) <==> belongs(g, other, k) || (other == client
            && k == key),
        lookup(members_of(join(g, key, client, qos), key), client) == Some(qos),
{
    broadcast use crate::assoc::lemma_lookup_put;

    let r = join(g, key, client, qos);
    lemma_distinct_put(g, key, put(members_of(g, key), client, qos));
    lemma_belongs(g, other, k);
    lemma_belongs(r, other, k);
    assert(members_of(r, k) == if k == key {
        put(members_of(g, key), client, qos)
    } else {
        members_of(g, k)
    });
    assert(bound(put(members_of(g, key), client, qos), other) == lookup(
        put(members_of(g, key), client, qos),
        other,
    ) is Some);
    assert(bound(members_of(g, key), other) == lookup(members_of(g, key), other) is Some);
}

proof fn lemma_leave(g: Groups, key: KeyView, client: Seq<char>, other: Seq<char>, k: KeyView)
    requires
        distinct(g),
    ensures
        distinct(leave(g, key, client)),
        belongs(leave(g, key, client), other, k) <==> belongs(g, other, k) && !(other == client
            && k == key),
{
    broadcast use crate::assoc::lemma_lookup_put;
    broadcast use crate::assoc::lemma_lookup_cut;

    let r = leave(g, key, client);
    lemma_belongs(g, other, k);
    match lookup(g, key) {
        None => {
            lemma_belongs(g, client, key);
            crate::assoc::lemma_position(members_of(g, key), client);
        },
        Some(m) => {
            let rest = cut(m, client);
            lemma_distinct_put(g, key, rest);
            lemma_distinct_filter(g, crate::assoc::not_key::<KeyView, Members>(key));
            lemma_belongs(r, other, k);
            assert(bound(rest, other) == lookup(rest, other) is Some);
            assert(bound(m, other) == lookup(m, other) is Some);
            crate::assoc::lemma_position(rest, other);
            if rest.len() == 0 {
                assert(lookup(r, k) == if k == key {
                    None
                } else {
                    lookup(g, k)
                });
                let none = Seq::<(Seq<char>, QoS)>::empty();
                crate::assoc::lemma_position(none, other);
            }
        },
    }
}

proof fn lemma_belongs_push(
    g: Groups,
    e: (KeyView, Members),
    client: Seq<char>,
    key: KeyView,
)
    ensures
        belongs(g.push(e), client, key) <==> belongs(g, client, key) || (e.0 == key && bound(
            e.1,
            client,
        )),
{
    let r = g.push(e);
    if belongs(r, client, key) {
        let i = choose|i: int|
            0 <= i < r.len() && (#[trigger] r[i]).0 == key && bound(r[i].1, client);
        if i < g.len() {
            assert(g[i] == r[i]);
        }
    }
    if belongs(g, client, key) {
        let i = choose|i: int|
            0 <= i < g.len() && (#[trigger] g[i]).0 == key && bound(g[i].1, client);
        assert(r[i] == g[i]);
    }
    assert(r[g.len() as int] == e);
}

pub proof fn lemma_leave_all(g: Groups, client: Seq<char>, other: Seq<char>, k: KeyView)
    ensures
        belongs(leave_all(g, client), other, k) <==> belongs(g, other, k) && other != client,
        distinct(g) ==> distinct(leave_all(g, client)),
        forall|i: int|
            0 <= i < leave_all(g, client).len() ==> exists|j: int|
                0 <= j < g.len() && (#[trigger] g[j]).0 == (#[trigger] leave_all(g, client)[i]).0,
    decreases g.len(),
{
    broadcast use crate::assoc::lemma_lookup_cut;

    if g.len() > 0 {
        let t = g.drop_last();
        let e = g.last();
        lemma_leave_all(t, client, other, k);
        let rest = leave_all(t, client);
        let m = cut(e.1, client);
        let r = leave_all(g, client);
        assert(g == t.push(e));
        lemma_belongs_push(t, e, other, k);
        lemma_belongs_push(rest, (e.0, m), other, k);
        assert(bound(m, other) == lookup(m, other) is Some);
        assert(bound(e.1, other) == lookup(e.1, other) is Some);
        crate::assoc::lemma_position(m, other);
        assert forall|i: int| 0 <= i < r.len() implies exists|j: int|
            0 <= j < g.len() && (#[trigger] g[j]).0 == (#[trigger] r[i]).0 by {
            if i < rest.len() {
                assert(r[i] == rest[i]);
                let j = choose|j: int| 0 <= j < t.len() && (#[trigger] t[j]).0 == rest[i].0;
                assert(g[j] == t[j]);
            } else {
                assert(g[g.len() - 1].0 == r[i].0);
            }
        }
        if distinct(g) {
            assert(distinct(t)) by {
                assert forall|i: int, j: int| 0 <= i < j < t.len() implies (#[trigger] t[i]).0 != (
                #[trigger] t[j]).0 by {
                    assert(t[i] == g[i] && t[j] == g[j]);
                }
            }
            assert forall|i: int, j: int| 0 <= i < j < r.len() implies (#[trigger] r[i]).0 != (
            #[trigger] r[j]).0 by {
                assert(r[i] == rest[i]);
                if j < rest.len() {
                    assert(r[j] == rest[j]);
                } else {
                    let a = choose|a: int| 0 <= a < t.len() && (#[trigger] t[a]).0 == rest[i].0;
                    assert(g[a] == t[a]);
                    assert(g[g.len() - 1] == e);
                }
            }
        }
    }
}

// Candidates of groups.

/// Whether `client` of this node is among `cs`.
pub open spec fn stands_here(cs: Seq<CandidateView>, client: Seq<char>) -> bool {
    exists|i: int| 0 <= i < cs.len() && (#[trigger] cs[i]).node is None && cs[i].client == client
}

proof fn lemma_stands_add(a: Seq<CandidateView>, b: Seq<CandidateView>, client: Seq<char>)
    ensures
        stands_here(a + b, client) <==> stands_here(a, client) || stands_here(b, client),
{
    let r = a + b;
    if stands_here(r, client) {
        let i = choose|i: int|
            0 <= i < r.len() && (#[trigger] r[i]).node is None && r[i].client == client;
        if i < a.len() {
            assert(a[i] == r[i]);
        } else {
            assert(b[i - a.len()] == r[i]);
        }
    }
    if stands_here(a, client) {
        let i = choose|i: int|
            0 <= i < a.len() && (#[trigger] a[i]).node is None && a[i].client == client;
        assert(r[i] == a[i]);
    }
    if stands_here(b, client) {
        let i = choose|i: int|
            0 <= i < b.len() && (#[trigger] b[i]).node is None && b[i].client == client;
        assert(r[i + a.len()] == b[i]);
    }
}

proof fn lemma_local_stands<W>(
    g: Groups,
    online: Seq<(Seq<char>, W)>,
    topic: Seq<char>,
    client: Seq<char>,
    key: KeyView,
)
    ensures
        stands_here(candidates_of(local_matches(g, online, topic), key), client) <==> belongs(
            g,
            client,
            key,
        ) && crate::topic::matches_topic(key.1, topic),
    decreases g.len(),
{
    if g.len() > 0 {
        let t = g.drop_last();
        let e = g.last();
        lemma_local_stands(t, online, topic, client, key);
        assert(g == t.push(e));
        lemma_belongs_push(t, e, client, key);
        if crate::topic::matches_topic(e.0.1, topic) {
            let rest = local_matches(t, online, topic);
            let more = local_candidates(e.1, online);
            let all = candidates_of(rest, e.0) + more;
            crate::assoc::lemma_lookup_ranked::<SharedKey, Seq<CandidateView>>(rest, e.0, all, key);
            lemma_stands_add(candidates_of(rest, e.0), more, client);
            crate::assoc::lemma_position(e.1, client);
            if bound(e.1, client) {
                let n = crate::assoc::position(e.1, client);
                assert(more[n].client == client);
            }
            if stands_here(more, client) {
                let i = choose|i: int|
                    0 <= i < more.len() && (#[trigger] more[i]).node is None && more[i].client
                        == client;
                assert(e.1[i].0 == client);
            }
        }
    }
}

proof fn lemma_node_stands(
    m: Matches,
    node: Seq<char>,
    groups: Seq<RemoteGroupView>,
    topic: Seq<char>,
    client: Seq<char>,
    key: KeyView,
)
    ensures
        stands_here(candidates_of(with_node(m, node, groups, topic), key), client) <==> stands_here(
            candidates_of(m, key),
            client,
        ),
    decreases groups.len(),
{
    if groups.len() > 0 {
        let rest = with_node(m, node, groups.drop_last(), topic);
        let g = groups.last();
        lemma_node_stands(m, node, groups.drop_last(), topic, client, key);
        if crate::topic::matches_topic(g.filter, topic) {
            let k = (g.group, g.filter);
            let more = remote_candidates(node, g.members);
            crate::assoc::lemma_lookup_ranked::<SharedKey, Seq<CandidateView>>(
                rest,
                k,
                candidates_of(rest, k) + more,
                key,
            );
            lemma_stands_add(candidates_of(rest, k), more, client);
            assert(!stands_here(more, client));
        }
    }
}

proof fn lemma_remote_stands(
    m: Matches,
    remote: Seq<(Seq<char>, Seq<RemoteGroupView>)>,
    topic: Seq<char>,
    client: Seq<char>,
    key: KeyView,
)
    ensures
        stands_here(candidates_of(with_remote(m, remote, topic), key), client) <==> stands_here(
            candidates_of(m, key),
            client,
        ),
    decreases remote.len(),
{
    if remote.len() > 0 {
        lemma_remote_stands(m, remote.drop_last(), topic, client, key);
        lemma_node_stands(
            with_remote(m, remote.drop_last(), topic),
            remote.last().0,
            remote.last().1,
            topic,
            client,
            key,
        );
    }
}

/// Whoever belongs to a group on this node is a candidate for its messages, and nobody else on
/// this node is: for every topic that the filter of the group admits, and for no other.
pub proof fn law_members_are_candidates(
    h: HubView,
    topic: Seq<char>,
    client: Seq<char>,
    key: KeyView,
)
    ensures
        stands_here(candidates_of(h.shared_matches(topic), key), client) <==> belongs(
            h.routing.shared,
            client,
            key,
        ) && crate::topic::matches_topic(key.1, topic),
{
    lemma_local_stands(h.routing.shared, h.sessions.online, topic, client, key);
    lemma_remote_stands(
        local_matches(h.routing.shared, h.sessions.online, topic),
        h.cluster.remote_shared,
        topic,
        client,
        key,
    );
}

// What the other nodes are told.

/// Whether `groups` list `client` as a member of `key`.
pub open spec fn lists(groups: Seq<SharedGroupWireView>, client: Seq<char>, key: KeyView) -> bool {
    exists|i: int, j: int|
        0 <= i < groups.len() && groups[i].group == key.0 && groups[i].filter == key.1 && 0 <= j
            < groups[i].members.len() && (#[trigger] groups[i].members[j]).client == client
}

proof fn lemma_snapshot_lists<W>(
    g: Groups,
    online: Seq<(Seq<char>, W)>,
    client: Seq<char>,
    key: KeyView,
)
    ensures
        lists(snapshot(g, online), client, key) <==> belongs(g, client, key),
{
    let s = snapshot(g, online);
    if lists(s, client, key) {
        let (i, j) = choose|i: int, j: int|
            0 <= i < s.len() && s[i].group == key.0 && s[i].filter == key.1 && 0 <= j
                < s[i].members.len() && (#[trigger] s[i].members[j]).client == client;
        assert(g[i].1[j].0 == client);
        crate::assoc::lemma_position(g[i].1, client);
        assert(g[i].0 == key);
    }
    if belongs(g, client, key) {
        let i = choose|i: int|
            0 <= i < g.len() && (#[trigger] g[i]).0 == key && bound(g[i].1, client);
        crate::assoc::lemma_position(g[i].1, client);
        let j = crate::assoc::position(g[i].1, client);
        assert(s[i].members[j].client == client);
    }
}

/// Whether every linked node is told that this node wants `filters` and has the shared groups
/// `groups`.
pub open spec fn reaches_all(
    es: Seq<EffectView>,
    peers: Seq<(Seq<char>, PeerView)>,
    filters: Seq<Seq<char>>,
    groups: Seq<SharedGroupWireView>,
) -> bool {
    forall|i: int|
        0 <= i < peers.len() ==> es.contains(
            EffectView::Frame { node: (#[trigger] peers[i]).0, frame: FrameView::Interest { filters } },
        ) && es.contains(
            EffectView::Frame { node: peers[i].0, frame: FrameView::SharedInterest { groups } },
        )
}

/// Whether every linked node is told, after `n` effects, that this node wants `filters` and has
/// the shared groups `groups`, and no node is told anything else of that kind.
pub open spec fn tells_all(
    es: Seq<EffectView>,
    n: nat,
    peers: Seq<(Seq<char>, PeerView)>,
    filters: Seq<Seq<char>>,
    groups: Seq<SharedGroupWireView>,
) -> bool {
    &&& reaches_all(es, peers, filters, groups)
    &&& forall|i: int|
        n <= i < es.len() ==> match #[trigger] es[i] {
            EffectView::Frame { frame: FrameView::Interest { filters: f }, .. } => f == filters,
            EffectView::Frame { frame: FrameView::SharedInterest { groups: g }, .. } => g == groups,
            _ => true,
        }
}

proof fn lemma_gossip(
    peers: Seq<(Seq<char>, PeerView)>,
    filters: Seq<Seq<char>>,
    groups: Seq<SharedGroupWireView>,
)
    ensures
        tells_all(gossip_frames(peers, filters, groups), 0, peers, filters, groups),
    decreases peers.len(),
{
    let es = gossip_frames(peers, filters, groups);
    if peers.len() > 0 {
        let t = peers.drop_last();
        lemma_gossip(t, filters, groups);
        let rest = gossip_frames(t, filters, groups);
        let last = interest_frames(peers.last().0, filters, groups);
        assert forall|i: int| 0 <= i < peers.len() implies es.contains(
            EffectView::Frame { node: (#[trigger] peers[i]).0, frame: FrameView::Interest { filters } },
        ) && es.contains(
            EffectView::Frame { node: peers[i].0, frame: FrameView::SharedInterest { groups } },
        ) by {
            let a = EffectView::Frame { node: peers[i].0, frame: FrameView::Interest { filters } };
            let b = EffectView::Frame {
                node: peers[i].0,
                frame: FrameView::SharedInterest { groups },
            };
            if i < t.len() {
                assert(t[i] == peers[i]);
                let j = choose|j: int| 0 <= j < rest.len() && rest[j] == a;
                assert(es[j] == a);
                let k = choose|k: int| 0 <= k < rest.len() && rest[k] == b;
                assert(es[k] == b);
            } else {
                assert(es[rest.len() as int] == last[0]);
                assert(es[rest.len() as int + 1] == last[1]);
            }
        }
        assert forall|i: int| 0 <= i < es.len() implies match #[trigger] es[i] {
            EffectView::Frame { frame: FrameView::Interest { filters: f }, .. } => f == filters,
            EffectView::Frame { frame: FrameView::SharedInterest { groups: g }, .. } => g == groups,
            _ => true,
        } by {
            if i < rest.len() {
                assert(es[i] == rest[i]);
            } else {
                assert(es[i] == last[i - rest.len()]);
            }
        }
    }
}

/// What is told of the groups of this node is who belongs to them.
pub proof fn lemma_gossiping(h: HubView, client: Seq<char>, key: KeyView)
    ensures
        tells_all(
            h.gossiping().effects,
            h.effects.len(),
            h.cluster.peers,
            h.local_interest(),
            h.local_groups(),
        ),
        lists(h.local_groups(), client, key) <==> belongs(h.routing.shared, client, key),
{
    let fs = h.local_interest();
    let gs = h.local_groups();
    let said = gossip_frames(h.cluster.peers, fs, gs);
    lemma_gossip(h.cluster.peers, fs, gs);
    lemma_snapshot_lists(h.routing.shared, h.sessions.online, client, key);
    let es = h.gossiping().effects;
    let n = h.effects.len() as int;
    assert forall|i: int| 0 <= i < h.cluster.peers.len() implies es.contains(
        EffectView::Frame {
            node: (#[trigger] h.cluster.peers[i]).0,
            frame: FrameView::Interest { filters: fs },
        },
    ) && es.contains(
        EffectView::Frame {
            node: h.cluster.peers[i].0,
            frame: FrameView::SharedInterest { groups: gs },
        },
    ) by {
        let node = h.cluster.peers[i].0;
        let a = EffectView::Frame { node, frame: FrameView::Interest { filters: fs } };
        let b = EffectView::Frame { node, frame: FrameView::SharedInterest { groups: gs } };
        let j = choose|j: int| 0 <= j < said.len() && said[j] == a;
        assert(es[n + j] == a);
        let k = choose|k: int| 0 <= k < said.len() && said[k] == b;
        assert(es[n + k] == b);
    }
    assert forall|i: int| n <= i < es.len() implies match #[trigger] es[i] {
        EffectView::Frame { frame: FrameView::Interest { filters: f }, .. } => f == fs,
        EffectView::Frame { frame: FrameView::SharedInterest { groups: g }, .. } => g == gs,
        _ => true,
    } by {
        assert(es[i] == said[i - n]);
    }
}

// Unsubscribing.

pub proof fn lemma_leaving_each(
    r: RoutingView,
    client: Seq<char>,
    filters: Seq<Seq<char>>,
    d: Seq<char>,
    f: Seq<char>,
    key: KeyView,
)
    ensures
        ({
            let left = r.leaving_each(client, filters);
            let mine = d == client && filters.contains(f);
            &&& listens(left, d, f) <==> listens(r, d, f) && !(mine && share_parts(f) is None)
            &&& lookup(left.grants(d), f) == if mine {
                None
            } else {
                lookup(r.grants(d), f)
            }
            &&& flagged(left.no_local, d, f) <==> flagged(r.no_local, d, f) && !mine
            &&& flagged(left.retain_as_published, d, f) <==> flagged(r.retain_as_published, d, f)
                && !mine
            &&& distinct(r.shared) ==> distinct(left.shared) && (belongs(left.shared, d, key)
                <==> belongs(r.shared, d, key) && !(d == client && names_group(filters, key)))
        }),
    decreases filters.len(),
{
    broadcast use crate::assoc::lemma_lookup_put;
    broadcast use crate::assoc::lemma_lookup_cut;

    if filters.len() > 0 {
        let t = filters.drop_last();
        let x = filters.last();
        lemma_leaving_each(r, client, t, d, f, key);
        let m = r.leaving_each(client, t);
        let left = m.leaving(client, x);
        lemma_drop_last_contains(filters, f);
        lemma_drop_last_group(filters, key);
        lemma_without_contains(m.table, (x, client), (f, d));
        assert forall|g: Seq<Seq<char>>| #[trigger] without(g, x).contains(f) <==> g.contains(f) && f
            != x by {
            lemma_without_contains(g, x, f);
        }
        match share_parts(x) {
            Some(k) => {
                if distinct(m.shared) {
                    lemma_leave(m.shared, k, client, d, key);
                }
            },
            None => {},
        }
        match lookup(m.subs_by_client, client) {
            Some(g) => {
                assert(left.grants(client) == cut(g, x));
            },
            None => {
                let none = Seq::<(Seq<char>, QoS)>::empty();
                crate::assoc::lemma_position(none, f);
            },
        }
    }
}

/// Unsubscribing takes effect: a client that unsubscribes from a filter has no subscription to it
/// any more, nor any of the wishes that came with it. Of an ordinary filter it hears nothing; of
/// the group of a shared one it is no member, so that it is no candidate for its messages, whatever
/// the topic, and no node is told that it is. What is left of its subscriptions is stored where its
/// session is kept, every linked node is told what this node wants now, and everything else stays
/// as it was.
pub proof fn law_unsubscribing(
    h: HubView,
    client: ClientId,
    filters: Vec<String>,
    i: int,
    topic: Seq<char>,
)
    requires
        0 <= i < filters.deep_view().len(),
        distinct(h.routing.shared),
    ensures
        ({
            let r = h.after(HubCommand::Unsubscribe { client, filters });
            let c = client.deep_view();
            let f = filters.deep_view()[i];
            &&& lookup(r.routing.grants(c), f) is None
            &&& !flagged(r.routing.no_local, c, f)
            &&& !flagged(r.routing.retain_as_published, c, f)
            &&& share_parts(f) is None ==> !listens(r.routing, c, f)
            &&& share_parts(f) matches Some(key) ==> {
                &&& !belongs(r.routing.shared, c, key)
                &&& !stands_here(candidates_of(r.shared_matches(topic), key), c)
                &&& !lists(r.local_groups(), c, key)
            }
            &&& tells_all(
                r.effects,
                h.effects.len(),
                h.cluster.peers,
                r.local_interest(),
                r.local_groups(),
            )
            &&& h.persistent(c) ==> r.effects.contains(
                EffectView::SetSubscriptions { client: c, subscriptions: r.routing.grants(c) },
            )
            &&& distinct(r.routing.shared)
            &&& r.sessions == h.sessions
            &&& r.cluster == h.cluster
            &&& r.retained == h.retained
        }),
        forall|d: Seq<char>, g: Seq<char>|
            !(d == client.deep_view() && filters.deep_view().contains(g)) ==> #[trigger] same_wish(
                h.after(HubCommand::Unsubscribe { client, filters }).routing,
                h.routing,
                d,
                g,
            ),
        forall|d: Seq<char>, key: KeyView|
            !(d == client.deep_view() && names_group(filters.deep_view(), key)) ==> #[trigger] belongs(
                h.after(HubCommand::Unsubscribe { client, filters }).routing.shared,
                d,
                key,
            ) == belongs(h.routing.shared, d, key),
{
    reveal(HubView::after);
    let r = h.after(HubCommand::Unsubscribe { client, filters });
    let c = client.deep_view();
    let fs = filters.deep_view();
    let f = fs[i];
    assert(fs.contains(f));
    let key = share_parts(f)->Some_0;
    lemma_leaving_each(h.routing, c, fs, c, f, key);
    let h1 = h.with_routing(h.routing.leaving_each(c, fs)).storing(c, false);
    assert(r == h1.gossiping());
    lemma_gossiping(h1, c, key);
    assert forall|d: Seq<char>, g: Seq<char>| !(d == c && fs.contains(g)) implies #[trigger] same_wish(
        r.routing,
        h.routing,
        d,
        g,
    ) by {
        lemma_leaving_each(h.routing, c, fs, d, g, key);
    }
    assert forall|d: Seq<char>, k: KeyView| !(d == c && names_group(fs, k)) implies #[trigger] belongs(
        r.routing.shared,
        d,
        k,
    ) == belongs(h.routing.shared, d, k) by {
        lemma_leaving_each(h.routing, c, fs, d, f, k);
    }
    if share_parts(f) is Some {
        assert(names_group(fs, key));
        law_members_are_candidates(r, topic, c, key);
    }
    let said = gossip_frames(h1.cluster.peers, h1.local_interest(), h1.local_groups());
    assert(r.effects == h1.effects + said);
    let n = h.effects.len() as int;
    if h.persistent(c) {
        assert(r.effects[n] == h1.effects[n]);
        assert(h1.effects[n] == (EffectView::SetSubscriptions {
            client: c,
            subscriptions: r.routing.grants(c),
        }));
    }
    assert forall|j: int| h.effects.len() <= j < r.effects.len() implies match #[trigger] r.effects[j] {
        EffectView::Frame { frame: FrameView::Interest { filters: x }, .. } => x
            == r.local_interest(),
        EffectView::Frame { frame: FrameView::SharedInterest { groups: x }, .. } => x
            == r.local_groups(),
        _ => true,
    } by {
        if j < h1.effects.len() {
            assert(r.effects[j] == h1.effects[j]);
        }
    }
}

// Subscribing.

/// The last of `wishes` for `filter` that is within the cap.
pub open spec fn last_granted(
    held: Grants,
    wishes: Seq<WishView>,
    cap: Option<usize>,
    filter: Seq<char>,
) -> Option<WishView>
    decreases wishes.len(),
{
    if wishes.len() == 0 {
        None
    } else if wishes.last().filter == filter && admits(
        held,
        wishes.drop_last(),
        wishes.last(),
        cap,
    ) {
        Some(wishes.last())
    } else {
        last_granted(held, wishes.drop_last(), cap, filter)
    }
}

/// Whether one of `wishes` that is within the cap is for the group `key`.
pub open spec fn joins(
    held: Grants,
    wishes: Seq<WishView>,
    cap: Option<usize>,
    key: KeyView,
) -> bool
    decreases wishes.len(),
{
    wishes.len() > 0 && (joins(held, wishes.drop_last(), cap, key) || (share_parts(
        wishes.last().filter,
    ) == Some(key) && admits(held, wishes.drop_last(), wishes.last(), cap)))
}

pub proof fn lemma_verdict(held: Grants, wishes: Seq<WishView>, cap: Option<usize>, i: int)
    requires
        0 <= i < wishes.len(),
    ensures
        verdicts(held, wishes, cap).len() == wishes.len(),
        verdicts(held, wishes, cap)[i] == admits(held, wishes.take(i), wishes[i], cap),
    decreases wishes.len(),
{
    let t = wishes.drop_last();
    if i < t.len() {
        lemma_verdict(held, t, cap, i);
        assert(t.take(i) =~= wishes.take(i));
    } else {
        assert(wishes.take(i) =~= t);
        if t.len() > 0 {
            lemma_verdict(held, t, cap, 0);
        } else {
            assert(verdicts(held, t, cap).len() == 0);
        }
    }
    assert(verdicts(held, wishes, cap).len() == verdicts(held, t, cap).len() + 1);
}

/// The last wish for a filter that was granted is what counts.
proof fn lemma_last_granted(
    held: Grants,
    wishes: Seq<WishView>,
    cap: Option<usize>,
    filter: Seq<char>,
    i: int,
)
    requires
        0 <= i < wishes.len(),
        wishes[i].filter == filter,
        verdicts(held, wishes, cap)[i],
        forall|j: int| i < j < wishes.len() ==> (#[trigger] wishes[j]).filter != filter,
    ensures
        last_granted(held, wishes, cap, filter) == Some(wishes[i]),
        share_parts(filter) matches Some(key) ==> joins(held, wishes, cap, key),
    decreases wishes.len(),
{
    let t = wishes.drop_last();
    let n = wishes.len() - 1;
    lemma_verdict(held, wishes, cap, i);
    assert(wishes[n] == wishes.last());
    if i < n {
        lemma_verdict(held, t, cap, i);
        assert(t.take(i) =~= wishes.take(i));
        assert forall|j: int| i < j < t.len() implies (#[trigger] t[j]).filter != filter by {
            assert(t[j] == wishes[j]);
        }
        lemma_last_granted(held, t, cap, filter, i);
    } else {
        assert(wishes.take(i) =~= t);
    }
}

proof fn lemma_none_granted(
    held: Grants,
    wishes: Seq<WishView>,
    cap: Option<usize>,
    filter: Seq<char>,
)
    requires
        forall|j: int|
            0 <= j < wishes.len() && (#[trigger] wishes[j]).filter == filter ==> !verdicts(
                held,
                wishes,
                cap,
            )[j],
    ensures
        last_granted(held, wishes, cap, filter) is None,
    decreases wishes.len(),
{
    if wishes.len() > 0 {
        let t = wishes.drop_last();
        let n = wishes.len() - 1;
        assert(wishes[n] == wishes.last());
        lemma_verdict(held, wishes, cap, n);
        assert(wishes.take(n) =~= t);
        assert forall|j: int| 0 <= j < t.len() && (#[trigger] t[j]).filter == filter implies !verdicts(
            held,
            t,
            cap,
        )[j] by {
            assert(t[j] == wishes[j]);
            lemma_verdict(held, t, cap, j);
            lemma_verdict(held, wishes, cap, j);
            assert(t.take(j) =~= wishes.take(j));
        }
        lemma_none_granted(held, t, cap, filter);
    }
}

proof fn lemma_none_joins(held: Grants, wishes: Seq<WishView>, cap: Option<usize>, key: KeyView)
    requires
        forall|j: int|
            0 <= j < wishes.len() && share_parts((#[trigger] wishes[j]).filter) == Some(key)
                ==> !verdicts(held, wishes, cap)[j],
    ensures
        !joins(held, wishes, cap, key),
    decreases wishes.len(),
{
    if wishes.len() > 0 {
        let t = wishes.drop_last();
        let n = wishes.len() - 1;
        assert(wishes[n] == wishes.last());
        lemma_verdict(held, wishes, cap, n);
        assert(wishes.take(n) =~= t);
        assert forall|j: int|
            0 <= j < t.len() && share_parts((#[trigger] t[j]).filter) == Some(key) implies !verdicts(
            held,
            t,
            cap,
        )[j] by {
            assert(t[j] == wishes[j]);
            lemma_verdict(held, t, cap, j);
            lemma_verdict(held, wishes, cap, j);
            assert(t.take(j) =~= wishes.take(j));
        }
        lemma_none_joins(held, t, cap, key);
    }
}

pub proof fn lemma_entering(
    r: RoutingView,
    client: Seq<char>,
    filter: Seq<char>,
    qos: QoS,
    d: Seq<char>,
    f: Seq<char>,
    key: KeyView,
)
    ensures
        ({
            let e = r.entering(client, filter, qos);
            let mine = d == client && f == filter;
            &&& listens(e, d, f) <==> listens(r, d, f) || (mine && share_parts(f) is None)
            &&& lookup(e.grants(d), f) == if mine {
                Some(qos)
            } else {
                lookup(r.grants(d), f)
            }
            &&& e.no_local == r.no_local
            &&& e.retain_as_published == r.retain_as_published
            &&& distinct(r.shared) ==> distinct(e.shared) && (belongs(e.shared, d, key)
                <==> belongs(r.shared, d, key) || (d == client && share_parts(filter) == Some(key)))
        }),
{
    broadcast use crate::assoc::lemma_lookup_put;

    lemma_adjoin_contains(r.table, (filter, client), (f, d));
    match share_parts(filter) {
        Some(k) => {
            if distinct(r.shared) {
                lemma_join(r.shared, k, client, qos, d, key);
            }
        },
        None => {},
    }
    assert(r.entering(client, filter, qos).grants(client) == put(r.grants(client), filter, qos));
}

proof fn lemma_granting(
    r: RoutingView,
    client: Seq<char>,
    held: Grants,
    wishes: Seq<WishView>,
    cap: Option<usize>,
    d: Seq<char>,
    f: Seq<char>,
    key: KeyView,
)
    ensures
        ({
            let e = r.granting(client, held, wishes, cap);
            let w = if d == client {
                last_granted(held, wishes, cap, f)
            } else {
                None
            };
            &&& listens(e, d, f) <==> listens(r, d, f) || (w is Some && share_parts(f) is None)
            &&& lookup(e.grants(d), f) == match w {
                Some(x) => Some(x.qos),
                None => lookup(r.grants(d), f),
            }
            &&& flagged(e.no_local, d, f) == match w {
                Some(x) => x.no_local,
                None => flagged(r.no_local, d, f),
            }
            &&& flagged(e.retain_as_published, d, f) == match w {
                Some(x) => x.retain_as_published,
                None => flagged(r.retain_as_published, d, f),
            }
            &&& distinct(r.shared) ==> distinct(e.shared) && (belongs(e.shared, d, key)
                <==> belongs(r.shared, d, key) || (d == client && joins(held, wishes, cap, key)))
        }),
    decreases wishes.len(),
{
    broadcast use crate::assoc::lemma_lookup_put;

    if wishes.len() > 0 {
        let t = wishes.drop_last();
        let x = wishes.last();
        lemma_granting(r, client, held, t, cap, d, f, key);
        let m = r.granting(client, held, t, cap);
        if admits(held, t, x, cap) {
            lemma_entering(m, client, x.filter, x.qos, d, f, key);
            let n = m.entering(client, x.filter, x.qos);
            let quiet = lookup_or(n.no_local, client, Seq::empty());
            let kept = lookup_or(n.retain_as_published, client, Seq::empty());
            lemma_adjoin_contains(quiet, x.filter, f);
            lemma_without_contains(quiet, x.filter, f);
            lemma_adjoin_contains(kept, x.filter, f);
            lemma_without_contains(kept, x.filter, f);
            assert(quiet.contains(f) <==> flagged(n.no_local, client, f));
            assert(kept.contains(f) <==> flagged(n.retain_as_published, client, f));
        }
    }
}

proof fn lemma_replaying_alike(h: HubView, client: Seq<char>, messages: Seq<MessageView>)
    ensures
        follows(h, h.replaying(client, messages)),
        h.replaying(client, messages).routing == h.routing,
        crate::guarantees::alike(h.replaying(client, messages), h),
    decreases messages.len(),
{
    if messages.len() == 0 {
        lemma_follows_same(h, h);
    } else {
        let t = messages.drop_last();
        lemma_replaying_alike(h, client, t);
        let h1 = h.replaying(client, t);
        let e = crate::inflight::BacklogView {
            message: messages.last(),
            retain: true,
            message_expiry: None,
            offset: None,
        };
        lemma_to_client_reach(h1, client, e, client);
        crate::guarantees::lemma_to_client(h1, client, e);
        lemma_follows(h, h1, h1.to_client(client, e));
    }
}

/// Subscribing takes effect: a client that was granted a wish subscribes to its filter with the
/// guarantee it asked for, as a member of the group where the filter is a shared one, and with just
/// the options it asked for, whatever it had asked for before; where it wished for a filter several
/// times, the last wish counts. It is told what it was granted, every linked node is told what this
/// node wants now, and what was not wished for, or not granted, stays as it was.
pub proof fn law_subscribing(
    h: HubView,
    client: ClientId,
    wishes: Vec<Wish>,
    reply: Option<u64>,
    stored: bool,
    i: int,
    topic: Seq<char>,
)
    requires
        !h.persistent(client.deep_view()) || stored,
        distinct(h.routing.shared),
        0 <= i < wishes.deep_view().len(),
        verdicts(
            h.routing.grants(client.deep_view()),
            wishes.deep_view(),
            h.quotas.max_subscriptions_per_client,
        )[i],
        forall|j: int|
            i < j < wishes.deep_view().len() ==> (#[trigger] wishes.deep_view()[j]).filter
                != wishes.deep_view()[i].filter,
    ensures
        ({
            let r = h.after(HubCommand::Subscribe { client, wishes, reply, stored });
            let c = client.deep_view();
            let w = wishes.deep_view()[i];
            let cap = h.quotas.max_subscriptions_per_client;
            &&& lookup(r.routing.grants(c), w.filter) == Some(w.qos)
            &&& flagged(r.routing.no_local, c, w.filter) == w.no_local
            &&& flagged(r.routing.retain_as_published, c, w.filter) == w.retain_as_published
            &&& share_parts(w.filter) is None ==> listens(r.routing, c, w.filter)
            &&& share_parts(w.filter) matches Some(key) ==> {
                &&& belongs(r.routing.shared, c, key)
                &&& crate::topic::matches_topic(key.1, topic) ==> stands_here(
                    candidates_of(r.shared_matches(topic), key),
                    c,
                )
                &&& lists(r.local_groups(), c, key)
            }
            &&& distinct(r.routing.shared)
            &&& reply matches Some(token) ==> r.effects.contains(
                EffectView::Subscribed {
                    token,
                    verdicts: verdicts(h.routing.grants(c), wishes.deep_view(), cap),
                },
            )
            &&& reaches_all(
                r.effects,
                h.cluster.peers,
                r.local_interest(),
                r.local_groups(),
            )
        }),
        forall|d: Seq<char>, g: Seq<char>|
            !(d == client.deep_view() && wished(h, client.deep_view(), wishes.deep_view(), g))
                ==> #[trigger] same_wish(
                h.after(HubCommand::Subscribe { client, wishes, reply, stored }).routing,
                h.routing,
                d,
                g,
            ),
        forall|d: Seq<char>, key: KeyView|
            !(d == client.deep_view() && wished_group(
                h,
                client.deep_view(),
                wishes.deep_view(),
                key,
            )) ==> #[trigger] belongs(
                h.after(HubCommand::Subscribe { client, wishes, reply, stored }).routing.shared,
                d,
                key,
            ) == belongs(h.routing.shared, d, key),
{
    reveal(HubView::after);
    let r = h.after(HubCommand::Subscribe { client, wishes, reply, stored });
    let c = client.deep_view();
    let ws = wishes.deep_view();
    let cap = h.quotas.max_subscriptions_per_client;
    let held = h.routing.grants(c);
    let w = ws[i];
    let key = share_parts(w.filter)->Some_0;
    let routing = h.routing.granting(c, held, ws, cap);
    lemma_last_granted(held, ws, cap, w.filter, i);
    lemma_granting(h.routing, c, held, ws, cap, c, w.filter, key);
    let h1 = h.with_routing(routing).granted_to(reply, verdicts(held, ws, cap));
    let h2 = h1.gossiping();
    lemma_gossiping(h1, c, key);
    lemma_replaying_alike(h2, c, replay(h.retained.cache, held, ws, cap));
    lemma_follows_same(h2, h2);
    assert(follows(h2, r) && r.routing == routing);
    assert(crate::guarantees::alike(r, h2) || r == h2);
    lemma_snapshot_alike(routing.shared, r.sessions.online, h2.sessions.online);
    assert(r.local_groups() == h2.local_groups());
    assert forall|j: int| 0 <= j < h.cluster.peers.len() implies r.effects.contains(
        EffectView::Frame {
            node: (#[trigger] h.cluster.peers[j]).0,
            frame: FrameView::Interest { filters: r.local_interest() },
        },
    ) && r.effects.contains(
        EffectView::Frame {
            node: h.cluster.peers[j].0,
            frame: FrameView::SharedInterest { groups: r.local_groups() },
        },
    ) by {
        let node = h.cluster.peers[j].0;
        assert(h1.cluster.peers[j].0 == node);
        crate::reach::lemma_follows_contains(
            h2,
            r,
            EffectView::Frame { node, frame: FrameView::Interest { filters: r.local_interest() } },
        );
        crate::reach::lemma_follows_contains(
            h2,
            r,
            EffectView::Frame {
                node,
                frame: FrameView::SharedInterest { groups: r.local_groups() },
            },
        );
    }
    if reply is Some {
        let told = EffectView::Subscribed {
            token: reply->Some_0,
            verdicts: verdicts(held, ws, cap),
        };
        let n = h.effects.len() as int;
        assert(h1.effects[n] == told);
        assert(h2.effects[n] == h1.effects[n]);
        crate::reach::lemma_follows_contains(h2, r, told);
    }
    if share_parts(w.filter) is Some {
        law_members_are_candidates(r, topic, c, key);
        lemma_snapshot_lists(r.routing.shared, r.sessions.online, c, key);
    }
    assert forall|d: Seq<char>, g: Seq<char>|
        !(d == c && wished(h, c, ws, g)) implies #[trigger] same_wish(
        r.routing,
        h.routing,
        d,
        g,
    ) by {
        lemma_granting(h.routing, c, held, ws, cap, d, g, key);
        if d == c {
            lemma_none_granted(held, ws, cap, g);
        }
    }
    assert forall|d: Seq<char>, k: KeyView|
        !(d == c && wished_group(h, c, ws, k)) implies #[trigger] belongs(
        r.routing.shared,
        d,
        k,
    ) == belongs(h.routing.shared, d, k) by {
        lemma_granting(h.routing, c, held, ws, cap, d, w.filter, k);
        if d == c {
            lemma_none_joins(held, ws, cap, k);
        }
    }
}

/// Whether `client` is granted one of `wishes` for `filter`.
pub open spec fn wished(
    h: HubView,
    client: Seq<char>,
    wishes: Seq<WishView>,
    filter: Seq<char>,
) -> bool {
    exists|j: int|
        0 <= j < wishes.len() && (#[trigger] wishes[j]).filter == filter && verdicts(
            h.routing.grants(client),
            wishes,
            h.quotas.max_subscriptions_per_client,
        )[j]
}

/// Whether `client` is granted one of `wishes` for the group `key`.
pub open spec fn wished_group(
    h: HubView,
    client: Seq<char>,
    wishes: Seq<WishView>,
    key: KeyView,
) -> bool {
    exists|j: int|
        0 <= j < wishes.len() && share_parts((#[trigger] wishes[j]).filter) == Some(key)
            && verdicts(
            h.routing.grants(client),
            wishes,
            h.quotas.max_subscriptions_per_client,
        )[j]
}

proof fn lemma_snapshot_alike<V, W>(
    g: Groups,
    a: Seq<(Seq<char>, V)>,
    b: Seq<(Seq<char>, W)>,
)
    requires
        crate::assoc::keys(a) == crate::assoc::keys(b),
    ensures
        snapshot(g, a) == snapshot(g, b),
{
    let s = snapshot(g, a);
    let t = snapshot(g, b);
    assert forall|i: int| 0 <= i < s.len() implies s[i] == t[i] by {
        assert forall|j: int| 0 <= j < s[i].members.len() implies s[i].members[j]
            == t[i].members[j] by {
            crate::guarantees::lemma_bound_by_keys(a, b, g[i].1[j].0);
        }
        assert(s[i].members =~= t[i].members);
    }
    assert(s =~= t);
}

/// A wish is granted where the client holds its filter already, and where there is room for it and
/// for all the wishes before it; without a cap every wish is.
pub proof fn law_wishes_are_granted(
    held: Grants,
    wishes: Seq<WishView>,
    cap: Option<usize>,
    i: int,
)
    requires
        0 <= i < wishes.len(),
        cap is None || bound(held, wishes[i].filter) || held.len() + i < cap->Some_0,
    ensures
        verdicts(held, wishes, cap).len() == wishes.len(),
        verdicts(held, wishes, cap)[i],
{
    lemma_verdict(held, wishes, cap, i);
    lemma_taken_at_most(held, wishes.take(i), cap);
}

proof fn lemma_taken_at_most(held: Grants, wishes: Seq<WishView>, cap: Option<usize>)
    ensures
        taken(held, wishes, cap) <= wishes.len(),
    decreases wishes.len(),
{
    if wishes.len() > 0 {
        lemma_taken_at_most(held, wishes.drop_last(), cap);
    }
}

/// What the other nodes are told of this one is what is heard here: a filter is among those told
/// exactly when somebody has an ordinary subscription to it; the groups told are those that
/// somebody belongs to, with whoever belongs to them.
pub proof fn law_told_is_what_is_heard(h: HubView, filter: Seq<char>, client: Seq<char>, key: KeyView)
    ensures
        h.local_interest().contains(filter) <==> exists|c: Seq<char>|
            #[trigger] listens(h.routing, c, filter),
        lists(h.local_groups(), client, key) <==> belongs(h.routing.shared, client, key),
        forall|i: int, j: int|
            0 <= i < h.local_groups().len() && 0 <= j < h.local_groups()[i].members.len() ==> {
                let m = #[trigger] h.local_groups()[i].members[j];
                &&& m.online == h.is_online(m.client)
                &&& crate::qos::of_level(m.qos) == h.routing.shared[i].1[j].1
            },
{
    lemma_filters_of(h.routing.table, filter);
    lemma_snapshot_lists(h.routing.shared, h.sessions.online, client, key);
    if h.local_interest().contains(filter) {
        let i = choose|i: int|
            0 <= i < h.routing.table.len() && (#[trigger] h.routing.table[i]).0 == filter;
        assert(listens(h.routing, h.routing.table[i].1, filter));
    }
    if exists|c: Seq<char>| #[trigger] listens(h.routing, c, filter) {
        let c = choose|c: Seq<char>| #[trigger] listens(h.routing, c, filter);
        let i = choose|i: int|
            0 <= i < h.routing.table.len() && h.routing.table[i] == (filter, c);
        assert(h.routing.table[i].0 == filter);
    }
    assert forall|i: int, j: int|
        0 <= i < h.local_groups().len() && 0 <= j < h.local_groups()[i].members.len() implies {
            let m = #[trigger] h.local_groups()[i].members[j];
            &&& m.online == h.is_online(m.client)
            &&& crate::qos::of_level(m.qos) == h.routing.shared[i].1[j].1
        } by {
        crate::qos::law_level_reads_back(h.routing.shared[i].1[j].1);
    }
}

proof fn lemma_filters_of(s: crate::subscriptions::Pairs, filter: Seq<char>)
    ensures
        crate::subscriptions::filters_of(s).contains(filter) <==> exists|i: int|
            0 <= i < s.len() && (#[trigger] s[i]).0 == filter,
    decreases s.len(),
{
    if s.len() > 0 {
        let t = s.drop_last();
        lemma_filters_of(t, filter);
        lemma_adjoin_contains(crate::subscriptions::filters_of(t), s.last().0, filter);
        assert(s[s.len() - 1] == s.last());
        if exists|i: int| 0 <= i < t.len() && (#[trigger] t[i]).0 == filter {
            let i = choose|i: int| 0 <= i < t.len() && (#[trigger] t[i]).0 == filter;
            assert(s[i].0 == filter);
        }
        if exists|i: int| 0 <= i < s.len() && (#[trigger] s[i]).0 == filter {
            let i = choose|i: int| 0 <= i < s.len() && (#[trigger] s[i]).0 == filter;
            if i < t.len() {
                assert(t[i].0 == filter);
            }
        }
    }
}

} // verus!
