//! Shared subscriptions: groups of clients of which one gets each message.

use vstd::prelude::*;

use crate::assoc::{bound, cut, not_key, lookup, position, push_item, put, put_ranked, Table};
use crate::ids::{ClientId, NodeId};
use crate::qos::{level, qos_num, QoS};
use crate::topic::{matches_topic, topic_matches};
use crate::wire::{SharedGroupWire, SharedGroupWireView, SharedMemberWire, SharedMemberWireView};

verus! {

/// A group is named by its group name and its filter.
pub type SharedKey = (String, String);

/// Model of [`SharedKey`].
pub type KeyView = (Seq<char>, Seq<char>);

/// The members of a group and the guarantee that each was granted.
pub type Members = Seq<(Seq<char>, QoS)>;

/// The groups, in order of arrival.
pub type Groups = Seq<(KeyView, Members)>;

/// The members of `key`, none where there is no such group.
pub open spec fn members_of(g: Groups, key: KeyView) -> Members {
    match lookup(g, key) {
        Some(m) => m,
        None => Seq::empty(),
    }
}

/// The groups after `client` joined one.
pub open spec fn join(g: Groups, key: KeyView, client: Seq<char>, qos: QoS) -> Groups {
    put(g, key, put(members_of(g, key), client, qos))
}

/// The groups after `client` left one; a group without members is no group.
pub open spec fn leave(g: Groups, key: KeyView, client: Seq<char>) -> Groups {
    match lookup(g, key) {
        None => g,
        Some(m) => if cut(m, client).len() == 0 {
            cut(g, key)
        } else {
            put(g, key, cut(m, client))
        },
    }
}

/// The groups after `client` left all of them.
pub open spec fn leave_all(g: Groups, client: Seq<char>) -> Groups
    decreases g.len(),
{
    if g.len() == 0 {
        g
    } else {
        let rest = leave_all(g.drop_last(), client);
        let m = cut(g.last().1, client);
        if m.len() == 0 {
            rest
        } else {
            rest.push((g.last().0, m))
        }
    }
}

/// A table of shared subscriptions.
#[derive(Debug)]
pub struct SharedSubscriptionTable {
    pub groups: Table<SharedKey, Table<ClientId, QoS>>,
}

impl DeepView for SharedSubscriptionTable {
    type V = Groups;

    open spec fn deep_view(&self) -> Groups {
        self.groups.deep_view()
    }
}

impl SharedSubscriptionTable {
    /// The table without groups.
    pub fn new() -> (r: Self)
        ensures
            r.deep_view() == Seq::<(KeyView, Members)>::empty(),
    {
        SharedSubscriptionTable { groups: Table::new() }
    }

    /// Lets `client` join the group `(group, filter)`.
    pub fn subscribe(&mut self, client: ClientId, group: String, filter: String, qos: QoS)
        ensures
            final(self).deep_view() == join(
                old(self).deep_view(),
                (group@, filter@),
                client.deep_view(),
                qos,
            ),
    {
        let key = (group, filter);
        if self.groups.contains_key(&key) {
            if let Some(m) = self.groups.get_mut(&key) {
                m.insert(client, qos);
            }
        } else {
            let mut m: Table<ClientId, QoS> = Table::new();
            m.insert(client, qos);
            self.groups.insert(key, m);
        }
    }

    /// Lets `client` leave the group `(group, filter)`.
    pub fn unsubscribe(&mut self, client: &ClientId, group: String, filter: String)
        ensures
            final(self).deep_view() == leave(
                old(self).deep_view(),
                (group@, filter@),
                client.deep_view(),
            ),
    {
        let key = (group, filter);
        let mut emptied = false;
        if let Some(m) = self.groups.get_mut(&key) {
            let _gone = m.remove(client);
            emptied = m.is_empty();
        }
        if emptied {
            proof {
                let g = old(self).deep_view();
                let k = key.deep_view();
                let m = cut(members_of(g, k), client.deep_view());
                lemma_cut_put(g, k, m);
            }
            let _gone = self.groups.remove(&key);
        }
    }

    /// Lets `client` leave every group.
    pub fn remove_client(&mut self, client: &ClientId)
        ensures
            final(self).deep_view() == leave_all(old(self).deep_view(), client.deep_view()),
    {
        let ghost s = self.deep_view();
        let ghost q = client.deep_view();
        let ghost mut done: int = 0;
        let mut i: usize = 0;
        assert(s.take(0) + s.skip(0) =~= s);
        assert(leave_all(s.take(0), q) =~= s.take(0));
        while i < self.groups.entries.len()
            invariant
                0 <= done <= s.len(),
                q == client.deep_view(),
                i <= self.groups.entries@.len(),
                i == leave_all(s.take(done), q).len(),
                self.groups.deep_view() == leave_all(s.take(done), q) + s.skip(done),
            decreases s.len() - done,
        {
            let ghost head = leave_all(s.take(done), q);
            let ghost before = self.groups.deep_view();
            proof {
                assert(before[i as int] == s[done]);
                assert(s.take(done + 1).drop_last() =~= s.take(done));
                assert(s.take(done + 1).last() == s[done]);
            }
            let (key, members) = &mut self.groups.entries[i];
            let _gone = members.remove(client);
            let emptied = members.is_empty();
            let ghost m = cut(s[done].1, q);
            assert(self.groups.deep_view() =~= before.update(i as int, (s[done].0, m)));
            let ghost mid = self.groups.deep_view();
            if emptied {
                let _gone = self.groups.entries.remove(i);
                assert(self.groups.deep_view() =~= mid.remove(i as int));
                assert(self.groups.deep_view() =~= head + s.skip(done + 1));
            } else {
                i += 1;
                assert(self.groups.deep_view() =~= head.push((s[done].0, m)) + s.skip(done + 1));
            }
            proof {
                done = done + 1;
            }
        }
        assert(s.take(done) =~= s);
        assert(self.groups.deep_view() =~= leave_all(s, q));
    }
}

/// Unbinding a key that was just rebound is unbinding it.
pub proof fn lemma_cut_put<K, V>(s: Seq<(K, V)>, k: K, v: V)
    requires
        bound(s, k),
    ensures
        cut(put(s, k, v), k) == cut(s, k),
{
    crate::assoc::lemma_position(s, k);
    let i = position(s, k);
    let t = put(s, k, v);
    let keep = not_key::<K, V>(k);
    let a = s.take(i);
    let b = s.skip(i + 1);
    assert(s =~= a + (seq![s[i]] + b));
    assert(t =~= a + (seq![t[i]] + b));
    Seq::filter_distributes_over_add(a, seq![s[i]] + b, keep);
    Seq::filter_distributes_over_add(seq![s[i]], b, keep);
    Seq::filter_distributes_over_add(a, seq![t[i]] + b, keep);
    Seq::filter_distributes_over_add(seq![t[i]], b, keep);
    reveal_with_fuel(Seq::filter, 2);
    assert(seq![s[i]].drop_last() =~= Seq::<(K, V)>::empty());
    assert(seq![t[i]].drop_last() =~= Seq::<(K, V)>::empty());
    assert(seq![s[i]].filter(keep) =~= Seq::<(K, V)>::empty());
    assert(seq![t[i]].filter(keep) =~= Seq::<(K, V)>::empty());
    assert(cut(t, k) =~= s.filter(keep));
}

/// One shared group of another node.
#[derive(Debug)]
pub struct RemoteSharedGroup {
    /// The name of the group.
    pub group: String,
    /// The filter of the group.
    pub filter: String,
    /// The members: who, under which guarantee, and whether connected.
    pub members: Vec<(ClientId, QoS, bool)>,
}

/// Model of [`RemoteSharedGroup`].
pub struct RemoteGroupView {
    pub group: Seq<char>,
    pub filter: Seq<char>,
    pub members: Seq<(Seq<char>, QoS, bool)>,
}

impl DeepView for RemoteSharedGroup {
    type V = RemoteGroupView;

    open spec fn deep_view(&self) -> RemoteGroupView {
        RemoteGroupView {
            group: self.group@,
            filter: self.filter@,
            members: self.members.deep_view(),
        }
    }
}

/// A client that a message of a group could go to. `node` is the node it lives on, `None` for
/// this one.
#[derive(Debug)]
pub struct SharedCandidate {
    pub node: Option<NodeId>,
    pub client: ClientId,
    pub qos: QoS,
    pub online: bool,
}

/// Model of [`SharedCandidate`].
pub struct CandidateView {
    pub node: Option<Seq<char>>,
    pub client: Seq<char>,
    pub qos: QoS,
    pub online: bool,
}

impl DeepView for SharedCandidate {
    type V = CandidateView;

    open spec fn deep_view(&self) -> CandidateView {
        CandidateView {
            node: self.node.deep_view(),
            client: self.client.deep_view(),
            qos: self.qos,
            online: self.online,
        }
    }
}

impl Clone for SharedCandidate {
    fn clone(&self) -> (r: Self)
        ensures
            r.deep_view() == self.deep_view(),
    {
        let node = match &self.node {
            Some(n) => Some(n.clone()),
            None => None,
        };
        SharedCandidate { node, client: self.client.clone(), qos: self.qos, online: self.online }
    }
}

/// The candidates of each group that a topic reaches, by group name and filter.
pub type Matches = Seq<(KeyView, Seq<CandidateView>)>;

/// The candidates that were found for `key`.
pub open spec fn candidates_of(m: Matches, key: KeyView) -> Seq<CandidateView> {
    match lookup(m, key) {
        Some(c) => c,
        None => Seq::empty(),
    }
}

/// `m` with more candidates for `key`.
pub open spec fn with_candidates(m: Matches, key: KeyView, more: Seq<CandidateView>) -> Matches {
    put_ranked::<SharedKey, Seq<CandidateView>>(m, key, candidates_of(m, key) + more)
}

/// The members of a group of this node, as candidates.
pub open spec fn local_candidates<W>(members: Members, online: Seq<(Seq<char>, W)>) -> Seq<
    CandidateView,
> {
    Seq::new(
        members.len(),
        |i: int|
            CandidateView {
                node: None,
                client: members[i].0,
                qos: members[i].1,
                online: bound(online, members[i].0),
            },
    )
}

/// The members of a group of another node, as candidates.
pub open spec fn remote_candidates(
    node: Seq<char>,
    members: Seq<(Seq<char>, QoS, bool)>,
) -> Seq<CandidateView> {
    Seq::new(
        members.len(),
        |i: int|
            CandidateView {
                node: Some(node),
                client: members[i].0,
                qos: members[i].1,
                online: members[i].2,
            },
    )
}

/// The candidates on this node.
pub open spec fn local_matches<W>(
    g: Groups,
    online: Seq<(Seq<char>, W)>,
    topic: Seq<char>,
) -> Matches
    decreases g.len(),
{
    if g.len() == 0 {
        Seq::empty()
    } else {
        let rest = local_matches(g.drop_last(), online, topic);
        if matches_topic(g.last().0.1, topic) {
            with_candidates(rest, g.last().0, local_candidates(g.last().1, online))
        } else {
            rest
        }
    }
}

/// `m` with the candidates among the groups of `node`.
pub open spec fn with_node(
    m: Matches,
    node: Seq<char>,
    groups: Seq<RemoteGroupView>,
    topic: Seq<char>,
) -> Matches
    decreases groups.len(),
{
    if groups.len() == 0 {
        m
    } else {
        let rest = with_node(m, node, groups.drop_last(), topic);
        let g = groups.last();
        if matches_topic(g.filter, topic) {
            with_candidates(rest, (g.group, g.filter), remote_candidates(node, g.members))
        } else {
            rest
        }
    }
}

/// `m` with the candidates on all other nodes, node after node.
pub open spec fn with_remote(
    m: Matches,
    remote: Seq<(Seq<char>, Seq<RemoteGroupView>)>,
    topic: Seq<char>,
) -> Matches
    decreases remote.len(),
{
    if remote.len() == 0 {
        m
    } else {
        with_node(
            with_remote(m, remote.drop_last(), topic),
            remote.last().0,
            remote.last().1,
            topic,
        )
    }
}

/// Every group that `topic` reaches, by group name and filter, with its candidates: those of
/// this node, then those of the others.
pub open spec fn all_matches<W>(
    g: Groups,
    remote: Seq<(Seq<char>, Seq<RemoteGroupView>)>,
    online: Seq<(Seq<char>, W)>,
    topic: Seq<char>,
) -> Matches {
    with_remote(local_matches(g, online, topic), remote, topic)
}

fn add_candidates(
    m: &mut Table<SharedKey, Vec<SharedCandidate>>,
    key: SharedKey,
    more: Vec<SharedCandidate>,
)
    ensures
        final(m).deep_view() == with_candidates(
            old(m).deep_view(),
            key.deep_view(),
            more.deep_view(),
        ),
{
    let mut more = more;
    let ghost added = more.deep_view();
    if m.contains_key(&key) {
        if let Some(c) = m.get_mut(&key) {
            let ghost before = c.deep_view();
            c.append(&mut more);
            assert(c.deep_view() =~= before + added);
        }
    } else {
        assert(Seq::<CandidateView>::empty() + added =~= added);
        m.insert_ranked(key, more);
    }
}

/// See [`all_matches`].
pub fn shared_candidates<W: DeepView>(
    shared: &SharedSubscriptionTable,
    remote: &Table<NodeId, Vec<RemoteSharedGroup>>,
    online: &Table<ClientId, W>,
    topic: &str,
) -> (r: Table<SharedKey, Vec<SharedCandidate>>)
    ensures
        r.deep_view() == all_matches(
            shared.deep_view(),
            remote.deep_view(),
            online.deep_view(),
            topic@,
        ),
{
    let mut r: Table<SharedKey, Vec<SharedCandidate>> = Table::new();
    let ghost g = shared.deep_view();
    let ghost on = online.deep_view();
    let mut i: usize = 0;
    assert(g.take(0) =~= Seq::empty());
    while i < shared.groups.len()
        invariant
            i <= g.len(),
            g == shared.deep_view(),
            on == online.deep_view(),
            r.deep_view() == local_matches(g.take(i as int), on, topic@),
        decreases g.len() - i,
    {
        proof {
            assert(g.take(i as int + 1).drop_last() =~= g.take(i as int));
            assert(g.take(i as int + 1).last() == g[i as int]);
        }
        let key = shared.groups.key_at(i);
        if topic_matches(key.1.as_str(), topic) {
            let members = shared.groups.value_at(i);
            let ghost mv = members.deep_view();
            let mut found: Vec<SharedCandidate> = Vec::new();
            let mut j: usize = 0;
            assert(found.deep_view() =~= local_candidates(mv, on).take(0));
            while j < members.len()
                invariant
                    j <= mv.len(),
                    mv == members.deep_view(),
                    on == online.deep_view(),
                    found.deep_view() == local_candidates(mv, on).take(j as int),
                decreases mv.len() - j,
            {
                let client = members.key_at(j);
                push_item(
                    &mut found,
                    SharedCandidate {
                        node: None,
                        client: client.clone(),
                        qos: *members.value_at(j),
                        online: online.contains_key(client),
                    },
                );
                j += 1;
                assert(found.deep_view() =~= local_candidates(mv, on).take(j as int));
            }
            assert(found.deep_view() =~= local_candidates(mv, on));
            add_candidates(&mut r, (key.0.clone(), key.1.clone()), found);
        }
        i += 1;
    }
    assert(g.take(i as int) =~= g);
    let ghost local = r.deep_view();
    let ghost rem = remote.deep_view();
    let mut n: usize = 0;
    assert(rem.take(0) =~= Seq::empty());
    while n < remote.len()
        invariant
            n <= rem.len(),
            rem == remote.deep_view(),
            r.deep_view() == with_remote(local, rem.take(n as int), topic@),
        decreases rem.len() - n,
    {
        proof {
            assert(rem.take(n as int + 1).drop_last() =~= rem.take(n as int));
            assert(rem.take(n as int + 1).last() == rem[n as int]);
        }
        add_node(&mut r, remote.key_at(n), remote.value_at(n), topic);
        n += 1;
    }
    assert(rem.take(n as int) =~= rem);
    r
}

fn add_node(
    r: &mut Table<SharedKey, Vec<SharedCandidate>>,
    node: &NodeId,
    groups: &Vec<RemoteSharedGroup>,
    topic: &str,
)
    ensures
        final(r).deep_view() == with_node(
            old(r).deep_view(),
            node.deep_view(),
            groups.deep_view(),
            topic@,
        ),
{
    let ghost base = r.deep_view();
    let ghost gs = groups.deep_view();
    let ghost nd = node.deep_view();
    let mut i: usize = 0;
    assert(gs.take(0) =~= Seq::empty());
    while i < groups.len()
        invariant
            i <= gs.len(),
            gs == groups.deep_view(),
            nd == node.deep_view(),
            r.deep_view() == with_node(base, nd, gs.take(i as int), topic@),
        decreases gs.len() - i,
    {
        proof {
            assert(gs.take(i as int + 1).drop_last() =~= gs.take(i as int));
            assert(gs.take(i as int + 1).last() == gs[i as int]);
        }
        let g = &groups[i];
        if topic_matches(g.filter.as_str(), topic) {
            let ghost mv = g.members.deep_view();
            let mut found: Vec<SharedCandidate> = Vec::new();
            let mut j: usize = 0;
            assert(found.deep_view() =~= remote_candidates(nd, mv).take(0));
            while j < g.members.len()
                invariant
                    j <= mv.len(),
                    mv == g.members.deep_view(),
                    nd == node.deep_view(),
                    found.deep_view() == remote_candidates(nd, mv).take(j as int),
                decreases mv.len() - j,
            {
                let (client, qos, online) = &g.members[j];
                push_item(
                    &mut found,
                    SharedCandidate {
                        node: Some(node.clone()),
                        client: client.clone(),
                        qos: *qos,
                        online: *online,
                    },
                );
                j += 1;
                assert(found.deep_view() =~= remote_candidates(nd, mv).take(j as int));
            }
            assert(found.deep_view() =~= remote_candidates(nd, mv));
            add_candidates(r, (g.group.clone(), g.filter.clone()), found);
        }
        i += 1;
    }
    assert(gs.take(i as int) =~= gs);
}

/// What a group looks for in a member, in order of preference.
#[derive(Debug, Clone, Copy, PartialEq, Eq, Structural)]
pub enum Want {
    /// One that is connected.
    Online,
    /// One of this node whose session is kept.
    Kept,
    /// One of another node.
    Remote,
}

/// Whether `c` is what is wanted; `kept` are the sessions of this node that are kept.
pub open spec fn wanted(w: Want, c: CandidateView, kept: Seq<(Seq<char>, u32)>) -> bool {
    match w {
        Want::Online => c.online,
        Want::Kept => c.node is None && bound(kept, c.client),
        Want::Remote => c.node is Some,
    }
}

/// The first wanted element of `s`.
pub open spec fn first_wanted(s: Seq<CandidateView>, w: Want, kept: Seq<(Seq<char>, u32)>) -> Option<
    CandidateView,
>
    decreases s.len(),
{
    if s.len() == 0 {
        None
    } else if wanted(w, s[0], kept) {
        Some(s[0])
    } else {
        first_wanted(s.skip(1), w, kept)
    }
}

/// `s` read from `start` on, around its end.
pub open spec fn rotated<T>(s: Seq<T>, start: int) -> Seq<T> {
    s.skip(start) + s.take(start)
}

/// The member that a message goes to, read from `start` on: a connected one; else one of this
/// node whose session is kept; else one of another node.
pub open spec fn chosen(
    candidates: Seq<CandidateView>,
    start: int,
    kept: Seq<(Seq<char>, u32)>,
) -> Option<CandidateView> {
    let s = rotated(candidates, start);
    if first_wanted(s, Want::Online, kept) is Some {
        first_wanted(s, Want::Online, kept)
    } else if first_wanted(s, Want::Kept, kept) is Some {
        first_wanted(s, Want::Kept, kept)
    } else {
        first_wanted(s, Want::Remote, kept)
    }
}

proof fn lemma_first_wanted(s: Seq<CandidateView>, w: Want, kept: Seq<(Seq<char>, u32)>, i: int)
    requires
        0 <= i <= s.len(),
        i < s.len() ==> wanted(w, s[i], kept),
        forall|j: int| 0 <= j < i ==> !wanted(w, #[trigger] s[j], kept),
    ensures
        first_wanted(s, w, kept) == (if i < s.len() {
            Some(s[i])
        } else {
            None
        }),
    decreases s.len(),
{
    if i > 0 {
        let t = s.skip(1);
        assert(!wanted(w, s[0], kept));
        assert forall|j: int| 0 <= j < i - 1 implies !wanted(w, #[trigger] t[j], kept) by {
            assert(t[j] == s[j + 1]);
        }
        if i < s.len() {
            assert(t[i - 1] == s[i]);
        }
        lemma_first_wanted(t, w, kept, i - 1);
    }
}

/// What [`first_wanted`] means: the first element that is wanted, if any is.
pub proof fn lemma_first_wanted_found(
    s: Seq<CandidateView>,
    w: Want,
    kept: Seq<(Seq<char>, u32)>,
)
    ensures
        match first_wanted(s, w, kept) {
            Some(c) => s.contains(c) && wanted(w, c, kept),
            None => forall|i: int| 0 <= i < s.len() ==> !wanted(w, #[trigger] s[i], kept),
        },
    decreases s.len(),
{
    if s.len() > 0 && !wanted(w, s[0], kept) {
        let t = s.skip(1);
        lemma_first_wanted_found(t, w, kept);
        match first_wanted(s, w, kept) {
            Some(c) => {
                let j = choose|j: int| 0 <= j < t.len() && t[j] == c;
                assert(s[j + 1] == c);
            },
            None => {
                assert forall|i: int| 0 <= i < s.len() implies !wanted(
                    w,
                    #[trigger] s[i],
                    kept,
                ) by {
                    if i > 0 {
                        assert(t[i - 1] == s[i]);
                    }
                }
            },
        }
    } else if s.len() > 0 {
        assert(s[0] == s.first());
    }
}

fn find_wanted(
    candidates: &Vec<SharedCandidate>,
    start: usize,
    w: Want,
    kept: &Table<ClientId, u32>,
) -> (r: Option<SharedCandidate>)
    requires
        start < candidates@.len(),
    ensures
        r.deep_view() == first_wanted(
            rotated(candidates.deep_view(), start as int),
            w,
            kept.deep_view(),
        ),
{
    let n: usize = candidates.len();
    let ghost s = rotated(candidates.deep_view(), start as int);
    let ghost kv = kept.deep_view();
    let mut k: usize = 0;
    while k < n
        invariant
            k <= n,
            n == candidates@.len(),
            start < n,
            s == rotated(candidates.deep_view(), start as int),
            kv == kept.deep_view(),
            forall|j: int| 0 <= j < k ==> !wanted(w, #[trigger] s[j], kv),
        decreases n - k,
    {
        let i: usize = if k < n - start {
            start + k
        } else {
            k - (n - start)
        };
        let c = &candidates[i];
        assert(s[k as int] == c.deep_view());
        let fits = match w {
            Want::Online => c.online,
            Want::Kept => c.node.is_none() && kept.contains_key(&c.client),
            Want::Remote => c.node.is_some(),
        };
        if fits {
            proof {
                lemma_first_wanted(s, w, kv, k as int);
            }
            return Some(c.clone());
        }
        k += 1;
    }
    proof {
        lemma_first_wanted(s, w, kv, k as int);
    }
    None
}

/// See [`chosen`].
pub fn choose_shared(
    candidates: &Vec<SharedCandidate>,
    start: usize,
    kept: &Table<ClientId, u32>,
) -> (r: Option<SharedCandidate>)
    requires
        start < candidates@.len(),
    ensures
        r.deep_view() == chosen(candidates.deep_view(), start as int, kept.deep_view()),
{
    let online = find_wanted(candidates, start, Want::Online, kept);
    if online.is_some() {
        return online;
    }
    let local = find_wanted(candidates, start, Want::Kept, kept);
    if local.is_some() {
        return local;
    }
    find_wanted(candidates, start, Want::Remote, kept)
}

/// Where the turn of a group stands, per group.
pub type Cursors = Seq<(KeyView, usize)>;

/// The candidate whose turn it is, out of `n`.
pub open spec fn turn(cursors: Cursors, key: KeyView, n: nat) -> int {
    (match lookup(cursors, key) {
        Some(c) => c as int,
        None => 0,
    }) % (n as int)
}

/// The member that is picked for the next message of a group.
pub open spec fn picked(
    cursors: Cursors,
    key: KeyView,
    candidates: Seq<CandidateView>,
    kept: Seq<(Seq<char>, u32)>,
) -> Option<CandidateView> {
    if candidates.len() == 0 {
        None
    } else {
        chosen(candidates, turn(cursors, key, candidates.len()), kept)
    }
}

/// The turns after a message of a group of `n` candidates.
pub open spec fn moved(cursors: Cursors, key: KeyView, n: nat) -> Cursors {
    if n == 0 {
        cursors
    } else {
        put(cursors, key, ((turn(cursors, key, n) + 1) % (n as int)) as usize)
    }
}

fn current_turn(cursors: &Table<SharedKey, usize>, key: &SharedKey, n: usize) -> (r: usize)
    requires
        n > 0,
    ensures
        r == turn(cursors.deep_view(), key.deep_view(), n as nat),
        r < n,
{
    let at: usize = match cursors.get(key) {
        Some(c) => *c,
        None => 0,
    };
    at % n
}

/// The member that [`select_shared`] would pick, with nobody's turn used up.
pub fn peek_shared(
    cursors: &Table<SharedKey, usize>,
    key: &SharedKey,
    candidates: &Vec<SharedCandidate>,
    kept: &Table<ClientId, u32>,
) -> (r: Option<SharedCandidate>)
    ensures
        r.deep_view() == picked(
            cursors.deep_view(),
            key.deep_view(),
            candidates.deep_view(),
            kept.deep_view(),
        ),
{
    if candidates.len() == 0 {
        return None;
    }
    let start: usize = current_turn(cursors, key, candidates.len());
    choose_shared(candidates, start, kept)
}

/// Picks a member and moves the turn on.
pub fn select_shared(
    cursors: &mut Table<SharedKey, usize>,
    key: &SharedKey,
    candidates: &Vec<SharedCandidate>,
    kept: &Table<ClientId, u32>,
) -> (r: Option<SharedCandidate>)
    ensures
        r.deep_view() == picked(
            old(cursors).deep_view(),
            key.deep_view(),
            candidates.deep_view(),
            kept.deep_view(),
        ),
        final(cursors).deep_view() == moved(
            old(cursors).deep_view(),
            key.deep_view(),
            candidates.deep_view().len(),
        ),
{
    let n: usize = candidates.len();
    if n == 0 {
        return None;
    }
    let start: usize = current_turn(cursors, key, n);
    let next: usize = (start + 1) % n;
    cursors.insert((key.0.clone(), key.1.clone()), next);
    choose_shared(candidates, start, kept)
}

/// A message of a group goes to a member of it; to a connected one if any is; and to nobody
/// only when no member is connected, none of this node has a kept session, and none lives on
/// another node.
pub proof fn law_choice(
    cursors: Cursors,
    key: KeyView,
    candidates: Seq<CandidateView>,
    kept: Seq<(Seq<char>, u32)>,
)
    ensures
        match picked(cursors, key, candidates, kept) {
            Some(c) => {
                &&& candidates.contains(c)
                &&& c.online || c.node is Some || bound(kept, c.client)
                &&& (exists|i: int| 0 <= i < candidates.len() && (#[trigger] candidates[i]).online)
                    ==> c.online
            },
            None => forall|i: int|
                0 <= i < candidates.len() ==> !(#[trigger] candidates[i]).online
                    && candidates[i].node is None && !bound(kept, candidates[i].client),
        },
{
    if candidates.len() > 0 {
        let n = candidates.len() as int;
        let start = turn(cursors, key, candidates.len());
        let raw = match lookup(cursors, key) {
            Some(c) => c as int,
            None => 0,
        };
        assert(0 <= raw % n < n) by (nonlinear_arith)
            requires
                n > 0,
        ;
        let s = rotated(candidates, start);
        lemma_first_wanted_found(s, Want::Online, kept);
        lemma_first_wanted_found(s, Want::Kept, kept);
        lemma_first_wanted_found(s, Want::Remote, kept);
        assert forall|i: int| 0 <= i < candidates.len() implies s.contains(
            #[trigger] candidates[i],
        ) by {
            if i >= start {
                assert(s[i - start] == candidates[i]);
            } else {
                assert(s[n - start + i] == candidates[i]);
            }
        }
        assert forall|j: int| 0 <= j < s.len() implies candidates.contains(#[trigger] s[j]) by {
            if j < n - start {
                assert(candidates[start + j] == s[j]);
            } else {
                assert(candidates[j - (n - start)] == s[j]);
            }
        }
        match picked(cursors, key, candidates, kept) {
            Some(c) => {},
            None => {
                assert forall|i: int| 0 <= i < candidates.len() implies !(
                #[trigger] candidates[i]).online && candidates[i].node is None && !bound(
                    kept,
                    candidates[i].client,
                ) by {
                    assert(s.contains(candidates[i]));
                    let j = choose|j: int| 0 <= j < s.len() && s[j] == candidates[i];
                    assert(!wanted(Want::Online, s[j], kept));
                    assert(!wanted(Want::Kept, s[j], kept));
                    assert(!wanted(Want::Remote, s[j], kept));
                }
            },
        }
        if exists|i: int| 0 <= i < candidates.len() && (#[trigger] candidates[i]).online {
            let i = choose|i: int|
                0 <= i < candidates.len() && (#[trigger] candidates[i]).online;
            assert(s.contains(candidates[i]));
            let j = choose|j: int| 0 <= j < s.len() && s[j] == candidates[i];
            assert(wanted(Want::Online, s[j], kept));
        }
    }
}

/// Two messages in a row start from neighbouring members of a group that did not change.
pub proof fn law_turns(cursors: Cursors, key: KeyView, n: nat)
    requires
        0 < n <= usize::MAX,
    ensures
        turn(moved(cursors, key, n), key, n) == (turn(cursors, key, n) + 1) % (n as int),
{
    let raw = match lookup(cursors, key) {
        Some(c) => c as int,
        None => 0,
    };
    let m = n as int;
    let next = (raw % m + 1) % m;
    assert(0 <= next < m && next % m == next) by (nonlinear_arith)
        requires
            m > 0,
            next == (raw % m + 1) % m,
    ;
    crate::assoc::lemma_lookup_put(cursors, key, next as usize, key);
}

/// The groups of this node, with who is connected, as the other nodes are told.
pub open spec fn snapshot<W>(g: Groups, online: Seq<(Seq<char>, W)>) -> Seq<SharedGroupWireView> {
    Seq::new(
        g.len(),
        |i: int|
            SharedGroupWireView {
                group: g[i].0.0,
                filter: g[i].0.1,
                members: Seq::new(
                    g[i].1.len(),
                    |j: int|
                        SharedMemberWireView {
                            client: g[i].1[j].0,
                            qos: level(g[i].1[j].1),
                            online: bound(online, g[i].1[j].0),
                        },
                ),
            },
    )
}

/// See [`snapshot`].
pub fn shared_snapshot<W: DeepView>(
    shared: &SharedSubscriptionTable,
    online: &Table<ClientId, W>,
) -> (r: Vec<SharedGroupWire>)
    ensures
        r.deep_view() == snapshot(shared.deep_view(), online.deep_view()),
{
    let ghost g = shared.deep_view();
    let ghost on = online.deep_view();
    let mut r: Vec<SharedGroupWire> = Vec::new();
    let mut i: usize = 0;
    assert(r.deep_view() =~= snapshot(g, on).take(0));
    while i < shared.groups.len()
        invariant
            i <= g.len(),
            g == shared.deep_view(),
            on == online.deep_view(),
            r.deep_view() == snapshot(g, on).take(i as int),
        decreases g.len() - i,
    {
        let key = shared.groups.key_at(i);
        let members = shared.groups.value_at(i);
        let ghost want = snapshot(g, on)[i as int].members;
        let mut out: Vec<SharedMemberWire> = Vec::new();
        let mut j: usize = 0;
        assert(out.deep_view() =~= want.take(0));
        while j < members.len()
            invariant
                i < g.len(),
                j <= g[i as int].1.len(),
                g == shared.deep_view(),
                on == online.deep_view(),
                members.deep_view() == g[i as int].1,
                want == snapshot(g, on)[i as int].members,
                out.deep_view() == want.take(j as int),
            decreases g[i as int].1.len() - j,
        {
            let client = members.key_at(j);
            push_item(
                &mut out,
                SharedMemberWire {
                    client: client.as_str().to_owned(),
                    qos: qos_num(*members.value_at(j)),
                    online: online.contains_key(client),
                },
            );
            j += 1;
            assert(out.deep_view() =~= want.take(j as int));
        }
        assert(want.take(j as int) =~= want);
        push_item(
            &mut r,
            SharedGroupWire { group: key.0.clone(), filter: key.1.clone(), members: out },
        );
        i += 1;
        assert(r.deep_view() =~= snapshot(g, on).take(i as int));
    }
    assert(snapshot(g, on).take(i as int) =~= snapshot(g, on));
    r
}

} // verus!
