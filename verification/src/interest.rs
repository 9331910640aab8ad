//! Which of the other nodes want a topic.

use vstd::prelude::*;

use crate::assoc::{adjoin, not_item, push_item, without, Roster};
use crate::ids::{ClientId, NodeId};
use crate::subscriptions::{law_matching, matching, not_of, without_client, Pairs,
    SubscriptionTable};
use crate::topic::matches_topic;

verus! {

/// The filters of every node, and the nodes that told theirs.
#[derive(Debug)]
pub struct InterestIndex {
    /// Who wants what; a node stands where a client would.
    pub by_filter: SubscriptionTable,
    /// The nodes that told their interest, be it empty.
    pub nodes: Roster<NodeId>,
}

/// Model of [`InterestIndex`].
#[verifier::ext_equal]
pub struct InterestView {
    pub pairs: Pairs,
    pub nodes: Seq<Seq<char>>,
}

impl DeepView for InterestIndex {
    type V = InterestView;

    open spec fn deep_view(&self) -> InterestView {
        InterestView { pairs: self.by_filter.deep_view(), nodes: self.nodes.deep_view() }
    }
}

/// `s` with every one of `filters` for `node`.
pub open spec fn with_filters(s: Pairs, node: Seq<char>, filters: Seq<Seq<char>>) -> Pairs
    decreases filters.len(),
{
    if filters.len() == 0 {
        s
    } else {
        adjoin(with_filters(s, node, filters.drop_last()), (filters.last(), node))
    }
}

impl InterestView {
    /// The interest after `node` told it anew.
    pub open spec fn replace(self, node: Seq<char>, filters: Seq<Seq<char>>) -> InterestView {
        InterestView {
            pairs: with_filters(without_client(self.pairs, node), node, filters),
            nodes: adjoin(self.nodes, node),
        }
    }

    /// The interest without that of `node`.
    pub open spec fn remove(self, node: Seq<char>) -> InterestView {
        InterestView {
            pairs: without_client(self.pairs, node),
            nodes: without(self.nodes, node),
        }
    }

    /// The nodes that want `topic`.
    pub open spec fn wanting(self, topic: Seq<char>) -> Seq<Seq<char>> {
        matching(self.pairs, topic)
    }
}

impl InterestIndex {
    /// An index that knows of nobody.
    pub fn new() -> (r: Self)
        ensures
            r.deep_view() == (InterestView { pairs: Seq::empty(), nodes: Seq::empty() }),
    {
        InterestIndex { by_filter: SubscriptionTable::new(), nodes: Roster::new() }
    }

    /// A node in the place of a client.
    pub fn key(node: &NodeId) -> (r: ClientId)
        ensures
            r.deep_view() == node.deep_view(),
    {
        ClientId::new(node.0.as_str())
    }

    /// Puts `filters` in the place of whatever `node` told before.
    pub fn replace(&mut self, node: NodeId, filters: Vec<String>)
        ensures
            final(self).deep_view() == old(self).deep_view().replace(
                node.deep_view(),
                filters.deep_view(),
            ),
    {
        let ghost fs = filters.deep_view();
        let key = Self::key(&node);
        self.by_filter.remove_client(&key);
        let ghost base = self.by_filter.deep_view();
        let mut i: usize = 0;
        assert(fs.take(0) =~= Seq::empty());
        while i < filters.len()
            invariant
                i <= filters@.len(),
                fs == filters.deep_view(),
                key.deep_view() == node.deep_view(),
                self.nodes == old(self).nodes,
                self.by_filter.deep_view() == with_filters(
                    base,
                    node.deep_view(),
                    fs.take(i as int),
                ),
            decreases filters@.len() - i,
        {
            proof {
                assert(fs.take(i as int + 1).drop_last() =~= fs.take(i as int));
                assert(fs.take(i as int + 1).last() == fs[i as int]);
            }
            self.by_filter.subscribe(key.clone(), filters[i].clone());
            i += 1;
        }
        assert(fs.take(i as int) =~= fs);
        self.nodes.insert(node);
    }

    /// Drops the interest of `node`, and says whether it had told any.
    pub fn remove(&mut self, node: &NodeId) -> (r: bool)
        ensures
            r == old(self).deep_view().nodes.contains(node.deep_view()),
            final(self).deep_view() == old(self).deep_view().remove(node.deep_view()),
    {
        let key = Self::key(node);
        self.by_filter.remove_client(&key);
        self.nodes.remove(node)
    }

    /// The nodes that want `topic`, each once.
    pub fn nodes_matching(&self, topic: &str) -> (r: Vec<NodeId>)
        ensures
            r.deep_view() == self.deep_view().wanting(topic@),
    {
        let found = self.by_filter.matching_clients(topic);
        let ghost f = found.deep_view();
        let mut r: Vec<NodeId> = Vec::new();
        let mut i: usize = 0;
        assert(r.deep_view() =~= f.take(0));
        while i < found.len()
            invariant
                i <= found@.len(),
                f == found.deep_view(),
                r.deep_view() == f.take(i as int),
            decreases found@.len() - i,
        {
            push_item(&mut r, NodeId::new(found[i].as_str()));
            i += 1;
            assert(r.deep_view() =~= f.take(i as int));
        }
        assert(f.take(i as int) =~= f);
        r
    }

    /// Fills `out` with the nodes that want `topic`, each once; what it held before is gone.
    pub fn matching_into(&self, topic: &str, out: &mut Vec<ClientId>)
        ensures
            final(out).deep_view() == self.deep_view().wanting(topic@),
    {
        out.clear();
        self.by_filter.matching_into(topic, out);
    }

    /// Whether `node` is in a set that [`InterestIndex::matching_into`] filled.
    pub fn contains(set: &Vec<ClientId>, node: &NodeId) -> (r: bool)
        ensures
            r == set.deep_view().contains(node.deep_view()),
    {
        let mut i: usize = 0;
        while i < set.len()
            invariant
                i <= set@.len(),
                forall|j: int| 0 <= j < i ==> (#[trigger] set.deep_view()[j]) != node.deep_view(),
            decreases set@.len() - i,
        {
            if *set[i].0 == node.0 {
                assert(set.deep_view()[i as int] == node.deep_view());
                return true;
            }
            assert(set.deep_view()[i as int] != node.deep_view());
            i += 1;
        }
        false
    }

    /// Whether `node` told any interest.
    pub fn has_node(&self, node: &NodeId) -> (r: bool)
        ensures
            r == self.deep_view().nodes.contains(node.deep_view()),
    {
        self.nodes.contains(node)
    }
}

proof fn lemma_with_filters(s: Pairs, node: Seq<char>, filters: Seq<Seq<char>>, e: (Seq<char>, Seq<char>))
    ensures
        with_filters(s, node, filters).contains(e) <==> (s.contains(e) || (e.1 == node
            && filters.contains(e.0))),
    decreases filters.len(),
{
    if filters.len() > 0 {
        let fs = filters.drop_last();
        let rest = with_filters(s, node, fs);
        lemma_with_filters(s, node, fs, e);
        let x = (filters.last(), node);
        let all = adjoin(rest, x);
        assert(all.contains(e) <==> rest.contains(e) || e == x) by {
            if !rest.contains(x) {
                assert(all[rest.len() as int] == x);
                if rest.contains(e) {
                    let j = choose|j: int| 0 <= j < rest.len() && rest[j] == e;
                    assert(all[j] == e);
                }
            }
        }
        assert(filters.contains(e.0) <==> fs.contains(e.0) || e.0 == filters.last()) by {
            if fs.contains(e.0) {
                let j = choose|j: int| 0 <= j < fs.len() && fs[j] == e.0;
                assert(filters[j] == e.0);
            }
            if filters.contains(e.0) && e.0 != filters.last() {
                let j = choose|j: int| 0 <= j < filters.len() && filters[j] == e.0;
                assert(fs[j] == e.0);
            }
            assert(filters[filters.len() - 1] == filters.last());
        }
    }
}

proof fn lemma_filter_contains<T>(s: Seq<T>, keep: spec_fn(T) -> bool, e: T)
    ensures
        s.filter(keep).contains(e) <==> s.contains(e) && keep(e),
    decreases s.len(),
{
    reveal(Seq::filter);
    if s.len() > 0 {
        let t = s.drop_last();
        lemma_filter_contains(t, keep, e);
        if s.filter(keep).contains(e) {
            if t.filter(keep).contains(e) {
                let j = choose|j: int| 0 <= j < t.len() && t[j] == e;
                assert(s[j] == e);
            } else {
                assert(e == s.last());
                assert(s[s.len() - 1] == e);
            }
        }
        if s.contains(e) && keep(e) {
            let j = choose|j: int| 0 <= j < s.len() && s[j] == e;
            if j < t.len() {
                assert(t[j] == e);
                let k = choose|k: int| 0 <= k < t.filter(keep).len() && t.filter(keep)[k] == e;
                assert(s.filter(keep)[k] == e);
            } else {
                assert(s.filter(keep)[s.filter(keep).len() - 1] == e);
            }
        }
    }
}

proof fn lemma_wanting(s: Pairs, topic: Seq<char>, node: Seq<char>)
    ensures
        matching(s, topic).contains(node) <==> exists|f: Seq<char>|
            #![trigger matches_topic(f, topic)]
            s.contains((f, node)) && matches_topic(f, topic),
{
    law_matching(s, topic, node);
    if matching(s, topic).contains(node) {
        let i = choose|i: int|
            0 <= i < s.len() && (#[trigger] s[i]).1 == node && matches_topic(s[i].0, topic);
        assert(s[i] == (s[i].0, node));
        assert(s.contains((s[i].0, node)) && matches_topic(s[i].0, topic));
    }
    if exists|f: Seq<char>|
        #![trigger matches_topic(f, topic)]
        s.contains((f, node)) && matches_topic(f, topic) {
        let f = choose|f: Seq<char>|
            #![trigger matches_topic(f, topic)]
            s.contains((f, node)) && matches_topic(f, topic);
        let i = choose|i: int| 0 <= i < s.len() && s[i] == (f, node);
        assert(s[i].1 == node && matches_topic(s[i].0, topic));
    }
}

/// After a node told its interest it wants a topic exactly when one of the filters it told
/// admits the topic, whatever it told before; and nothing changes for any other node.
pub proof fn law_replace(
    v: InterestView,
    node: Seq<char>,
    filters: Seq<Seq<char>>,
    topic: Seq<char>,
    other: Seq<char>,
)
    ensures
        v.replace(node, filters).wanting(topic).contains(node) <==> exists|i: int|
            0 <= i < filters.len() && matches_topic(#[trigger] filters[i], topic),
        other != node ==> (v.replace(node, filters).wanting(topic).contains(other)
            <==> v.wanting(topic).contains(other)),
        v.replace(node, filters).nodes.contains(node),
{
    let base = without_client(v.pairs, node);
    let all = with_filters(base, node, filters);
    lemma_wanting(all, topic, node);
    assert forall|f: Seq<char>| all.contains((f, node)) <==> filters.contains(f) by {
        lemma_with_filters(base, node, filters, (f, node));
        lemma_filter_contains(v.pairs, not_of(node), (f, node));
    }
    if exists|i: int| 0 <= i < filters.len() && matches_topic(#[trigger] filters[i], topic) {
        let i = choose|i: int| 0 <= i < filters.len() && matches_topic(#[trigger] filters[i], topic);
        lemma_with_filters(base, node, filters, (filters[i], node));
        assert(filters.contains(filters[i]));
        assert(all.contains((filters[i], node)));
    }
    if matching(all, topic).contains(node) {
        let f = choose|f: Seq<char>|
            #![trigger matches_topic(f, topic)]
            all.contains((f, node)) && matches_topic(f, topic);
        lemma_with_filters(base, node, filters, (f, node));
        lemma_filter_contains(v.pairs, not_of(node), (f, node));
        let i = choose|i: int| 0 <= i < filters.len() && filters[i] == f;
        assert(matches_topic(filters[i], topic));
    }
    if other != node {
        lemma_wanting(all, topic, other);
        lemma_wanting(v.pairs, topic, other);
        assert forall|f: Seq<char>| all.contains((f, other)) <==> v.pairs.contains((f, other)) by {
            lemma_with_filters(base, node, filters, (f, other));
            lemma_filter_contains(v.pairs, not_of(node), (f, other));
        }
    }
    let ns = adjoin(v.nodes, node);
    if !v.nodes.contains(node) {
        assert(ns[v.nodes.len() as int] == node);
    }
}

/// A node whose interest was dropped wants nothing; and nothing changes for any other node.
pub proof fn law_remove(v: InterestView, node: Seq<char>, topic: Seq<char>, other: Seq<char>)
    ensures
        !v.remove(node).wanting(topic).contains(node),
        !v.remove(node).nodes.contains(node),
        other != node ==> (v.remove(node).wanting(topic).contains(other) <==> v.wanting(
            topic,
        ).contains(other)),
{
    let base = without_client(v.pairs, node);
    lemma_wanting(base, topic, node);
    assert forall|f: Seq<char>| !base.contains((f, node)) by {
        lemma_filter_contains(v.pairs, not_of(node), (f, node));
    }
    if other != node {
        lemma_wanting(base, topic, other);
        lemma_wanting(v.pairs, topic, other);
        assert forall|f: Seq<char>| base.contains((f, other)) <==> v.pairs.contains((f, other)) by {
            lemma_filter_contains(v.pairs, not_of(node), (f, other));
        }
    }
    lemma_filter_contains(v.nodes, not_item(node), node);
}

} // verus!
