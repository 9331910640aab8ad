//! Association lists: the one map type of the crate.
//!
//! A [`Table`] keeps its bindings in the order in which their keys first arrived. Its model
//! is the plain sequence of `(key, value)` pairs, so walking a table is walking a sequence,
//! and every operation below is described by one of the functions on sequences that this
//! module starts with.

use vstd::prelude::*;

verus! {

/// Index of the first binding of `k` in `s`, or `s.len()` when `k` is not bound.
pub open spec fn position<K, V>(s: Seq<(K, V)>, k: K) -> int
    decreases s.len(),
{
    if s.len() == 0 || s[0].0 == k {
        0
    } else {
        1 + position(s.skip(1), k)
    }
}

/// Whether `k` is bound in `s`.
pub open spec fn bound<K, V>(s: Seq<(K, V)>, k: K) -> bool {
    position(s, k) < s.len()
}

/// The value that `s` binds to `k`.
pub open spec fn lookup<K, V>(s: Seq<(K, V)>, k: K) -> Option<V> {
    if bound(s, k) {
        Some(s[position(s, k)].1)
    } else {
        None
    }
}

/// The value that `s` binds to `k`, or `d`.
pub open spec fn lookup_or<K, V>(s: Seq<(K, V)>, k: K, d: V) -> V {
    match lookup(s, k) {
        Some(v) => v,
        None => d,
    }
}

/// `s` with `k` bound to `v`: in place when `k` is bound already, else at the end.
pub open spec fn put<K, V>(s: Seq<(K, V)>, k: K, v: V) -> Seq<(K, V)> {
    if bound(s, k) {
        s.update(position(s, k), (k, v))
    } else {
        s.push((k, v))
    }
}

/// Tells the bindings of other keys than `k`.
pub open spec fn not_key<K, V>(k: K) -> spec_fn((K, V)) -> bool {
    |e: (K, V)| e.0 != k
}

/// Tells the bindings to other values than `v`.
pub open spec fn not_value<K, V>(v: V) -> spec_fn((K, V)) -> bool {
    |e: (K, V)| e.1 != v
}

/// Tells what is not `k`.
pub open spec fn not_item<K>(k: K) -> spec_fn(K) -> bool {
    |x: K| x != k
}

/// `s` without its bindings of `k`.
pub open spec fn cut<K, V>(s: Seq<(K, V)>, k: K) -> Seq<(K, V)> {
    s.filter(not_key(k))
}

/// `s` without its bindings to `v`.
pub open spec fn cut_value<K, V>(s: Seq<(K, V)>, v: V) -> Seq<(K, V)> {
    s.filter(not_value(v))
}

/// The keys of `s`, in order.
pub open spec fn keys<K, V>(s: Seq<(K, V)>) -> Seq<K> {
    Seq::new(s.len(), |i: int| s[i].0)
}

/// What [`position`] means: the first index at which `k` stands.
pub proof fn lemma_position<K, V>(s: Seq<(K, V)>, k: K)
    ensures
        0 <= position(s, k) <= s.len(),
        position(s, k) < s.len() ==> s[position(s, k)].0 == k,
        forall|j: int| 0 <= j < position(s, k) ==> (#[trigger] s[j]).0 != k,
    decreases s.len(),
{
    if s.len() > 0 && s[0].0 != k {
        lemma_position(s.skip(1), k);
        assert forall|j: int| 0 <= j < position(s, k) implies (#[trigger] s[j]).0 != k by {
            if j > 0 {
                assert(s.skip(1)[j - 1] == s[j]);
            }
        }
    }
}

/// An index that holds `k`, with no earlier one that does, is its [`position`].
pub proof fn lemma_position_at<K, V>(s: Seq<(K, V)>, k: K, i: int)
    requires
        0 <= i <= s.len(),
        i < s.len() ==> s[i].0 == k,
        forall|j: int| 0 <= j < i ==> (#[trigger] s[j]).0 != k,
    ensures
        position(s, k) == i,
{
    lemma_position(s, k);
    if position(s, k) < i {
        assert(s[position(s, k)].0 != k);
    }
    if i < position(s, k) {
        assert(s[i].0 != k);
    }
}

/// Binding a key makes it readable, and leaves every other key as it was.
pub broadcast proof fn lemma_lookup_put<K, V>(s: Seq<(K, V)>, k: K, v: V, q: K)
    ensures
        #[trigger] lookup(put(s, k, v), q) == (if q == k {
            Some(v)
        } else {
            lookup(s, q)
        }),
{
    lemma_position(s, k);
    lemma_position(s, q);
    let t = put(s, k, v);
    let i = position(s, q);
    if q == k {
        assert forall|j: int| 0 <= j < i implies (#[trigger] t[j]).0 != q by {
            assert(s[j].0 != q);
        }
        lemma_position_at(t, q, i);
    } else {
        assert forall|j: int| 0 <= j < i implies (#[trigger] t[j]).0 != q by {
            assert(s[j].0 != q);
        }
        if i < s.len() {
            lemma_position_at(t, q, i);
        } else {
            assert forall|j: int| 0 <= j < t.len() implies (#[trigger] t[j]).0 != q by {
                if j < s.len() {
                    assert(s[j].0 != q);
                }
            }
            lemma_position_at(t, q, t.len() as int);
        }
    }
}

/// Dropping a key unbinds it, and leaves every other key as it was.
pub broadcast proof fn lemma_lookup_cut<K, V>(s: Seq<(K, V)>, k: K, q: K)
    ensures
        #[trigger] lookup(cut(s, k), q) == (if q == k {
            None
        } else {
            lookup(s, q)
        }),
    decreases s.len(),
{
    let keep = not_key::<K, V>(k);
    reveal_with_fuel(Seq::filter, 2);
    if s.len() > 0 {
        let head = seq![s[0]];
        let tail = s.skip(1);
        assert(s =~= head + tail);
        Seq::filter_distributes_over_add(head, tail, keep);
        assert(head.drop_last() =~= Seq::empty());
        lemma_lookup_cut(tail, k, q);
        assert(cut(s, k) =~= head.filter(keep) + cut(tail, k));
        if keep(s[0]) {
            assert(head.filter(keep) =~= head);
            assert(cut(s, k).skip(1) =~= cut(tail, k));
            assert(cut(s, k)[0] == s[0]);
        } else {
            assert(head.filter(keep) =~= Seq::empty());
            assert(cut(s, k) =~= cut(tail, k));
        }
        lemma_position(tail, q);
        lemma_position(cut(tail, k), q);
        assert(position(s, q) < s.len() && s[0].0 != q ==> s[position(s, q)] == tail[position(tail, q)]);
        if keep(s[0]) && s[0].0 != q {
            assert(position(cut(s, k), q) == 1 + position(cut(tail, k), q));
        }
    }
}

/// Dropping an element that a filter rejects does not change what the filter keeps.
pub proof fn lemma_filter_remove<T>(s: Seq<T>, i: int, keep: spec_fn(T) -> bool)
    requires
        0 <= i < s.len(),
        !keep(s[i]),
    ensures
        s.remove(i).filter(keep) == s.filter(keep),
{
    let a = s.take(i);
    let b = s.skip(i + 1);
    let x = seq![s[i]];
    assert(s =~= a + (x + b));
    assert(s.remove(i) =~= a + b);
    Seq::filter_distributes_over_add(a, x + b, keep);
    Seq::filter_distributes_over_add(x, b, keep);
    Seq::filter_distributes_over_add(a, b, keep);
    assert(x.filter(keep) =~= Seq::<T>::empty()) by {
        reveal_with_fuel(Seq::filter, 2);
        assert(x.drop_last() =~= Seq::<T>::empty());
    }
    assert(x.filter(keep) + b.filter(keep) =~= b.filter(keep));
}

/// A filter that rejects nothing keeps the sequence.
pub proof fn lemma_filter_all<T>(s: Seq<T>, keep: spec_fn(T) -> bool)
    requires
        forall|i: int| 0 <= i < s.len() ==> keep(#[trigger] s[i]),
    ensures
        s.filter(keep) == s,
    decreases s.len(),
{
    reveal(Seq::filter);
    if s.len() > 0 {
        let t = s.drop_last();
        assert forall|i: int| 0 <= i < t.len() implies keep(#[trigger] t[i]) by {
            assert(t[i] == s[i]);
        }
        lemma_filter_all(t, keep);
        assert(t.push(s.last()) =~= s);
    }
}

/// `s` with `k` at the end, unless it is there already.
pub open spec fn adjoin<K>(s: Seq<K>, k: K) -> Seq<K> {
    if s.contains(k) {
        s
    } else {
        s.push(k)
    }
}

/// `s` without `k`.
pub open spec fn without<K>(s: Seq<K>, k: K) -> Seq<K> {
    s.filter(not_item(k))
}

/// Number of leading keys of `s` that are not above `k`.
pub open spec fn rank<K: RankedKey, V>(s: Seq<(K::V, V)>, k: K::V) -> int
    decreases s.len(),
{
    if s.len() == 0 || K::below(k, s[0].0) {
        0
    } else {
        1 + rank::<K, V>(s.skip(1), k)
    }
}

/// `s` with `k` bound to `v`: in place when `k` is bound already, else before the first key
/// above it.
pub open spec fn put_ranked<K: RankedKey, V>(s: Seq<(K::V, V)>, k: K::V, v: V) -> Seq<(K::V, V)> {
    if bound(s, k) {
        s.update(position(s, k), (k, v))
    } else {
        s.insert(rank::<K, V>(s, k), (k, v))
    }
}

/// What [`rank`] means: the index before which a key is bound.
pub proof fn lemma_rank_at<K: RankedKey, V>(s: Seq<(K::V, V)>, k: K::V, i: int)
    requires
        0 <= i <= s.len(),
        i < s.len() ==> K::below(k, s[i].0),
        forall|j: int| 0 <= j < i ==> !K::below(k, (#[trigger] s[j]).0),
    ensures
        rank::<K, V>(s, k) == i,
    decreases s.len(),
{
    if i > 0 {
        let t = s.skip(1);
        assert(!K::below(k, s[0].0));
        assert forall|j: int| 0 <= j < i - 1 implies !K::below(k, (#[trigger] t[j]).0) by {
            assert(t[j] == s[j + 1]);
        }
        if i < s.len() {
            assert(t[i - 1] == s[i]);
        }
        lemma_rank_at::<K, V>(t, k, i - 1);
    }
}

/// A key of a [`Table`]: comparable by what it stands for, and copyable.
pub trait Key: DeepView + Sized {
    /// Whether the two keys stand for the same thing.
    fn same(&self, other: &Self) -> (r: bool)
        ensures
            r == (self.deep_view() == other.deep_view()),
    ;

    /// Another key that stands for the same thing.
    fn copied(&self) -> (r: Self)
        ensures
            r.deep_view() == self.deep_view(),
    ;
}

/// A key with an order.
pub trait RankedKey: Key {
    /// Whether `a` comes before `b`.
    spec fn below(a: Self::V, b: Self::V) -> bool;

    /// Whether this key comes before `other`.
    fn is_below(&self, other: &Self) -> (r: bool)
        ensures
            r == Self::below(self.deep_view(), other.deep_view()),
    ;
}

/// A map from `K` to `V`, modelled by the sequence of its bindings.
#[derive(Debug)]
pub struct Table<K, V> {
    /// The bindings, in order of arrival.
    pub entries: Vec<(K, V)>,
}

impl<K: DeepView, V: DeepView> DeepView for Table<K, V> {
    type V = Seq<(K::V, V::V)>;

    open spec fn deep_view(&self) -> Seq<(K::V, V::V)> {
        self.entries.deep_view()
    }
}

impl<K: Key, V: DeepView> Table<K, V> {
    /// The table without bindings.
    pub fn new() -> (r: Self)
        ensures
            r.deep_view() == Seq::<(K::V, V::V)>::empty(),
    {
        let r = Table { entries: Vec::new() };
        assert(r.deep_view() =~= Seq::<(K::V, V::V)>::empty());
        r
    }

    /// Number of bindings.
    pub fn len(&self) -> (r: usize)
        ensures
            r == self.deep_view().len(),
    {
        self.entries.len()
    }

    /// Whether there is no binding.
    pub fn is_empty(&self) -> (r: bool)
        ensures
            r == (self.deep_view().len() == 0),
    {
        self.entries.len() == 0
    }

    fn find(&self, k: &K) -> (r: usize)
        ensures
            r == position(self.deep_view(), k.deep_view()),
            r <= self.entries@.len(),
    {
        let mut i: usize = 0;
        let ghost s = self.deep_view();
        let ghost q = k.deep_view();
        while i < self.entries.len()
            invariant
                i <= self.entries@.len(),
                s == self.deep_view(),
                q == k.deep_view(),
                forall|j: int| 0 <= j < i ==> (#[trigger] s[j]).0 != q,
            decreases self.entries@.len() - i,
        {
            if self.entries[i].0.same(k) {
                proof {
                    lemma_position_at(s, q, i as int);
                }
                return i;
            }
            assert(s[i as int].0 != q);
            i += 1;
        }
        proof {
            lemma_position_at(s, q, i as int);
        }
        i
    }

    /// Whether `k` is bound.
    pub fn contains_key(&self, k: &K) -> (r: bool)
        ensures
            r == bound(self.deep_view(), k.deep_view()),
    {
        self.find(k) < self.entries.len()
    }

    /// The value bound to `k`.
    pub fn get(&self, k: &K) -> (r: Option<&V>)
        ensures
            r.deep_view() == lookup(self.deep_view(), k.deep_view()),
    {
        let i: usize = self.find(k);
        if i < self.entries.len() {
            Some(&self.entries[i].1)
        } else {
            None
        }
    }

    /// The value bound to `k`, for changing it.
    pub fn get_mut(&mut self, k: &K) -> (r: Option<&mut V>)
        ensures
            match r {
                Some(v) => {
                    &&& lookup(old(self).deep_view(), k.deep_view()) == Some((*v).deep_view())
                    &&& final(self).deep_view() == put(
                        old(self).deep_view(),
                        k.deep_view(),
                        (*final(v)).deep_view(),
                    )
                },
                None => {
                    &&& lookup(old(self).deep_view(), k.deep_view()) is None
                    &&& final(self).deep_view() == old(self).deep_view()
                },
            },
    {
        let i: usize = self.find(k);
        if i < self.entries.len() {
            proof {
                lemma_position(self.deep_view(), k.deep_view());
            }
            Some(&mut self.entries[i].1)
        } else {
            None
        }
    }

    /// The value bound to `k`, for changing it; `default` is bound to it first where nothing
    /// is.
    pub fn entry_or(&mut self, k: &K, default: V) -> (r: &mut V)
        ensures
            (*r).deep_view() == lookup_or(
                old(self).deep_view(),
                k.deep_view(),
                default.deep_view(),
            ),
            final(self).deep_view() == put(
                old(self).deep_view(),
                k.deep_view(),
                (*final(r)).deep_view(),
            ),
    {
        let i: usize = self.find(k);
        proof {
            lemma_position(self.deep_view(), k.deep_view());
        }
        if i == self.entries.len() {
            self.entries.push((k.copied(), default));
        }
        &mut self.entries[i].1
    }

    /// Binds `k` to `v`.
    pub fn insert(&mut self, k: K, v: V)
        ensures
            final(self).deep_view() == put(old(self).deep_view(), k.deep_view(), v.deep_view()),
    {
        let i: usize = self.find(&k);
        if i < self.entries.len() {
            self.entries.set(i, (k, v));
        } else {
            self.entries.push((k, v));
        }
        assert(self.deep_view() =~= put(old(self).deep_view(), k.deep_view(), v.deep_view()));
    }

    /// Unbinds `k` and returns what it was bound to.
    pub fn remove(&mut self, k: &K) -> (r: Option<V>)
        ensures
            r.deep_view() == lookup(old(self).deep_view(), k.deep_view()),
            final(self).deep_view() == cut(old(self).deep_view(), k.deep_view()),
    {
        let ghost s = self.deep_view();
        let ghost q = k.deep_view();
        let ghost keep = not_key::<K::V, V::V>(q);
        let mut taken: Option<V> = None;
        let mut i: usize = self.find(k);
        proof {
            lemma_position(s, q);
        }
        if i < self.entries.len() {
            let (_, v) = self.entries.remove(i);
            assert(self.deep_view() =~= s.remove(i as int));
            proof {
                lemma_filter_remove(s, i as int, keep);
            }
            taken = Some(v);
        }
        while i < self.entries.len()
            invariant
                i <= self.entries@.len(),
                s == old(self).deep_view(),
                q == k.deep_view(),
                keep == not_key::<K::V, V::V>(q),
                taken.deep_view() == lookup(s, q),
                self.deep_view().filter(keep) == s.filter(keep),
                forall|j: int| 0 <= j < i ==> keep(#[trigger] self.deep_view()[j]),
            decreases self.entries@.len() - i,
        {
            if self.entries[i].0.same(k) {
                let ghost t = self.deep_view();
                let _dropped = self.entries.remove(i);
                assert(self.deep_view() =~= t.remove(i as int));
                proof {
                    lemma_filter_remove(t, i as int, keep);
                }
                assert forall|j: int| 0 <= j < i implies keep(#[trigger] self.deep_view()[j]) by {
                    assert(self.deep_view()[j] == t[j]);
                }
            } else {
                assert(keep(self.deep_view()[i as int]));
                i += 1;
            }
        }
        proof {
            lemma_filter_all(self.deep_view(), keep);
        }
        taken
    }

    /// The `i`-th key.
    pub fn key_at(&self, i: usize) -> (r: &K)
        requires
            i < self.deep_view().len(),
        ensures
            r.deep_view() == self.deep_view()[i as int].0,
    {
        &self.entries[i].0
    }

    /// The `i`-th value.
    pub fn value_at(&self, i: usize) -> (r: &V)
        requires
            i < self.deep_view().len(),
        ensures
            r.deep_view() == self.deep_view()[i as int].1,
    {
        &self.entries[i].1
    }

    /// All keys, in order.
    pub fn keys(&self) -> (r: Vec<K>)
        ensures
            r.deep_view() == keys(self.deep_view()),
    {
        let mut r: Vec<K> = Vec::new();
        let mut i: usize = 0;
        while i < self.entries.len()
            invariant
                i <= self.entries@.len(),
                r@.len() == i,
                forall|j: int| 0 <= j < i ==> (#[trigger] r@[j]).deep_view() == self.deep_view()[j].0,
            decreases self.entries@.len() - i,
        {
            r.push(self.entries[i].0.copied());
            i += 1;
        }
        assert(r.deep_view() =~= keys(self.deep_view()));
        r
    }
}

impl<K: RankedKey, V: DeepView> Table<K, V> {
    /// Binds `k` to `v`, keeping a table whose keys ascend in that order.
    pub fn insert_ranked(&mut self, k: K, v: V)
        ensures
            final(self).deep_view() == put_ranked::<K, V::V>(
                old(self).deep_view(),
                k.deep_view(),
                v.deep_view(),
            ),
    {
        let ghost s = self.deep_view();
        let at: usize = self.find(&k);
        if at < self.entries.len() {
            self.entries.set(at, (k, v));
            assert(self.deep_view() =~= s.update(at as int, (k.deep_view(), v.deep_view())));
            return;
        }
        let mut i: usize = 0;
        while i < self.entries.len() && !k.is_below(&self.entries[i].0)
            invariant
                i <= self.entries@.len(),
                s == self.deep_view(),
                forall|j: int| 0 <= j < i ==> !K::below(k.deep_view(), (#[trigger] s[j]).0),
            ensures
                i <= self.entries@.len(),
                s == self.deep_view(),
                forall|j: int| 0 <= j < i ==> !K::below(k.deep_view(), (#[trigger] s[j]).0),
                i < self.entries@.len() ==> K::below(k.deep_view(), s[i as int].0),
            decreases self.entries@.len() - i,
        {
            assert(!K::below(k.deep_view(), s[i as int].0));
            i += 1;
        }
        proof {
            lemma_rank_at::<K, V::V>(s, k.deep_view(), i as int);
        }
        self.entries.insert(i, (k, v));
        assert(self.deep_view() =~= s.insert(i as int, (k.deep_view(), v.deep_view())));
    }
}

impl<K: Key> Table<K, u64> {
    /// Drops every binding to `v`.
    pub fn remove_value(&mut self, v: u64)
        ensures
            final(self).deep_view() == cut_value(old(self).deep_view(), v),
    {
        let ghost s = self.deep_view();
        let ghost keep = not_value::<K::V, u64>(v);
        let mut i: usize = 0;
        while i < self.entries.len()
            invariant
                i <= self.entries@.len(),
                keep == not_value::<K::V, u64>(v),
                self.deep_view().filter(keep) == s.filter(keep),
                forall|j: int| 0 <= j < i ==> keep(#[trigger] self.deep_view()[j]),
            decreases self.entries@.len() - i,
        {
            if self.entries[i].1 == v {
                let ghost t = self.deep_view();
                let _dropped = self.entries.remove(i);
                assert(self.deep_view() =~= t.remove(i as int));
                proof {
                    lemma_filter_remove(t, i as int, keep);
                }
                assert forall|j: int| 0 <= j < i implies keep(#[trigger] self.deep_view()[j]) by {
                    assert(self.deep_view()[j] == t[j]);
                }
            } else {
                assert(keep(self.deep_view()[i as int]));
                i += 1;
            }
        }
        proof {
            lemma_filter_all(self.deep_view(), keep);
        }
    }
}

/// A set of `K`, modelled by the sequence of its members in order of arrival.
#[derive(Debug)]
pub struct Roster<K> {
    /// The members.
    pub items: Vec<K>,
}

impl<K: DeepView> DeepView for Roster<K> {
    type V = Seq<K::V>;

    open spec fn deep_view(&self) -> Seq<K::V> {
        self.items.deep_view()
    }
}

impl<K: Key> Roster<K> {
    /// The empty set.
    pub fn new() -> (r: Self)
        ensures
            r.deep_view() == Seq::<K::V>::empty(),
    {
        let r = Roster { items: Vec::new() };
        assert(r.deep_view() =~= Seq::<K::V>::empty());
        r
    }

    /// Number of members.
    pub fn len(&self) -> (r: usize)
        ensures
            r == self.deep_view().len(),
    {
        self.items.len()
    }

    /// Whether there is no member.
    pub fn is_empty(&self) -> (r: bool)
        ensures
            r == (self.deep_view().len() == 0),
    {
        self.items.len() == 0
    }

    /// The `i`-th member.
    pub fn at(&self, i: usize) -> (r: &K)
        requires
            i < self.deep_view().len(),
        ensures
            r.deep_view() == self.deep_view()[i as int],
    {
        &self.items[i]
    }

    /// Whether `k` is a member.
    pub fn contains(&self, k: &K) -> (r: bool)
        ensures
            r == self.deep_view().contains(k.deep_view()),
    {
        contains_key(&self.items, k)
    }

    /// Makes `k` a member.
    pub fn insert(&mut self, k: K)
        ensures
            final(self).deep_view() == adjoin(old(self).deep_view(), k.deep_view()),
    {
        if !self.contains(&k) {
            self.items.push(k);
            assert(self.deep_view() =~= old(self).deep_view().push(k.deep_view()));
        }
    }

    /// Drops `k`, and says whether it was a member.
    pub fn remove(&mut self, k: &K) -> (r: bool)
        ensures
            r == old(self).deep_view().contains(k.deep_view()),
            final(self).deep_view() == without(old(self).deep_view(), k.deep_view()),
    {
        let ghost s = self.deep_view();
        let ghost q = k.deep_view();
        let ghost keep = not_item::<K::V>(q);
        let present = self.contains(k);
        let mut i: usize = 0;
        while i < self.items.len()
            invariant
                i <= self.items@.len(),
                q == k.deep_view(),
                keep == not_item::<K::V>(q),
                self.deep_view().filter(keep) == s.filter(keep),
                forall|j: int| 0 <= j < i ==> keep(#[trigger] self.deep_view()[j]),
            decreases self.items@.len() - i,
        {
            if self.items[i].same(k) {
                let ghost t = self.deep_view();
                let _dropped = self.items.remove(i);
                assert(self.deep_view() =~= t.remove(i as int));
                proof {
                    lemma_filter_remove(t, i as int, keep);
                }
                assert forall|j: int| 0 <= j < i implies keep(#[trigger] self.deep_view()[j]) by {
                    assert(self.deep_view()[j] == t[j]);
                }
            } else {
                assert(keep(self.deep_view()[i as int]));
                i += 1;
            }
        }
        proof {
            lemma_filter_all(self.deep_view(), keep);
        }
        present
    }
}

/// Appends `x`.
pub fn push_item<T: DeepView>(items: &mut Vec<T>, x: T)
    ensures
        final(items).deep_view() == old(items).deep_view().push(x.deep_view()),
{
    items.push(x);
    assert(items.deep_view() =~= old(items).deep_view().push(x.deep_view()));
}

/// Whether `k` is among `items`.
pub fn contains_key<K: Key>(items: &Vec<K>, k: &K) -> (r: bool)
    ensures
        r == items.deep_view().contains(k.deep_view()),
{
    let mut i: usize = 0;
    while i < items.len()
        invariant
            i <= items@.len(),
            forall|j: int| 0 <= j < i ==> (#[trigger] items.deep_view()[j]) != k.deep_view(),
        decreases items@.len() - i,
    {
        if items[i].same(k) {
            assert(items.deep_view()[i as int] == k.deep_view());
            return true;
        }
        assert(items.deep_view()[i as int] != k.deep_view());
        i += 1;
    }
    false
}

/// A vector that stands for the same sequence.
pub fn copy_keys<K: Key>(items: &Vec<K>) -> (r: Vec<K>)
    ensures
        r.deep_view() == items.deep_view(),
{
    let mut r: Vec<K> = Vec::new();
    let mut i: usize = 0;
    while i < items.len()
        invariant
            i <= items@.len(),
            r@.len() == i,
            forall|j: int| 0 <= j < i ==> (#[trigger] r@[j]).deep_view() == items@[j].deep_view(),
        decreases items@.len() - i,
    {
        r.push(items[i].copied());
        i += 1;
    }
    assert(r.deep_view() =~= items.deep_view());
    r
}

impl Key for u64 {
    fn same(&self, other: &Self) -> (r: bool) {
        *self == *other
    }

    fn copied(&self) -> (r: Self) {
        *self
    }
}

impl RankedKey for u64 {
    open spec fn below(a: u64, b: u64) -> bool {
        a < b
    }

    fn is_below(&self, other: &Self) -> (r: bool) {
        *self < *other
    }
}

impl Key for u16 {
    fn same(&self, other: &Self) -> (r: bool) {
        *self == *other
    }

    fn copied(&self) -> (r: Self) {
        *self
    }
}

impl RankedKey for u16 {
    open spec fn below(a: u16, b: u16) -> bool {
        a < b
    }

    fn is_below(&self, other: &Self) -> (r: bool) {
        *self < *other
    }
}

impl<A: Key, B: Key> Key for (A, B) {
    fn same(&self, other: &Self) -> (r: bool) {
        self.0.same(&other.0) && self.1.same(&other.1)
    }

    fn copied(&self) -> (r: Self) {
        (self.0.copied(), self.1.copied())
    }
}

impl<A: RankedKey, B: RankedKey> RankedKey for (A, B) {
    open spec fn below(a: (A::V, B::V), b: (A::V, B::V)) -> bool {
        A::below(a.0, b.0) || (a.0 == b.0 && B::below(a.1, b.1))
    }

    fn is_below(&self, other: &Self) -> (r: bool) {
        self.0.is_below(&other.0) || (self.0.same(&other.0) && self.1.is_below(&other.1))
    }
}

/// Dropping a key that is bound leaves fewer bindings; dropping one never adds any.
pub proof fn lemma_cut_len<K, V>(s: Seq<(K, V)>, k: K)
    ensures
        cut(s, k).len() <= s.len(),
        bound(s, k) ==> cut(s, k).len() < s.len(),
    decreases s.len(),
{
    reveal(Seq::filter);
    if s.len() > 0 {
        let t = s.drop_last();
        lemma_cut_len(t, k);
        if bound(s, k) {
            lemma_position(s, k);
            lemma_position(t, k);
            let i = position(s, k);
            if i < t.len() {
                assert(t[i] == s[i]);
                if position(t, k) == t.len() {
                    assert(t[i].0 != k);
                }
            }
        }
    }
}

/// A [`rank`] is a place in the sequence.
pub proof fn lemma_rank_bound<K: RankedKey, V>(s: Seq<(K::V, V)>, k: K::V)
    ensures
        0 <= rank::<K, V>(s, k) <= s.len(),
    decreases s.len(),
{
    if s.len() > 0 && !K::below(k, s[0].0) {
        lemma_rank_bound::<K, V>(s.skip(1), k);
    }
}

/// Binding a key in order adds at most one binding.
pub proof fn lemma_put_ranked_len<K: RankedKey, V>(s: Seq<(K::V, V)>, k: K::V, v: V)
    ensures
        put_ranked::<K, V>(s, k, v).len() == s.len() + (if bound(s, k) {
            0nat
        } else {
            1
        }),
{
    lemma_position(s, k);
    lemma_rank_bound::<K, V>(s, k);
}

/// What is bound where a key is bound in its rank.
pub proof fn lemma_lookup_ranked<K: RankedKey, V>(s: Seq<(K::V, V)>, k: K::V, v: V, q: K::V)
    ensures
        lookup(put_ranked::<K, V>(s, k, v), q) == (if q == k {
            Some(v)
        } else {
            lookup(s, q)
        }),
{
    lemma_position(s, k);
    lemma_position(s, q);
    lemma_rank_bound::<K, V>(s, k);
    let t = put_ranked::<K, V>(s, k, v);
    let n = rank::<K, V>(s, k);
    let p = position(s, q);
    if bound(s, k) {
        lemma_lookup_put(s, k, v, q);
    } else if q == k {
        assert forall|j: int| 0 <= j < n implies (#[trigger] t[j]).0 != k by {
            assert(t[j] == s[j]);
        }
        lemma_position_at(t, k, n);
    } else {
        let i = if p < n {
            p
        } else {
            p + 1
        };
        assert forall|j: int| 0 <= j < i implies (#[trigger] t[j]).0 != q by {
            if j < n {
                assert(t[j] == s[j]);
            } else if j > n {
                assert(t[j] == s[j - 1]);
            }
        }
        if p < s.len() {
            assert(t[i] == s[p]);
        }
        lemma_position_at(t, q, i);
    }
}

} // verus!
