//! Topic names and topic filters.

use vstd::prelude::*;

use crate::text::letters;

verus! {

/// Index of the first `/` in `s`, or `s.len()`.
pub open spec fn slash(s: Seq<char>) -> int
    decreases s.len(),
{
    if s.len() == 0 || s[0] == '/' {
        0
    } else {
        1 + slash(s.skip(1))
    }
}

/// What [`slash`] means: the first index at which a `/` stands.
pub proof fn lemma_slash(s: Seq<char>)
    ensures
        0 <= slash(s) <= s.len(),
        slash(s) < s.len() ==> s[slash(s)] == '/',
        forall|j: int| 0 <= j < slash(s) ==> #[trigger] s[j] != '/',
    decreases s.len(),
{
    if s.len() > 0 && s[0] != '/' {
        lemma_slash(s.skip(1));
        assert forall|j: int| 0 <= j < slash(s) implies #[trigger] s[j] != '/' by {
            if j > 0 {
                assert(s.skip(1)[j - 1] == s[j]);
            }
        }
    }
}

proof fn lemma_slash_at(s: Seq<char>, i: int)
    requires
        0 <= i <= s.len(),
        i < s.len() ==> s[i] == '/',
        forall|j: int| 0 <= j < i ==> #[trigger] s[j] != '/',
    ensures
        slash(s) == i,
{
    lemma_slash(s);
    if slash(s) < i {
        assert(s[slash(s)] != '/');
    }
    if i < slash(s) {
        assert(s[i] != '/');
    }
}

/// The levels of a topic or filter: the pieces between its slashes.
pub open spec fn levels(s: Seq<char>) -> Seq<Seq<char>>
    decreases s.len(),
{
    if slash(s) >= s.len() {
        seq![s]
    } else {
        proof {
            lemma_slash(s);
        }
        seq![s.take(slash(s))] + levels(s.skip(slash(s) + 1))
    }
}

/// Whether the levels of a filter admit the levels of a topic: `+` stands for any one level,
/// a final `#` for any number of levels, none among them.
pub open spec fn levels_match(filter: Seq<Seq<char>>, topic: Seq<Seq<char>>) -> bool
    decreases filter.len(),
{
    if filter.len() == 0 {
        topic.len() == 0
    } else if filter[0] == seq!['#'] {
        filter.len() == 1
    } else if topic.len() == 0 {
        false
    } else {
        (filter[0] == seq!['+'] || filter[0] == topic[0]) && levels_match(
            filter.skip(1),
            topic.skip(1),
        )
    }
}

/// Whether `s` starts with a wildcard.
pub open spec fn wild_start(s: Seq<char>) -> bool {
    s.len() > 0 && (s[0] == '+' || s[0] == '#')
}

/// Whether `filter` admits `topic`. A topic that starts with `$` is out of reach of a filter
/// that starts with a wildcard.
pub open spec fn matches_topic(filter: Seq<char>, topic: Seq<char>) -> bool {
    &&& !(topic.len() > 0 && topic[0] == '$' && wild_start(filter))
    &&& levels_match(levels(filter), levels(topic))
}

/// Whether a level is free of wildcards, or is one.
pub open spec fn well_formed_level(level: Seq<char>, last: bool) -> bool {
    &&& level.contains('+') ==> level == seq!['+']
    &&& level.contains('#') ==> level == seq!['#'] && last
}

/// Whether `filter` may be subscribed to: it is not empty, a wildcard stands alone in its
/// level, and `#` only in the last one.
pub open spec fn filter_is_valid(filter: Seq<char>) -> bool {
    &&& filter.len() > 0
    &&& forall|i: int|
        0 <= i < levels(filter).len() ==> well_formed_level(
            #[trigger] levels(filter)[i],
            i == levels(filter).len() - 1,
        )
}

/// The word before the group of a shared subscription.
pub open spec fn share_mark() -> Seq<char> {
    seq!['$', 's', 'h', 'a', 'r', 'e', '/']
}

/// The group and the inner filter of a shared subscription `$share/<group>/<filter>`.
pub open spec fn share_parts(filter: Seq<char>) -> Option<(Seq<char>, Seq<char>)> {
    let rest = filter.skip(7);
    if filter.len() < 7 || filter.take(7) != share_mark() {
        None
    } else if slash(rest) == 0 || slash(rest) >= rest.len() - 1 {
        None
    } else {
        Some((rest.take(slash(rest)), rest.skip(slash(rest) + 1)))
    }
}

/// The filter that decides which topics a subscription admits: the inner one of a shared
/// subscription, else the filter itself.
pub open spec fn admitting_filter(filter: Seq<char>) -> Seq<char> {
    match share_parts(filter) {
        Some((_, inner)) => inner,
        None => filter,
    }
}

fn same_letters(a: &Vec<char>, b: &Vec<char>) -> (r: bool)
    ensures
        r == (a@ == b@),
{
    if a.len() != b.len() {
        return false;
    }
    let mut i: usize = 0;
    while i < a.len()
        invariant
            i <= a@.len(),
            a@.len() == b@.len(),
            forall|j: int| 0 <= j < i ==> #[trigger] a@[j] == b@[j],
        decreases a@.len() - i,
    {
        if a[i] != b[i] {
            return false;
        }
        i += 1;
    }
    assert(a@ =~= b@);
    true
}

fn is_only(a: &Vec<char>, c: char) -> (r: bool)
    ensures
        r == (a@ == seq![c]),
{
    let r = a.len() == 1 && a[0] == c;
    assert(r ==> a@ =~= seq![c]);
    r
}

/// See [`levels`].
fn split_levels(s: &Vec<char>) -> (r: Vec<Vec<char>>)
    ensures
        r.deep_view() == levels(s@),
{
    let mut r: Vec<Vec<char>> = Vec::new();
    let mut piece: Vec<char> = Vec::new();
    let mut i: usize = 0;
    let ghost mut from: int = 0;
    assert(s@.skip(0) =~= s@);
    assert(r.deep_view() + levels(s@) =~= levels(s@));
    while i < s.len()
        invariant
            i <= s@.len(),
            0 <= from <= i,
            piece@ == s@.subrange(from, i as int),
            forall|j: int| from <= j < i ==> #[trigger] s@[j] != '/',
            r.deep_view() + levels(s@.skip(from)) == levels(s@),
        decreases s@.len() - i,
    {
        if s[i] == '/' {
            let ghost t = s@.skip(from);
            let ghost before = r.deep_view();
            let mut full: Vec<char> = Vec::new();
            std::mem::swap(&mut full, &mut piece);
            proof {
                let n = i as int - from;
                assert forall|j: int| 0 <= j < n implies #[trigger] t[j] != '/' by {
                    assert(t[j] == s@[from + j]);
                }
                lemma_slash_at(t, n);
                assert(t.take(n) =~= full@);
                assert(t.skip(n + 1) =~= s@.skip(i as int + 1));
                from = i as int + 1;
            }
            r.push(full);
            assert(full.deep_view() =~= full@);
            assert(r.deep_view() =~= before.push(full@));
            assert(r.deep_view() + levels(s@.skip(from)) =~= before + (seq![full@] + levels(
                s@.skip(from),
            )));
            i += 1;
            assert(piece@ =~= s@.subrange(from, i as int));
        } else {
            piece.push(s[i]);
            i += 1;
            assert(piece@ =~= s@.subrange(from, i as int));
        }
    }
    let ghost t = s@.skip(from);
    let ghost before = r.deep_view();
    proof {
        assert forall|j: int| 0 <= j < t.len() implies #[trigger] t[j] != '/' by {
            assert(t[j] == s@[from + j]);
        }
        lemma_slash_at(t, t.len() as int);
        assert(piece@ =~= t);
    }
    r.push(piece);
    assert(piece.deep_view() =~= piece@);
    assert(r.deep_view() =~= before + seq![t]);
    r
}

/// See [`matches_topic`].
pub fn topic_matches(filter: &str, topic: &str) -> (r: bool)
    ensures
        r == matches_topic(filter@, topic@),
{
    let fc = letters(filter);
    let tc = letters(topic);
    if tc.len() > 0 && tc[0] == '$' && fc.len() > 0 && (fc[0] == '+' || fc[0] == '#') {
        return false;
    }
    let f = split_levels(&fc);
    let t = split_levels(&tc);
    let ghost fl = levels(filter@);
    let ghost tl = levels(topic@);
    let mut i: usize = 0;
    assert(fl.skip(0) =~= fl);
    assert(tl.skip(0) =~= tl);
    while i < f.len()
        invariant
            i <= f@.len(),
            i <= t@.len(),
            f.deep_view() == fl,
            t.deep_view() == tl,
            fl == levels(filter@),
            tl == levels(topic@),
            !(topic@.len() > 0 && topic@[0] == '$' && wild_start(filter@)),
            levels_match(fl, tl) == levels_match(fl.skip(i as int), tl.skip(i as int)),
        decreases f@.len() - i,
    {
        let ghost fr = fl.skip(i as int);
        let ghost tr = tl.skip(i as int);
        assert(f@[i as int].deep_view() =~= f@[i as int]@);
        assert(fr[0] == f@[i as int]@);
        if is_only(&f[i], '#') {
            return i == f.len() - 1;
        }
        if i >= t.len() {
            return false;
        }
        assert(t@[i as int].deep_view() =~= t@[i as int]@);
        assert(tr[0] == t@[i as int]@);
        if !is_only(&f[i], '+') && !same_letters(&f[i], &t[i]) {
            return false;
        }
        assert(fr.skip(1) =~= fl.skip(i as int + 1));
        assert(tr.skip(1) =~= tl.skip(i as int + 1));
        i += 1;
    }
    i == t.len()
}

fn holds_letter(a: &Vec<char>, c: char) -> (r: bool)
    ensures
        r == a@.contains(c),
{
    let mut i: usize = 0;
    while i < a.len()
        invariant
            i <= a@.len(),
            forall|j: int| 0 <= j < i ==> #[trigger] a@[j] != c,
        decreases a@.len() - i,
    {
        if a[i] == c {
            return true;
        }
        i += 1;
    }
    false
}

/// See [`filter_is_valid`].
pub fn valid_filter(filter: &str) -> (r: bool)
    ensures
        r == filter_is_valid(filter@),
{
    let fc = letters(filter);
    if fc.len() == 0 {
        return false;
    }
    let f = split_levels(&fc);
    let ghost fl = levels(filter@);
    let mut i: usize = 0;
    while i < f.len()
        invariant
            i <= f@.len(),
            f.deep_view() == fl,
            fl == levels(filter@),
            filter@.len() > 0,
            forall|j: int| 0 <= j < i ==> well_formed_level(#[trigger] fl[j], j == fl.len() - 1),
        decreases f@.len() - i,
    {
        assert(f@[i as int].deep_view() =~= f@[i as int]@);
        assert(fl[i as int] == f@[i as int]@);
        if holds_letter(&f[i], '+') && !is_only(&f[i], '+') {
            return false;
        }
        if holds_letter(&f[i], '#') && !(is_only(&f[i], '#') && i == f.len() - 1) {
            return false;
        }
        i += 1;
    }
    true
}

/// See [`share_parts`].
pub fn parse_shared(filter: &str) -> (r: Option<(String, String)>)
    ensures
        r.deep_view() == share_parts(filter@),
{
    let fc = letters(filter);
    if fc.len() < 7 {
        return None;
    }
    let marked = fc[0] == '$' && fc[1] == 's' && fc[2] == 'h' && fc[3] == 'a' && fc[4] == 'r' && fc[5]
        == 'e' && fc[6] == '/';
    if !marked {
        assert(filter@.take(7) != share_mark()) by {
            if filter@.take(7) == share_mark() {
                assert(filter@.take(7)[0] == '$' && filter@.take(7)[1] == 's' && filter@.take(7)[2]
                    == 'h' && filter@.take(7)[3] == 'a' && filter@.take(7)[4] == 'r' && filter@.take(7)[5] == 'e'
                    && filter@.take(7)[6] == '/');
            }
        }
        return None;
    }
    assert(filter@.take(7) =~= share_mark());
    let ghost rest = filter@.skip(7);
    let mut i: usize = 7;
    while i < fc.len() && fc[i] != '/'
        invariant
            7 <= i <= fc@.len(),
            fc@ == filter@,
            rest == filter@.skip(7),
            forall|j: int| 0 <= j < i - 7 ==> #[trigger] rest[j] != '/',
        decreases fc@.len() - i,
    {
        assert(rest[i - 7] == fc@[i as int]);
        i += 1;
    }
    proof {
        if i < fc@.len() {
            assert(rest[i - 7] == fc@[i as int]);
        }
        lemma_slash_at(rest, i - 7);
    }
    if i == 7 || i >= fc.len() - 1 {
        return None;
    }
    let group = filter.substring_char(7, i).to_owned();
    let inner = filter.substring_char(i + 1, fc.len()).to_owned();
    assert(group@ =~= rest.take(slash(rest)));
    assert(inner@ =~= rest.skip(slash(rest) + 1));
    Some((group, inner))
}

} // verus!
