//! How a node tells another of its retained messages: a fingerprint first, and the messages in
//! chunks where the fingerprints differ.

use vstd::prelude::*;
use vstd::utf8::encode_utf8;

use crate::assoc::push_item;
use crate::message::{AppView, WireAppProps};
use crate::retained::{ENTRY_OVERHEAD, RETAINED_CHUNK_BYTES};
use crate::wire::{RetainedEntryView, RetainedWireEntry};

verus! {

/// `n`, held at the largest `usize`.
pub open spec fn capped(n: nat) -> usize {
    if n > usize::MAX {
        usize::MAX
    } else {
        n as usize
    }
}

/// The room that an optional text takes.
pub open spec fn text_size(s: Option<Seq<char>>) -> nat {
    match s {
        Some(t) => encode_utf8(t).len(),
        None => 0,
    }
}

/// The room that pairs of texts take.
pub open spec fn pairs_size(s: Seq<(Seq<char>, Seq<char>)>) -> nat
    decreases s.len(),
{
    if s.len() == 0 {
        0
    } else {
        pairs_size(s.drop_last()) + encode_utf8(s.last().0).len() + encode_utf8(s.last().1).len()
    }
}

/// The room that application properties take.
pub open spec fn app_size(a: AppView) -> nat {
    (if a.payload_format is Some {
        1nat
    } else {
        0
    }) + text_size(a.content_type) + text_size(a.response_topic) + (match a.correlation_data {
        Some(b) => b.len(),
        None => 0,
    }) + pairs_size(a.user_properties)
}

/// The room that an entry takes in a frame.
pub open spec fn entry_size(e: RetainedEntryView) -> nat {
    encode_utf8(e.topic).len() + e.payload.len() + app_size(e.props) + ENTRY_OVERHEAD as nat
}

/// The room that several entries take.
pub open spec fn chunk_size(es: Seq<RetainedEntryView>) -> nat
    decreases es.len(),
{
    if es.len() == 0 {
        0
    } else {
        chunk_size(es.drop_last()) + entry_size(es.last())
    }
}

/// Whether an entry fits in a frame at all.
pub open spec fn fits(e: RetainedEntryView) -> bool {
    entry_size(e) <= RETAINED_CHUNK_BYTES
}

/// The entries that fit, in chunks that do: each chunk takes what comes next for as long as
/// there is room.
pub open spec fn chunked(es: Seq<RetainedEntryView>) -> Seq<Seq<RetainedEntryView>>
    decreases es.len(),
{
    if es.len() == 0 {
        Seq::empty()
    } else {
        let rest = chunked(es.drop_last());
        let e = es.last();
        if !fits(e) {
            rest
        } else if rest.len() == 0 || chunk_size(rest.last()) + entry_size(e)
            > RETAINED_CHUNK_BYTES {
            rest.push(seq![e])
        } else {
            rest.drop_last().push(rest.last().push(e))
        }
    }
}

fn text_bytes(s: &Option<String>) -> (r: usize)
    ensures
        r == capped(text_size(s.deep_view())),
{
    match s {
        Some(t) => t.as_str().as_bytes().len(),
        None => 0,
    }
}

/// See [`app_size`]; held at the largest `usize`.
pub fn app_bytes(a: &WireAppProps) -> (r: usize)
    ensures
        r == capped(app_size(a.deep_view())),
{
    let ghost ps = a.user_properties.deep_view();
    let mut pairs: usize = 0;
    let mut i: usize = 0;
    assert(ps.take(0) =~= Seq::empty());
    while i < a.user_properties.len()
        invariant
            i <= a.user_properties@.len(),
            ps == a.user_properties.deep_view(),
            pairs == capped(pairs_size(ps.take(i as int))),
        decreases a.user_properties@.len() - i,
    {
        proof {
            assert(ps.take(i as int + 1).drop_last() =~= ps.take(i as int));
            assert(ps.take(i as int + 1).last() == ps[i as int]);
        }
        let (k, v) = &a.user_properties[i];
        pairs = pairs.saturating_add(k.as_str().as_bytes().len()).saturating_add(
            v.as_str().as_bytes().len(),
        );
        i += 1;
    }
    assert(ps.take(i as int) =~= ps);
    let format: usize = if a.payload_format.is_some() {
        1
    } else {
        0
    };
    let data: usize = match &a.correlation_data {
        Some(b) => b.len(),
        None => 0,
    };
    format.saturating_add(text_bytes(&a.content_type)).saturating_add(
        text_bytes(&a.response_topic),
    ).saturating_add(data).saturating_add(pairs)
}

/// See [`entry_size`]; held at the largest `usize`.
pub fn entry_bytes(e: &RetainedWireEntry) -> (r: usize)
    ensures
        r == capped(entry_size(e.deep_view())),
{
    e.topic.as_str().as_bytes().len().saturating_add(e.payload.len()).saturating_add(
        app_bytes(&e.props),
    ).saturating_add(ENTRY_OVERHEAD)
}

/// See [`chunked`].
pub fn chunk_retained(entries: Vec<RetainedWireEntry>) -> (r: Vec<Vec<RetainedWireEntry>>)
    ensures
        r.deep_view() == chunked(entries.deep_view()),
{
    let ghost es = entries.deep_view();
    let mut chunks: Vec<Vec<RetainedWireEntry>> = Vec::new();
    let mut current: Vec<RetainedWireEntry> = Vec::new();
    let mut current_bytes: usize = 0;
    let ghost mut i: int = 0;
    assert(es.take(0) =~= Seq::empty());
    assert(chunks.deep_view() =~= Seq::empty());
    assert(current.deep_view() =~= Seq::empty());
    for entry in it: entries
        invariant
            it.seq() == entries@,
            es == entries.deep_view(),
            i == it.index(),
            current_bytes == chunk_size(current.deep_view()),
            current_bytes <= RETAINED_CHUNK_BYTES,
            current.deep_view().len() == 0 ==> chunks.deep_view().len() == 0,
            chunked(es.take(i)) == (if current.deep_view().len() == 0 {
                chunks.deep_view()
            } else {
                chunks.deep_view().push(current.deep_view())
            }),
    {
        proof {
            assert(es.take(i + 1).drop_last() =~= es.take(i));
            assert(es.take(i + 1).last() == es[i]);
            assert(es[i] == entry.deep_view());
        }
        let ghost e = entry.deep_view();
        let ghost before = chunked(es.take(i));
        let ghost c0 = current.deep_view();
        let ghost cs0 = chunks.deep_view();
        proof {
            if c0.len() > 0 {
                assert(before.last() == c0);
                assert(before.drop_last() =~= cs0);
            }
        }
        let size: usize = entry_bytes(&entry);
        if size <= RETAINED_CHUNK_BYTES {
            if current_bytes + size > RETAINED_CHUNK_BYTES && current.len() > 0 {
                let mut full: Vec<RetainedWireEntry> = Vec::new();
                std::mem::swap(&mut full, &mut current);
                push_item(&mut chunks, full);
                current_bytes = 0;
                assert(current.deep_view() =~= Seq::empty());
            }
            let ghost c1 = current.deep_view();
            assert(chunk_size(c1) == current_bytes);
            current_bytes = current_bytes + size;
            push_item(&mut current, entry);
            proof {
                assert(size == entry_size(e));
                assert(current.deep_view().last() == e);
                assert(current.deep_view().drop_last() =~= c1);
                assert(chunk_size(current.deep_view()) == chunk_size(c1) + entry_size(e));
                if c1.len() == 0 {
                    assert(current.deep_view() =~= seq![e]);
                }
            }
        }
        proof {
            i = i + 1;
        }
    }
    assert(es.take(i) =~= es);
    if current.len() > 0 {
        push_item(&mut chunks, current);
    }
    chunks
}

/// All entries of `chunks`, in order.
pub open spec fn flat(chunks: Seq<Seq<RetainedEntryView>>) -> Seq<RetainedEntryView>
    decreases chunks.len(),
{
    if chunks.len() == 0 {
        Seq::empty()
    } else {
        flat(chunks.drop_last()) + chunks.last()
    }
}

/// Tells the entries that fit in a frame.
pub open spec fn fitting() -> spec_fn(RetainedEntryView) -> bool {
    |e: RetainedEntryView| fits(e)
}

/// Every chunk is within the budget of a frame and holds something; and the chunks hold just
/// the entries that fit in a frame, in order.
pub proof fn law_chunks(es: Seq<RetainedEntryView>)
    ensures
        forall|i: int|
            0 <= i < chunked(es).len() ==> (#[trigger] chunked(es)[i]).len() > 0 && chunk_size(
                chunked(es)[i],
            ) <= RETAINED_CHUNK_BYTES,
        flat(chunked(es)) == es.filter(fitting()),
    decreases es.len(),
{
    reveal(Seq::filter);
    if es.len() > 0 {
        let t = es.drop_last();
        let e = es.last();
        law_chunks(t);
        let rest = chunked(t);
        let all = chunked(es);
        if fits(e) {
            if rest.len() == 0 || chunk_size(rest.last()) + entry_size(e) > RETAINED_CHUNK_BYTES {
                assert(seq![e].drop_last() =~= Seq::<RetainedEntryView>::empty());
                assert(chunk_size(seq![e].drop_last()) == 0);
                assert(chunk_size(seq![e]) == entry_size(e));
                assert(all.drop_last() =~= rest);
                assert(flat(all) =~= flat(rest).push(e));
                assert forall|i: int| 0 <= i < all.len() implies (#[trigger] all[i]).len() > 0
                    && chunk_size(all[i]) <= RETAINED_CHUNK_BYTES by {
                    if i < rest.len() {
                        assert(all[i] == rest[i]);
                    }
                }
            } else {
                let grown = rest.last().push(e);
                assert(grown.drop_last() =~= rest.last());
                assert(all.drop_last() =~= rest.drop_last());
                assert(flat(all) =~= flat(rest).push(e));
                assert forall|i: int| 0 <= i < all.len() implies (#[trigger] all[i]).len() > 0
                    && chunk_size(all[i]) <= RETAINED_CHUNK_BYTES by {
                    if i < rest.len() - 1 {
                        assert(all[i] == rest[i]);
                    }
                }
            }
        }
    }
}

/// The eight bytes of `n`, the highest first.
pub open spec fn big_endian(n: u64) -> Seq<u8> {
    let n1 = n / 256;
    let n2 = n1 / 256;
    let n3 = n2 / 256;
    let n4 = n3 / 256;
    let n5 = n4 / 256;
    let n6 = n5 / 256;
    let n7 = n6 / 256;
    seq![
        n7 as u8,
        (n6 % 256) as u8,
        (n5 % 256) as u8,
        (n4 % 256) as u8,
        (n3 % 256) as u8,
        (n2 % 256) as u8,
        (n1 % 256) as u8,
        (n % 256) as u8,
    ]
}

/// The bytes by which a retained message is recognised: its topic behind the topic's length,
/// its payload, its guarantee and its encoded properties.
pub open spec fn value_image(topic: Seq<u8>, payload: Seq<u8>, qos: u8, props: Seq<u8>) -> Seq<u8> {
    big_endian(topic.len() as u64) + topic + payload + seq![qos] + props
}

fn append_bytes(out: &mut Vec<u8>, s: &[u8])
    ensures
        final(out)@ == old(out)@ + s@,
{
    let mut i: usize = 0;
    assert(out@ =~= old(out)@ + s@.take(0));
    while i < s.len()
        invariant
            i <= s@.len(),
            out@ == old(out)@ + s@.take(i as int),
        decreases s@.len() - i,
    {
        out.push(s[i]);
        i += 1;
        assert(out@ =~= old(out)@ + s@.take(i as int));
    }
    assert(s@.take(i as int) =~= s@);
}

/// See [`value_image`].
pub fn retained_value(topic: &str, payload: &Vec<u8>, qos: u8, props: &Vec<u8>) -> (r: Vec<u8>)
    ensures
        r@ == value_image(encode_utf8(topic@), payload@, qos, props@),
{
    let bytes = topic.as_bytes();
    let n: u64 = bytes.len() as u64;
    let mut r: Vec<u8> = Vec::new();
    let n1: u64 = n / 256;
    let n2: u64 = n1 / 256;
    let n3: u64 = n2 / 256;
    let n4: u64 = n3 / 256;
    let n5: u64 = n4 / 256;
    let n6: u64 = n5 / 256;
    let n7: u64 = n6 / 256;
    r.push(n7 as u8);
    r.push((n6 % 256) as u8);
    r.push((n5 % 256) as u8);
    r.push((n4 % 256) as u8);
    r.push((n3 % 256) as u8);
    r.push((n2 % 256) as u8);
    r.push((n1 % 256) as u8);
    r.push((n % 256) as u8);
    assert(r@ =~= big_endian(n));
    append_bytes(&mut r, bytes);
    append_bytes(&mut r, payload.as_slice());
    r.push(qos);
    append_bytes(&mut r, props.as_slice());
    assert(r@ =~= value_image(encode_utf8(topic@), payload@, qos, props@));
    r
}

proof fn lemma_big_endian(a: u64, b: u64)
    requires
        big_endian(a) == big_endian(b),
    ensures
        a == b,
{
    let (a1, b1) = (a / 256, b / 256);
    let (a2, b2) = (a1 / 256, b1 / 256);
    let (a3, b3) = (a2 / 256, b2 / 256);
    let (a4, b4) = (a3 / 256, b3 / 256);
    let (a5, b5) = (a4 / 256, b4 / 256);
    let (a6, b6) = (a5 / 256, b5 / 256);
    let (a7, b7) = (a6 / 256, b6 / 256);
    let (s, t) = (big_endian(a), big_endian(b));
    assert(s[0] == t[0] && s[1] == t[1] && s[2] == t[2] && s[3] == t[3]);
    assert(s[4] == t[4] && s[5] == t[5] && s[6] == t[6] && s[7] == t[7]);
    assert(a7 < 256 && b7 < 256);
    assert(a7 == b7);
    assert(a6 % 256 == b6 % 256);
    assert(a6 == b6);
    assert(a5 % 256 == b5 % 256);
    assert(a5 == b5);
    assert(a4 % 256 == b4 % 256);
    assert(a4 == b4);
    assert(a3 % 256 == b3 % 256);
    assert(a3 == b3);
    assert(a2 % 256 == b2 % 256);
    assert(a2 == b2);
    assert(a1 % 256 == b1 % 256);
    assert(a1 == b1);
}

/// Two retained messages are recognised by the same bytes only if they have the same topic, and
/// the same bytes behind it.
pub proof fn law_value_image(
    topic: Seq<u8>,
    payload: Seq<u8>,
    qos: u8,
    props: Seq<u8>,
    topic2: Seq<u8>,
    payload2: Seq<u8>,
    qos2: u8,
    props2: Seq<u8>,
)
    requires
        topic.len() <= u64::MAX,
        topic2.len() <= u64::MAX,
        value_image(topic, payload, qos, props) == value_image(topic2, payload2, qos2, props2),
    ensures
        topic == topic2,
        payload + seq![qos] + props == payload2 + seq![qos2] + props2,
{
    let a = value_image(topic, payload, qos, props);
    let b = value_image(topic2, payload2, qos2, props2);
    assert(a.take(8) =~= big_endian(topic.len() as u64));
    assert(b.take(8) =~= big_endian(topic2.len() as u64));
    lemma_big_endian(topic.len() as u64, topic2.len() as u64);
    let n = topic.len() as int;
    assert(a.subrange(8, 8 + n) =~= topic);
    assert(b.subrange(8, 8 + n) =~= topic2);
    assert(a.skip(8 + n) =~= payload + seq![qos] + props);
    assert(b.skip(8 + n) =~= payload2 + seq![qos2] + props2);
}

/// The first numbers of `ids`, folded.
pub open spec fn topics_hash(ids: Seq<(u64, u64)>) -> u64
    decreases ids.len(),
{
    if ids.len() == 0 {
        0
    } else {
        topics_hash(ids.drop_last()) ^ ids.last().0
    }
}

/// The second numbers of `ids`, folded.
pub open spec fn values_hash(ids: Seq<(u64, u64)>) -> u64
    decreases ids.len(),
{
    if ids.len() == 0 {
        0
    } else {
        values_hash(ids.drop_last()) ^ ids.last().1
    }
}

/// The fingerprint of a set of retained messages, given for each the number of its topic and
/// that of its value.
pub open spec fn digest(ids: Seq<(u64, u64)>) -> (u64, u64, u64) {
    (ids.len() as u64, topics_hash(ids), values_hash(ids))
}

/// See [`digest`].
pub fn retained_digest(ids: &Vec<(u64, u64)>) -> (r: (u64, u64, u64))
    ensures
        r == digest(ids@),
{
    let mut hash: u64 = 0;
    let mut value_hash: u64 = 0;
    let mut i: usize = 0;
    assert(ids@.take(0) =~= Seq::empty());
    while i < ids.len()
        invariant
            i <= ids@.len(),
            hash == topics_hash(ids@.take(i as int)),
            value_hash == values_hash(ids@.take(i as int)),
        decreases ids@.len() - i,
    {
        proof {
            assert(ids@.take(i as int + 1).drop_last() =~= ids@.take(i as int));
            assert(ids@.take(i as int + 1).last() == ids@[i as int]);
        }
        hash = hash ^ ids[i].0;
        value_hash = value_hash ^ ids[i].1;
        i += 1;
    }
    assert(ids@.take(i as int) =~= ids@);
    (ids.len() as u64, hash, value_hash)
}

proof fn lemma_hash_remove(ids: Seq<(u64, u64)>, j: int)
    requires
        0 <= j < ids.len(),
    ensures
        topics_hash(ids) == topics_hash(ids.remove(j)) ^ ids[j].0,
        values_hash(ids) == values_hash(ids.remove(j)) ^ ids[j].1,
    decreases ids.len(),
{
    if j == ids.len() - 1 {
        assert(ids.remove(j) =~= ids.drop_last());
    } else {
        let t = ids.drop_last();
        lemma_hash_remove(t, j);
        assert(ids.remove(j).drop_last() =~= t.remove(j));
        assert(ids.remove(j).last() == ids.last());
        let x = topics_hash(t.remove(j));
        let y = values_hash(t.remove(j));
        let a = ids[j];
        let b = ids.last();
        let (a0, a1, b0, b1) = (a.0, a.1, b.0, b.1);
        assert((x ^ a0) ^ b0 == (x ^ b0) ^ a0) by (bit_vector);
        assert((y ^ a1) ^ b1 == (y ^ b1) ^ a1) by (bit_vector);
    }
}

/// The fingerprint does not depend on the order of the messages.
pub proof fn law_digest_ignores_order(a: Seq<(u64, u64)>, b: Seq<(u64, u64)>)
    requires
        a.to_multiset() == b.to_multiset(),
    ensures
        digest(a) == digest(b),
    decreases a.len(),
{
    broadcast use vstd::seq_lib::group_to_multiset_ensures;

    assert(a.len() == a.to_multiset().len());
    assert(b.len() == b.to_multiset().len());
    if a.len() > 0 {
        let x = a.last();
        assert(a.contains(x));
        assert(a.to_multiset().count(x) > 0);
        assert(b.contains(x));
        let j = choose|j: int| 0 <= j < b.len() && b[j] == x;
        let t = b.remove(j);
        assert(a.drop_last() =~= a.remove(a.len() - 1));
        assert(a.drop_last().to_multiset() =~= a.to_multiset().remove(x));
        assert(t.to_multiset() =~= b.to_multiset().remove(x));
        law_digest_ignores_order(a.drop_last(), t);
        lemma_hash_remove(b, j);
    }
}

/// The numbers of topics decide the first hash alone: messages of the same topics have it in
/// common, whatever their values.
pub proof fn law_digest_topics(a: Seq<(u64, u64)>, b: Seq<(u64, u64)>)
    requires
        a.len() == b.len(),
        forall|i: int| 0 <= i < a.len() ==> (#[trigger] a[i]).0 == b[i].0,
    ensures
        digest(a).0 == digest(b).0,
        digest(a).1 == digest(b).1,
    decreases a.len(),
{
    if a.len() > 0 {
        assert(a.last().0 == b.last().0);
        let (s, t) = (a.drop_last(), b.drop_last());
        assert forall|i: int| 0 <= i < s.len() implies (#[trigger] s[i]).0 == t[i].0 by {
            assert(s[i] == a[i]);
        }
        law_digest_topics(s, t);
    }
}

} // verus!
