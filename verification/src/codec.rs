//! Binary framing of log records.
//!
//! The durable log is a sequence of records, each a 4-byte big-endian
//! length prefix followed by that many payload bytes, appended strictly in
//! order with no header. `encode_log` gives the exact bytes of a record
//! sequence, `parse_log` the recovery scan that rebuilds the sequence from
//! the bytes, and the lemmas here show that the two are mutually inverse,
//! which is what makes reopening a log sound.

use vstd::prelude::*;

verus! {

/// A record length, as its four big-endian bytes.
pub open spec fn be32(n: u32) -> Seq<u8> {
    seq![
        ((n >> 24u32) & 0xffu32) as u8,
        ((n >> 16u32) & 0xffu32) as u8,
        ((n >> 8u32) & 0xffu32) as u8,
        (n & 0xffu32) as u8,
    ]
}

/// The length encoded by four big-endian bytes.
pub open spec fn be32_value(s: Seq<u8>) -> u32
    recommends
        s.len() == 4,
{
    ((s[0] as u32) << 24u32) | ((s[1] as u32) << 16u32) | ((s[2] as u32) << 8u32) | (s[3] as u32)
}

pub proof fn lemma_be32_to_from(n: u32)
    ensures
        be32(n).len() == 4,
        be32_value(be32(n)) == n,
{
    let b0 = (n >> 24u32) & 0xffu32;
    let b1 = (n >> 16u32) & 0xffu32;
    let b2 = (n >> 8u32) & 0xffu32;
    let b3 = n & 0xffu32;
    assert((n >> 24u32) & 0xffu32 < 256 && (n >> 16u32) & 0xffu32 < 256 && (n >> 8u32) & 0xffu32
        < 256 && n & 0xffu32 < 256) by (bit_vector);
    assert(((b0 as u8) as u32) == b0 && ((b1 as u8) as u32) == b1 && ((b2 as u8) as u32) == b2
        && ((b3 as u8) as u32) == b3) by (bit_vector)
        requires
            b0 < 256 && b1 < 256 && b2 < 256 && b3 < 256,
    ;
    assert((b0 << 24u32) | (b1 << 16u32) | (b2 << 8u32) | b3 == n) by (bit_vector)
        requires
            b0 == (n >> 24u32) & 0xffu32 && b1 == (n >> 16u32) & 0xffu32 && b2 == (n >> 8u32)
                & 0xffu32 && b3 == n & 0xffu32,
    ;
}

pub proof fn lemma_be32_from_to(s: Seq<u8>)
    requires
        s.len() == 4,
    ensures
        be32(be32_value(s)) == s,
{
    let s0 = s[0] as u32;
    let s1 = s[1] as u32;
    let s2 = s[2] as u32;
    let s3 = s[3] as u32;
    let x = be32_value(s);
    assert(s0 < 256 && s1 < 256 && s2 < 256 && s3 < 256);
    assert((((s0 << 24u32) | (s1 << 16u32) | (s2 << 8u32) | s3) >> 24u32) & 0xffu32 == s0 && (((s0
        << 24u32) | (s1 << 16u32) | (s2 << 8u32) | s3) >> 16u32) & 0xffu32 == s1 && (((s0 << 24u32)
        | (s1 << 16u32) | (s2 << 8u32) | s3) >> 8u32) & 0xffu32 == s2 && ((s0 << 24u32) | (s1
        << 16u32) | (s2 << 8u32) | s3) & 0xffu32 == s3) by (bit_vector)
        requires
            s0 < 256 && s1 < 256 && s2 < 256 && s3 < 256,
    ;
    assert(((s0 as u8) as u32) == s0 && ((s1 as u8) as u32) == s1 && ((s2 as u8) as u32) == s2
        && ((s3 as u8) as u32) == s3) by (bit_vector)
        requires
            s0 < 256 && s1 < 256 && s2 < 256 && s3 < 256,
    ;
    assert(be32(x) =~= s);
}

/// One record: the payload length as four big-endian bytes, then the payload.
pub open spec fn frame(e: Seq<u8>) -> Seq<u8>
    recommends
        e.len() <= u32::MAX,
{
    be32(e.len() as u32) + e
}

/// The exact bytes of a sequence of records, in order.
pub open spec fn encode_log(es: Seq<Seq<u8>>) -> Seq<u8>
    decreases es.len(),
{
    if es.len() == 0 {
        Seq::<u8>::empty()
    } else {
        frame(es.first()) + encode_log(es.drop_first())
    }
}

/// The durable byte footprint of a sequence of records: four prefix bytes
/// plus the payload, per record.
pub open spec fn log_size(es: Seq<Seq<u8>>) -> int
    decreases es.len(),
{
    if es.len() == 0 {
        0
    } else {
        4 + es.first().len() + log_size(es.drop_first())
    }
}

/// Every entry's payload fits the 4-byte length prefix.
pub open spec fn entries_fit(es: Seq<Seq<u8>>) -> bool {
    forall|i: int| 0 <= i < es.len() ==> #[trigger] es[i].len() <= u32::MAX
}

/// The recovery scan: reads a length prefix, then that many payload bytes,
/// repeatedly from offset 0, and succeeds only when the bytes end exactly at
/// a record boundary.
pub open spec fn parse_log(bytes: Seq<u8>) -> Option<Seq<Seq<u8>>>
    decreases bytes.len(),
{
    if bytes.len() == 0 {
        Some(Seq::<Seq<u8>>::empty())
    } else if bytes.len() < 4 {
        None
    } else {
        let n = be32_value(bytes.take(4)) as int;
        if bytes.len() < 4 + n {
            None
        } else {
            match parse_log(bytes.skip(4 + n)) {
                Some(rest) => Some(seq![bytes.subrange(4, 4 + n)] + rest),
                None => None,
            }
        }
    }
}

/// The byte offset of the payload of entry `i` within the encoded log.
pub open spec fn entry_offset(es: Seq<Seq<u8>>, i: int) -> int {
    log_size(es.take(i)) + 4
}

pub proof fn lemma_log_size_nonneg(es: Seq<Seq<u8>>)
    ensures
        log_size(es) >= 0,
    decreases es.len(),
{
    if es.len() > 0 {
        lemma_log_size_nonneg(es.drop_first());
    }
}

pub proof fn lemma_encode_len(es: Seq<Seq<u8>>)
    ensures
        encode_log(es).len() == log_size(es),
    decreases es.len(),
{
    if es.len() > 0 {
        lemma_encode_len(es.drop_first());
    }
}

/// Appending one record to the log appends exactly its frame to the bytes.
pub proof fn lemma_encode_push(es: Seq<Seq<u8>>, e: Seq<u8>)
    ensures
        encode_log(es.push(e)) == encode_log(es) + frame(e),
        log_size(es.push(e)) == log_size(es) + 4 + e.len(),
    decreases es.len(),
{
    if es.len() == 0 {
        assert(es.push(e).drop_first() =~= Seq::<Seq<u8>>::empty());
        assert(es.push(e).first() == e);
        assert(encode_log(es.push(e)) == frame(e) + encode_log(Seq::<Seq<u8>>::empty()));
        assert(encode_log(es.push(e)) =~= encode_log(es) + frame(e));
        assert(log_size(es.push(e)) == 4 + e.len() + log_size(Seq::<Seq<u8>>::empty()));
    } else {
        let tail = es.drop_first();
        lemma_encode_push(tail, e);
        assert(es.push(e).first() == es.first());
        assert(es.push(e).drop_first() =~= tail.push(e));
        assert(encode_log(es.push(e)) == frame(es.first()) + encode_log(tail.push(e)));
        assert(encode_log(tail.push(e)) == encode_log(tail) + frame(e));
        assert(frame(es.first()) + (encode_log(tail) + frame(e)) =~= (frame(es.first())
            + encode_log(tail)) + frame(e));
        assert(encode_log(es) == frame(es.first()) + encode_log(tail));
        assert(log_size(es.push(e)) == 4 + es.first().len() + log_size(tail.push(e)));
    }
}

/// The recovery scan of an encoded log yields exactly the encoded records.
pub proof fn lemma_parse_encode(es: Seq<Seq<u8>>)
    requires
        entries_fit(es),
    ensures
        parse_log(encode_log(es)) == Some(es),
    decreases es.len(),
{
    if es.len() == 0 {
    } else {
        let e = es.first();
        let bytes = encode_log(es);
        let rest = encode_log(es.drop_first());
        lemma_be32_to_from(e.len() as u32);
        lemma_log_size_nonneg(es.drop_first());
        lemma_encode_len(es.drop_first());
        assert(bytes.len() == 4 + e.len() + rest.len());
        assert(bytes.take(4) =~= be32(e.len() as u32));
        let n = be32_value(bytes.take(4)) as int;
        assert(n == e.len());
        assert(bytes.subrange(4, 4 + n) =~= e);
        assert(bytes.skip(4 + n) =~= rest);
        lemma_parse_encode(es.drop_first());
        assert(seq![e] + es.drop_first() =~= es);
    }
}

/// The recovery scan is exact: whatever it accepts re-encodes to the same
/// bytes, and every recovered payload fits its length prefix.
#[verifier::spinoff_prover]
#[verifier::rlimit(100)]
pub proof fn lemma_parse_inverse(bytes: Seq<u8>)
    requires
        parse_log(bytes) is Some,
    ensures
        entries_fit(parse_log(bytes).unwrap()),
        encode_log(parse_log(bytes).unwrap()) == bytes,
        log_size(parse_log(bytes).unwrap()) == bytes.len(),
    decreases bytes.len(),
{
    let es = parse_log(bytes).unwrap();
    if bytes.len() == 0 {
        assert(es =~= Seq::<Seq<u8>>::empty());
    } else {
        let n = be32_value(bytes.take(4)) as int;
        let tail = bytes.skip(4 + n);
        lemma_parse_inverse(tail);
        let rest = parse_log(tail).unwrap();
        let e0 = bytes.subrange(4, 4 + n);
        assert(es == seq![e0] + rest);
        assert(es.len() == rest.len() + 1 && es[0] == e0 && forall|i: int|
            1 <= i < es.len() ==> es[i] == rest[i - 1]);
        assert(entries_fit(es)) by {
            assert(e0.len() == n <= u32::MAX);
            assert(forall|i: int| 1 <= i < es.len() ==> #[trigger] es[i].len() == rest[i
                - 1].len());
        }
        assert(es.drop_first() =~= rest);
        assert(frame(e0) == bytes.take(4 + n)) by {
            lemma_be32_from_to(bytes.take(4));
            assert(be32(e0.len() as u32) == bytes.take(4));
            assert(bytes.take(4) + e0 =~= bytes.take(4 + n));
        }
        assert(encode_log(es) == bytes) by {
            assert(encode_log(es) == frame(es.first()) + encode_log(es.drop_first()));
            assert(encode_log(es.drop_first()) == tail);
            assert(bytes.take(4 + n) + tail =~= bytes);
        }
        lemma_encode_len(es);
    }
}

/// Bytes that begin with a whole encoded log parse as those records
/// followed by whatever the remaining bytes parse as.
#[verifier::spinoff_prover]
#[verifier::rlimit(100)]
pub proof fn lemma_parse_concat(es: Seq<Seq<u8>>, tail: Seq<u8>)
    requires
        entries_fit(es),
    ensures
        parse_log(encode_log(es) + tail) == (match parse_log(tail) {
            Some(rest) => Some(es + rest),
            None => None::<Seq<Seq<u8>>>,
        }),
    decreases es.len(),
{
    if es.len() == 0 {
        assert(encode_log(es) + tail =~= tail);
        if parse_log(tail) is Some {
            assert(es + parse_log(tail).unwrap() =~= parse_log(tail).unwrap());
        }
    } else {
        let e = es.first();
        let bytes = encode_log(es) + tail;
        let rest_enc = encode_log(es.drop_first());
        lemma_be32_to_from(e.len() as u32);
        lemma_encode_len(es.drop_first());
        lemma_log_size_nonneg(es.drop_first());
        assert(bytes.len() == 4 + e.len() + rest_enc.len() + tail.len());
        assert(bytes.take(4) =~= be32(e.len() as u32));
        let n = be32_value(bytes.take(4)) as int;
        assert(n == e.len());
        assert(bytes.subrange(4, 4 + n) =~= e);
        assert(bytes.skip(4 + n) =~= rest_enc + tail);
        lemma_parse_concat(es.drop_first(), tail);
        match parse_log(tail) {
            Some(rest) => {
                assert(parse_log(bytes.skip(4 + n)) == Some(es.drop_first() + rest));
                assert(seq![e] + (es.drop_first() + rest) =~= es + rest);
            },
            None => {
                assert(parse_log(bytes.skip(4 + n)) is None);
            },
        }
    }
}

/// Within an encoded log, the payload of entry `i` sits at `entry_offset`.
pub proof fn lemma_entry_bytes(es: Seq<Seq<u8>>, i: int)
    requires
        entries_fit(es),
        0 <= i < es.len(),
    ensures
        entry_offset(es, i) >= 4,
        entry_offset(es, i) + es[i].len() <= encode_log(es).len(),
        encode_log(es).subrange(entry_offset(es, i), entry_offset(es, i) + es[i].len()) == es[i],
    decreases i,
{
    lemma_encode_len(es);
    lemma_log_size_nonneg(es.take(i));
    if i == 0 {
        assert(es.take(0) =~= Seq::<Seq<u8>>::empty());
        assert(entry_offset(es, 0) == 4);
        let e = es.first();
        let rest = encode_log(es.drop_first());
        lemma_be32_to_from(e.len() as u32);
        lemma_encode_len(es.drop_first());
        lemma_log_size_nonneg(es.drop_first());
        assert(encode_log(es).subrange(4, 4 + e.len() as int) =~= e);
    } else {
        let head = es.first();
        let tail = es.drop_first();
        assert(entries_fit(tail)) by {
            assert(forall|j: int|
                0 <= j < tail.len() ==> #[trigger] tail[j].len() == es[j + 1].len());
        }
        lemma_entry_bytes(tail, i - 1);
        lemma_encode_len(tail);
        assert(es.take(i).first() == head);
        assert(es.take(i).drop_first() =~= tail.take(i - 1));
        assert(log_size(es.take(i)) == 4 + head.len() + log_size(tail.take(i - 1)));
        assert(entry_offset(es, i) == frame(head).len() + entry_offset(tail, i - 1));
        assert(es[i] == tail[i - 1]);
        let off = entry_offset(tail, i - 1);
        lemma_log_size_nonneg(tail.take(i - 1));
        assert(encode_log(es).subrange(
            frame(head).len() + off,
            frame(head).len() + off + tail[i - 1].len(),
        ) =~= encode_log(tail).subrange(off, off + tail[i - 1].len()));
    }
}

pub proof fn lemma_fit_concat(a: Seq<Seq<u8>>, b: Seq<Seq<u8>>)
    requires
        entries_fit(a),
        entries_fit(b),
    ensures
        entries_fit(a + b),
{
    assert forall|i: int| 0 <= i < (a + b).len() implies #[trigger] (a + b)[i].len()
        <= u32::MAX by {
        if i < a.len() {
            assert((a + b)[i] == a[i]);
        } else {
            assert((a + b)[i] == b[i - a.len()]);
        }
    }
}

pub proof fn lemma_fit_take(a: Seq<Seq<u8>>, i: int)
    requires
        entries_fit(a),
        0 <= i <= a.len(),
    ensures
        entries_fit(a.take(i)),
{
    assert(forall|j: int| 0 <= j < i ==> #[trigger] a.take(i)[j].len() == a[j].len());
}

/// Appending one length prefix and one payload to an encoded log encodes
/// the log with that record appended.
pub proof fn lemma_encode_append_record(es: Seq<Seq<u8>>, e: Seq<u8>, bytes: Seq<u8>)
    requires
        bytes == encode_log(es) + be32(e.len() as u32) + e,
    ensures
        bytes == encode_log(es.push(e)),
{
    lemma_encode_push(es, e);
    assert(encode_log(es) + be32(e.len() as u32) + e =~= encode_log(es) + frame(e));
}

/// The whole encoded log ends exactly where its last record ends.
pub proof fn lemma_size_last(es: Seq<Seq<u8>>)
    requires
        es.len() > 0,
    ensures
        log_size(es) == entry_offset(es, es.len() - 1) + es[es.len() - 1].len(),
{
    assert(es.take(es.len() as int) =~= es.take(es.len() - 1).push(es[es.len() - 1]));
    lemma_encode_push(es.take(es.len() - 1), es[es.len() - 1]);
    assert(es.take(es.len() as int) =~= es);
}

/// Appends the four big-endian bytes of `n` to `out`.
pub fn append_be32(out: &mut Vec<u8>, n: u32)
    ensures
        final(out)@ == old(out)@ + be32(n),
{
    proof {
        lemma_be32_to_from(n);
    }
    assert((n >> 24u32) & 0xffu32 < 256 && (n >> 16u32) & 0xffu32 < 256 && (n >> 8u32) & 0xffu32
        < 256 && n & 0xffu32 < 256) by (bit_vector);
    let ghost start = out@;
    out.push(((n >> 24u32) & 0xffu32) as u8);
    out.push(((n >> 16u32) & 0xffu32) as u8);
    out.push(((n >> 8u32) & 0xffu32) as u8);
    out.push((n & 0xffu32) as u8);
    assert(out@ =~= start + be32(n));
}

/// Reads the big-endian length prefix at byte offset `pos`.
pub fn read_be32(bytes: &[u8], pos: usize) -> (r: u32)
    requires
        pos + 4 <= bytes@.len(),
    ensures
        r == be32_value(bytes@.subrange(pos as int, pos as int + 4)),
{
    let n = bytes.len();
    assert(pos + 4 <= n);
    let b0 = *vstd::slice::slice_index_get(bytes, pos);
    let b1 = *vstd::slice::slice_index_get(bytes, pos + 1);
    let b2 = *vstd::slice::slice_index_get(bytes, pos + 2);
    let b3 = *vstd::slice::slice_index_get(bytes, pos + 3);
    let ghost s = bytes@.subrange(pos as int, pos as int + 4);
    assert(s[0] == b0 && s[1] == b1 && s[2] == b2 && s[3] == b3);
    assert(((b0 as u32) << 24u32) | ((b1 as u32) << 16u32) | ((b2 as u32) << 8u32) | (b3 as u32)
        == be32_value(s));
    ((b0 as u32) << 24u32) | ((b1 as u32) << 16u32) | ((b2 as u32) << 8u32) | (b3 as u32)
}

} // verus!
