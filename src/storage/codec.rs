//! The on-disk encoding of values, queues and merge operands.
//!
//! A value is a tag byte (0 integer, 1 float, 2 string, 3 null) followed by
//! an 8-byte little-endian integer, the 8 bytes of the float, a framed UTF-8
//! string, or nothing. A frame is an 8-byte little-endian length followed by
//! that many bytes. A queue is its count followed by its values, head first.
use vstd::prelude::*;
use vstd::utf8::{decode_utf8, encode_utf8, valid_utf8};

use crate::types::{views, Value, ValueView};

verus! {

/// The 8 little-endian bytes of `x`.
pub open spec fn u64_le(x: u64) -> Seq<u8> {
    seq![
        x as u8,
        (x >> 8u64) as u8,
        (x >> 16u64) as u8,
        (x >> 24u64) as u8,
        (x >> 32u64) as u8,
        (x >> 40u64) as u8,
        (x >> 48u64) as u8,
        (x >> 56u64) as u8,
    ]
}

/// The integer whose little-endian bytes are the first 8 of `b`.
#[verifier::opaque]
pub open spec fn le_u64(b: Seq<u8>) -> u64 {
    (b[0] as u64) | ((b[1] as u64) << 8u64) | ((b[2] as u64) << 16u64) | ((b[3] as u64) << 24u64)
        | ((b[4] as u64) << 32u64) | ((b[5] as u64) << 40u64) | ((b[6] as u64) << 48u64) | ((
    b[7] as u64) << 56u64)
}

pub proof fn lemma_u64_round_trip(x: u64)
    ensures
        le_u64(u64_le(x)) == x,
{
    reveal(le_u64);
    let b = u64_le(x);
    assert(((x as u8) as u64) | ((((x >> 8u64) as u8) as u64) << 8u64) | ((((x >> 16u64) as u8) as u64)
        << 16u64) | ((((x >> 24u64) as u8) as u64) << 24u64) | ((((x >> 32u64) as u8) as u64)
        << 32u64) | ((((x >> 40u64) as u8) as u64) << 40u64) | ((((x >> 48u64) as u8) as u64)
        << 48u64) | ((((x >> 56u64) as u8) as u64) << 56u64) == x) by (bit_vector);
}

/// `le_u64` reads the first 8 bytes only.
pub proof fn lemma_le_u64_prefix(a: Seq<u8>, rest: Seq<u8>)
    requires
        a.len() == 8,
    ensures
        le_u64(a + rest) == le_u64(a),
{
    reveal(le_u64);
    let b = a + rest;
    assert(b[0] == a[0] && b[1] == a[1] && b[2] == a[2] && b[3] == a[3]);
    assert(b[4] == a[4] && b[5] == a[5] && b[6] == a[6] && b[7] == a[7]);
}

proof fn lemma_i64_round_trip(i: i64)
    ensures
        ((i as u64) as i64) == i,
{
    assert(((i as u64) as i64) == i) by (bit_vector);
}

/// A length-prefixed run of bytes.
pub open spec fn frame(b: Seq<u8>) -> Seq<u8> {
    u64_le(b.len() as u64) + b
}

/// Reads a frame at the start of `b`: its bytes, and how many bytes of `b`
/// it took.
pub open spec fn parse_frame(b: Seq<u8>) -> Option<(Seq<u8>, int)> {
    if b.len() < 8 {
        None
    } else {
        let n = le_u64(b) as int;
        if b.len() < 8 + n {
            None
        } else {
            Some((b.subrange(8, 8 + n), 8 + n))
        }
    }
}

pub proof fn lemma_frame_round_trip(b: Seq<u8>, rest: Seq<u8>)
    requires
        b.len() <= u64::MAX,
    ensures
        parse_frame(frame(b) + rest) == Some((b, 8 + b.len() as int)),
{
    lemma_u64_round_trip(b.len() as u64);
    let all = frame(b) + rest;
    assert(all =~= u64_le(b.len() as u64) + (b + rest));
    lemma_le_u64_prefix(u64_le(b.len() as u64), b + rest);
    assert(all.subrange(8, 8 + b.len() as int) =~= b);
}

/// A value that an encoding can hold: a string of at most `u64::MAX` bytes.
pub open spec fn fits(v: ValueView) -> bool {
    match v {
        ValueView::String(s) => encode_utf8(s).len() <= u64::MAX,
        _ => true,
    }
}

/// The encoding of a value.
pub open spec fn value_bytes(v: ValueView) -> Seq<u8> {
    match v {
        ValueView::Integer(i) => seq![0u8] + u64_le(i as u64),
        ValueView::Float(f) => seq![1u8] + u64_le(f),
        ValueView::String(s) => seq![2u8] + frame(encode_utf8(s)),
        ValueView::Null => seq![3u8],
    }
}

/// Reads a value at the start of `b`: the value, and how many bytes it took.
pub open spec fn parse_value(b: Seq<u8>) -> Option<(ValueView, int)> {
    if b.len() == 0 {
        None
    } else if b[0] == 0 {
        if b.len() < 9 {
            None
        } else {
            Some((ValueView::Integer(le_u64(b.drop_first()) as i64), 9))
        }
    } else if b[0] == 1 {
        if b.len() < 9 {
            None
        } else {
            Some((ValueView::Float(le_u64(b.drop_first())), 9))
        }
    } else if b[0] == 2 {
        match parse_frame(b.drop_first()) {
            Some((s, k)) => if valid_utf8(s) {
                Some((ValueView::String(decode_utf8(s)), 1 + k))
            } else {
                None
            },
            None => None,
        }
    } else if b[0] == 3 {
        Some((ValueView::Null, 1))
    } else {
        None
    }
}

proof fn lemma_string_frame(e: Seq<u8>, rest: Seq<u8>)
    requires
        e.len() <= u64::MAX,
    ensures
        (seq![2u8] + frame(e) + rest)[0] == 2,
        parse_frame((seq![2u8] + frame(e) + rest).drop_first()) == Some((e, 8 + e.len() as int)),
{
    let all = seq![2u8] + frame(e) + rest;
    assert(all.drop_first() =~= frame(e) + rest);
    lemma_frame_round_trip(e, rest);
}

proof fn lemma_string_round_trip(s: Seq<char>, rest: Seq<u8>)
    requires
        encode_utf8(s).len() <= u64::MAX,
    ensures
        parse_value(value_bytes(ValueView::String(s)) + rest) == Some(
            (ValueView::String(s), value_bytes(ValueView::String(s)).len() as int),
        ),
{
    let e = encode_utf8(s);
    lemma_string_frame(e, rest);
    vstd::utf8::encode_utf8_valid_utf8(s);
    vstd::utf8::encode_utf8_decode_utf8(s);
    let all = value_bytes(ValueView::String(s)) + rest;
    assert(all == seq![2u8] + frame(e) + rest);
    assert(value_bytes(ValueView::String(s)).len() == 9 + e.len());
}

pub proof fn lemma_value_round_trip(v: ValueView, rest: Seq<u8>)
    requires
        fits(v),
    ensures
        parse_value(value_bytes(v) + rest) == Some((v, value_bytes(v).len() as int)),
{
    let all = value_bytes(v) + rest;
    match v {
        ValueView::Integer(i) => {
            assert(all.drop_first() =~= u64_le(i as u64) + rest);
            lemma_le_u64_prefix(u64_le(i as u64), rest);
            lemma_u64_round_trip(i as u64);
            lemma_i64_round_trip(i);
        },
        ValueView::Float(f) => {
            assert(all.drop_first() =~= u64_le(f) + rest);
            lemma_le_u64_prefix(u64_le(f), rest);
            lemma_u64_round_trip(f);
        },
        ValueView::String(s) => lemma_string_round_trip(s, rest),
        ValueView::Null => {},
    }
}

/// Every value that `parse_value` reads fits an encoding.
pub proof fn lemma_parse_value_fits(b: Seq<u8>)
    requires
        parse_value(b) is Some,
    ensures
        parse_value(b) matches Some((v, k)) && fits(v) && 0 < k <= b.len(),
{
    if b[0] == 2 {
        let (s, k) = parse_frame(b.drop_first())->0;
        assert(s.len() == le_u64(b.drop_first()) as int);
        vstd::utf8::decode_utf8_encode_utf8(s);
    }
}

/// The encodings of `q`'s values, one after another.
pub open spec fn values_bytes(q: Seq<ValueView>) -> Seq<u8>
    decreases q.len(),
{
    if q.len() == 0 {
        Seq::empty()
    } else {
        value_bytes(q[0]) + values_bytes(q.drop_first())
    }
}

/// The encoding of a queue: its count, then its values.
pub open spec fn queue_bytes(q: Seq<ValueView>) -> Seq<u8> {
    u64_le(q.len() as u64) + values_bytes(q)
}

/// Reads exactly `n` values that take all of `b`.
pub open spec fn parse_values(b: Seq<u8>, n: nat) -> Option<Seq<ValueView>>
    decreases n,
{
    if n == 0 {
        if b.len() == 0 {
            Some(Seq::empty())
        } else {
            None
        }
    } else {
        match parse_value(b) {
            Some((v, k)) => match parse_values(b.subrange(k, b.len() as int), (n - 1) as nat) {
                Some(rest) => Some(seq![v] + rest),
                None => None,
            },
            None => None,
        }
    }
}

/// Reads a queue that takes all of `b`.
pub open spec fn parse_queue(b: Seq<u8>) -> Option<Seq<ValueView>> {
    if b.len() < 8 {
        None
    } else {
        parse_values(b.subrange(8, b.len() as int), le_u64(b) as nat)
    }
}

/// Every value of `q` fits an encoding, and so does its count.
pub open spec fn queue_fits(q: Seq<ValueView>) -> bool {
    q.len() <= u64::MAX && forall|i: int| 0 <= i < q.len() ==> fits(#[trigger] q[i])
}

proof fn lemma_values_round_trip(q: Seq<ValueView>)
    requires
        forall|i: int| 0 <= i < q.len() ==> fits(#[trigger] q[i]),
    ensures
        parse_values(values_bytes(q), q.len()) == Some(q),
    decreases q.len(),
{
    if q.len() > 0 {
        let tail = values_bytes(q.drop_first());
        lemma_value_round_trip(q[0], tail);
        let k = value_bytes(q[0]).len() as int;
        assert(values_bytes(q).subrange(k, values_bytes(q).len() as int) =~= tail);
        assert forall|i: int| 0 <= i < q.drop_first().len() implies fits(
            #[trigger] q.drop_first()[i],
        ) by {
            assert(q.drop_first()[i] == q[i + 1]);
        }
        lemma_values_round_trip(q.drop_first());
        assert(seq![q[0]] + q.drop_first() =~= q);
    }
}

pub proof fn lemma_queue_round_trip(q: Seq<ValueView>)
    requires
        queue_fits(q),
    ensures
        parse_queue(queue_bytes(q)) == Some(q),
{
    lemma_u64_round_trip(q.len() as u64);
    let b = queue_bytes(q);
    assert(b.subrange(8, b.len() as int) =~= values_bytes(q));
    lemma_le_u64_prefix(u64_le(q.len() as u64), values_bytes(q));
    lemma_values_round_trip(q);
}

proof fn lemma_parse_values_fits(b: Seq<u8>, n: nat)
    requires
        parse_values(b, n) is Some,
    ensures
        parse_values(b, n)->0.len() == n,
        forall|i: int| 0 <= i < n ==> fits(#[trigger] parse_values(b, n)->0[i]),
    decreases n,
{
    if n > 0 {
        let (v, k) = parse_value(b)->0;
        lemma_parse_value_fits(b);
        let rest = b.subrange(k, b.len() as int);
        lemma_parse_values_fits(rest, (n - 1) as nat);
        let all = parse_values(b, n)->0;
        assert forall|i: int| 0 <= i < n implies fits(#[trigger] all[i]) by {
            if i > 0 {
                assert(all[i] == parse_values(rest, (n - 1) as nat)->0[i - 1]);
            }
        }
    }
}

/// Every queue that `parse_queue` reads fits an encoding.
pub proof fn lemma_parse_queue_fits(b: Seq<u8>)
    requires
        parse_queue(b) is Some,
    ensures
        queue_fits(parse_queue(b)->0),
{
    lemma_parse_values_fits(b.subrange(8, b.len() as int), le_u64(b) as nat);
}

/// Relies on `std::str::from_utf8`: it succeeds exactly on valid UTF-8, and
/// then gives the characters that the bytes encode.
#[verifier::external_body]
fn utf8_to_string(b: &[u8]) -> (r: Option<String>)
    ensures
        r is Some <==> valid_utf8(b@),
        r matches Some(s) ==> s@ == decode_utf8(b@),
{
    std::str::from_utf8(b).ok().map(str::to_owned)
}

/// Appends the 8 little-endian bytes of `x`.
pub fn push_u64(out: &mut Vec<u8>, x: u64)
    ensures
        final(out)@ == old(out)@ + u64_le(x),
{
    out.push(x as u8);
    out.push((x >> 8u64) as u8);
    out.push((x >> 16u64) as u8);
    out.push((x >> 24u64) as u8);
    out.push((x >> 32u64) as u8);
    out.push((x >> 40u64) as u8);
    out.push((x >> 48u64) as u8);
    out.push((x >> 56u64) as u8);
    assert(out@ =~= old(out)@ + u64_le(x));
}

/// Appends the bytes of `b`.
pub fn push_bytes(out: &mut Vec<u8>, b: &[u8])
    ensures
        final(out)@ == old(out)@ + b@,
{
    let mut i: usize = 0;
    while i < b.len()
        invariant
            i <= b@.len(),
            out@ == old(out)@ + b@.subrange(0, i as int),
        decreases b.len() - i,
    {
        out.push(b[i]);
        i += 1;
        assert(out@ =~= old(out)@ + b@.subrange(0, i as int));
    }
    assert(b@.subrange(0, i as int) =~= b@);
}

/// Appends a frame that holds `b`.
pub fn push_frame(out: &mut Vec<u8>, b: &[u8])
    ensures
        final(out)@ == old(out)@ + frame(b@),
        b@.len() <= u64::MAX,
{
    push_u64(out, b.len() as u64);
    push_bytes(out, b);
    assert(out@ =~= old(out)@ + frame(b@));
}

/// Reads the 8 little-endian bytes at `pos`.
pub fn read_u64(b: &[u8], pos: usize) -> (r: u64)
    requires
        pos + 8 <= b@.len(),
    ensures
        r == le_u64(b@.subrange(pos as int, b@.len() as int)),
{
    reveal(le_u64);
    (b[pos] as u64) | ((b[pos + 1] as u64) << 8u64) | ((b[pos + 2] as u64) << 16u64) | ((b[pos
        + 3] as u64) << 24u64) | ((b[pos + 4] as u64) << 32u64) | ((b[pos + 5] as u64) << 40u64)
        | ((b[pos + 6] as u64) << 48u64) | ((b[pos + 7] as u64) << 56u64)
}

/// Reads a frame at `pos`: where its bytes start and end.
pub fn read_frame(b: &[u8], pos: usize) -> (r: Option<(usize, usize)>)
    requires
        pos <= b@.len(),
    ensures
        ({
            let p = parse_frame(b@.subrange(pos as int, b@.len() as int));
            match r {
                Some((s, e)) => p matches Some((bytes, k)) && s == pos + 8 && e == pos + k && bytes
                    == b@.subrange(s as int, e as int),
                None => p is None,
            }
        }),
{
    if b.len() - pos < 8 {
        return None;
    }
    let n = read_u64(b, pos);
    if n > (b.len() - pos - 8) as u64 {
        return None;
    }
    let start = pos + 8;
    let end = start + n as usize;
    assert(b@.subrange(pos as int, b@.len() as int).subrange(8, 8 + n as int) =~= b@.subrange(
        start as int,
        end as int,
    ));
    Some((start, end))
}

/// Appends the encoding of `v`.
pub fn push_value(out: &mut Vec<u8>, v: &Value)
    ensures
        final(out)@ == old(out)@ + value_bytes(v@),
{
    match v {
        Value::Integer(i) => {
            out.push(0u8);
            push_u64(out, *i as u64);
        },
        Value::Float(f) => {
            out.push(1u8);
            push_u64(out, *f);
        },
        Value::String(s) => {
            out.push(2u8);
            push_frame(out, s.as_str().as_bytes());
        },
        Value::Null => {
            out.push(3u8);
        },
    }
    assert(out@ =~= old(out)@ + value_bytes(v@));
}

/// Reads a value at `pos`: the value, and the position after it.
pub fn read_value(b: &[u8], pos: usize) -> (r: Option<(Value, usize)>)
    requires
        pos <= b@.len(),
    ensures
        ({
            let p = parse_value(b@.subrange(pos as int, b@.len() as int));
            match r {
                Some((v, end)) => p matches Some((pv, k)) && v@ == pv && end == pos + k,
                None => p is None,
            }
        }),
{
    let ghost rest = b@.subrange(pos as int, b@.len() as int);
    if pos == b.len() {
        return None;
    }
    let tag = b[pos];
    assert(rest[0] == tag);
    if tag == 0 || tag == 1 {
        if b.len() - pos < 9 {
            return None;
        }
        let x = read_u64(b, pos + 1);
        assert(b@.subrange(pos + 1, b@.len() as int) =~= rest.drop_first());
        if tag == 0 {
            Some((Value::Integer(x as i64), pos + 9))
        } else {
            Some((Value::Float(x), pos + 9))
        }
    } else if tag == 2 {
        assert(b@.subrange(pos + 1, b@.len() as int) =~= rest.drop_first());
        match read_frame(b, pos + 1) {
            Some((start, end)) => match utf8_to_string(&b[start..end]) {
                Some(s) => Some((Value::String(s), end)),
                None => None,
            },
            None => None,
        }
    } else if tag == 3 {
        Some((Value::Null, pos + 1))
    } else {
        None
    }
}

proof fn lemma_values_bytes_push(q: Seq<ValueView>, v: ValueView)
    ensures
        values_bytes(q.push(v)) == values_bytes(q) + value_bytes(v),
    decreases q.len(),
{
    let p = q.push(v);
    if q.len() == 0 {
        assert(p.drop_first() =~= Seq::<ValueView>::empty());
        assert(values_bytes(p.drop_first()) == Seq::<u8>::empty());
        assert(p[0] == v);
        assert(values_bytes(q) == Seq::<u8>::empty());
        assert(values_bytes(p) =~= values_bytes(q) + value_bytes(v));
    } else {
        lemma_values_bytes_push(q.drop_first(), v);
        assert(p.drop_first() =~= q.drop_first().push(v));
        assert(p[0] == q[0]);
        assert(values_bytes(p) == value_bytes(q[0]) + values_bytes(q.drop_first().push(v)));
        assert(values_bytes(p) =~= values_bytes(q) + value_bytes(v));
    }
}

/// The encoding of a queue.
pub fn encode_queue(q: &Vec<Value>) -> (r: Vec<u8>)
    ensures
        r@ == queue_bytes(views(q@)),
{
    let mut out: Vec<u8> = Vec::new();
    push_u64(&mut out, q.len() as u64);
    let mut i: usize = 0;
    while i < q.len()
        invariant
            i <= q@.len(),
            out@ == u64_le(q@.len() as u64) + values_bytes(views(q@.subrange(0, i as int))),
        decreases q.len() - i,
    {
        let ghost before = views(q@.subrange(0, i as int));
        push_value(&mut out, &q[i]);
        proof {
            lemma_values_bytes_push(before, q@[i as int]@);
            assert(views(q@.subrange(0, i + 1)) =~= before.push(q@[i as int]@));
        }
        i += 1;
    }
    assert(q@.subrange(0, i as int) =~= q@);
    out
}

/// `r` follows `a`, where `o` is read.
pub open spec fn prepend(a: Seq<ValueView>, o: Option<Seq<ValueView>>) -> Option<Seq<ValueView>> {
    match o {
        Some(r) => Some(a + r),
        None => None,
    }
}

/// Reads a queue that takes all of `b`.
pub fn decode_queue(b: &[u8]) -> (r: Option<Vec<Value>>)
    ensures
        match r {
            Some(q) => parse_queue(b@) == Some(views(q@)),
            None => parse_queue(b@) is None,
        },
{
    if b.len() < 8 {
        return None;
    }
    let n = read_u64(b, 0);
    assert(b@.subrange(0, b@.len() as int) =~= b@);
    let mut out: Vec<Value> = Vec::new();
    let mut pos: usize = 8;
    let mut i: u64 = 0;
    assert(prepend(views(out@), parse_values(b@.subrange(8, b@.len() as int), n as nat)) =~= parse_values(
        b@.subrange(8, b@.len() as int),
        n as nat,
    )) by {
        assert(views(out@) =~= Seq::<ValueView>::empty());
        if let Some(r) = parse_values(b@.subrange(8, b@.len() as int), n as nat) {
            assert(Seq::<ValueView>::empty() + r =~= r);
        }
    }
    while i < n
        invariant
            8 <= pos <= b@.len(),
            i <= n,
            n == le_u64(b@),
            parse_queue(b@) == prepend(
                views(out@),
                parse_values(b@.subrange(pos as int, b@.len() as int), (n - i) as nat),
            ),
        decreases n - i,
    {
        let ghost rest = b@.subrange(pos as int, b@.len() as int);
        let ghost m = (n - i) as nat;
        match read_value(b, pos) {
            Some((v, end)) => {
                let ghost k = end - pos;
                assert(rest.subrange(k, rest.len() as int) =~= b@.subrange(end as int, b@.len() as int));
                let ghost before = views(out@);
                out.push(v);
                assert(views(out@) =~= before.push(v@));
                proof {
                    if let Some(tail) = parse_values(
                        b@.subrange(end as int, b@.len() as int),
                        (m - 1) as nat,
                    ) {
                        assert(before + (seq![v@] + tail) =~= before.push(v@) + tail);
                    }
                }
                pos = end;
            },
            None => {
                return None;
            },
        }
        i += 1;
    }
    if pos != b.len() {
        return None;
    }
    assert(b@.subrange(pos as int, b@.len() as int) =~= Seq::<u8>::empty());
    assert(views(out@) + Seq::<ValueView>::empty() =~= views(out@));
    Some(out)
}

} // verus!
