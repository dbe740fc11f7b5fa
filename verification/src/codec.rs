//! The byte encoding of values, rows and cell indices.
//!
//! A value is written as a tag byte and a big-endian payload: `0` for NULL, and
//! for the others a tag for the type and the value moved into the unsigned
//! range, so that byte order is value order within a type. The encoding
//! describes itself: no encoded value is a prefix of another.

use vstd::prelude::*;
use crate::error::StreamError;
use crate::types::{Datum, Row, ScalarImpl};

verus! {

pub open spec fn be16(u: nat) -> Seq<u8> {
    seq![(u / 256 % 256) as u8, (u % 256) as u8]
}

pub open spec fn be32(u: nat) -> Seq<u8> {
    seq![
        (u / 16777216 % 256) as u8,
        (u / 65536 % 256) as u8,
        (u / 256 % 256) as u8,
        (u % 256) as u8,
    ]
}

pub open spec fn be64(u: nat) -> Seq<u8> {
    be32(u / 4294967296) + be32(u % 4294967296)
}

pub open spec fn val16(s: Seq<u8>) -> nat {
    (s[0] * 256 + s[1]) as nat
}

pub open spec fn val32(s: Seq<u8>) -> nat {
    (s[0] * 16777216 + s[1] * 65536 + s[2] * 256 + s[3]) as nat
}

pub open spec fn val64(s: Seq<u8>) -> nat {
    val32(s.subrange(0, 4)) * 4294967296 + val32(s.subrange(4, 8))
}

pub proof fn lemma_be16_val16(u: nat)
    requires
        u < 65536,
    ensures
        be16(u).len() == 2,
        val16(be16(u)) == u,
{
}

pub proof fn lemma_val16_be16(s: Seq<u8>)
    requires
        s.len() == 2,
    ensures
        val16(s) < 65536,
        be16(val16(s)) == s,
{
    assert(be16(val16(s)) =~= s);
}

pub proof fn lemma_be32_val32(u: nat)
    requires
        u < 4294967296,
    ensures
        be32(u).len() == 4,
        val32(be32(u)) == u,
{
}

pub proof fn lemma_val32_be32(s: Seq<u8>)
    requires
        s.len() == 4,
    ensures
        val32(s) < 4294967296,
        be32(val32(s)) == s,
{
    let a = s[0] as int;
    let b = s[1] as int;
    let c = s[2] as int;
    let d = s[3] as int;
    let v = a * 16777216 + b * 65536 + c * 256 + d;
    assert(v == (a * 65536 + b * 256 + c) * 256 + d);
    assert(v % 256 == d);
    assert(v / 256 == a * 65536 + b * 256 + c);
    assert(v / 256 % 256 == c) by {
        assert(v / 256 == (a * 256 + b) * 256 + c);
    }
    assert(v / 65536 == a * 256 + b) by {
        assert(v == (a * 256 + b) * 65536 + (c * 256 + d));
    }
    assert(v / 65536 % 256 == b);
    assert(v / 16777216 == a) by {
        assert(v == a * 16777216 + (b * 65536 + c * 256 + d));
    }
    assert(be32(val32(s)) =~= s);
}

pub proof fn lemma_be64_val64(u: nat)
    requires
        u < 18446744073709551616,
    ensures
        be64(u).len() == 8,
        val64(be64(u)) == u,
{
    let hi = u / 4294967296;
    let lo = u % 4294967296;
    lemma_be32_val32(hi);
    lemma_be32_val32(lo);
    assert(be64(u).subrange(0, 4) =~= be32(hi));
    assert(be64(u).subrange(4, 8) =~= be32(lo));
}

pub proof fn lemma_val64_be64(s: Seq<u8>)
    requires
        s.len() == 8,
    ensures
        val64(s) < 18446744073709551616,
        be64(val64(s)) == s,
{
    let a = s.subrange(0, 4);
    let b = s.subrange(4, 8);
    lemma_val32_be32(a);
    lemma_val32_be32(b);
    assert(val64(s) / 4294967296 == val32(a));
    assert(val64(s) % 4294967296 == val32(b));
    assert(be64(val64(s)) =~= s);
}

/// The bytes of one nullable value.
pub open spec fn encode_datum(d: Datum) -> Seq<u8> {
    match d {
        None => seq![0u8],
        Some(ScalarImpl::Bool(b)) => seq![1u8, if b { 1u8 } else { 0u8 }],
        Some(ScalarImpl::Int16(v)) => seq![2u8] + be16((v + 0x8000) as nat),
        Some(ScalarImpl::Int32(v)) => seq![3u8] + be32((v + 0x8000_0000) as nat),
        Some(ScalarImpl::Int64(v)) => seq![4u8] + be64((v + 0x8000_0000_0000_0000) as nat),
    }
}

/// The value that `s` starts with and the number of bytes it takes, or `None`
/// where `s` does not start with an encoded value.
pub open spec fn decode_datum(s: Seq<u8>) -> Option<(Datum, int)> {
    if s.len() == 0 {
        None
    } else if s[0] == 0 {
        Some((None, 1))
    } else if s[0] == 1 {
        if s.len() >= 2 && s[1] <= 1 {
            Some((Some(ScalarImpl::Bool(s[1] == 1)), 2))
        } else {
            None
        }
    } else if s[0] == 2 {
        if s.len() >= 3 {
            Some((Some(ScalarImpl::Int16((val16(s.subrange(1, 3)) - 0x8000) as i16)), 3))
        } else {
            None
        }
    } else if s[0] == 3 {
        if s.len() >= 5 {
            Some((Some(ScalarImpl::Int32((val32(s.subrange(1, 5)) - 0x8000_0000) as i32)), 5))
        } else {
            None
        }
    } else if s[0] == 4 {
        if s.len() >= 9 {
            Some(
                (
                    Some(
                        ScalarImpl::Int64(
                            (val64(s.subrange(1, 9)) - 0x8000_0000_0000_0000) as i64,
                        ),
                    ),
                    9,
                ),
            )
        } else {
            None
        }
    } else {
        None
    }
}

/// Decoding reads back what was encoded, whatever follows it.
pub proof fn lemma_decode_encode(d: Datum, rest: Seq<u8>)
    ensures
        decode_datum(encode_datum(d) + rest) == Some((d, encode_datum(d).len() as int)),
        1 <= encode_datum(d).len() <= 9,
{
    let e = encode_datum(d);
    let s = e + rest;
    assert(s[0] == e[0]);
    match d {
        None => {},
        Some(ScalarImpl::Bool(b)) => {
            assert(s[1] == e[1]);
        },
        Some(ScalarImpl::Int16(v)) => {
            lemma_be16_val16((v + 0x8000) as nat);
            assert(s.subrange(1, 3) =~= be16((v + 0x8000) as nat));
        },
        Some(ScalarImpl::Int32(v)) => {
            lemma_be32_val32((v + 0x8000_0000) as nat);
            assert(s.subrange(1, 5) =~= be32((v + 0x8000_0000) as nat));
        },
        Some(ScalarImpl::Int64(v)) => {
            lemma_be64_val64((v + 0x8000_0000_0000_0000) as nat);
            assert(s.subrange(1, 9) =~= be64((v + 0x8000_0000_0000_0000) as nat));
        },
    }
}

/// What decoding accepts is the encoding of what it returns.
pub proof fn lemma_encode_decode(s: Seq<u8>)
    requires
        decode_datum(s).is_some(),
    ensures
        1 <= decode_datum(s).unwrap().1 <= s.len(),
        s.subrange(0, decode_datum(s).unwrap().1) == encode_datum(decode_datum(s).unwrap().0),
{
    let (d, n) = decode_datum(s).unwrap();
    if s[0] == 0 {
        assert(s.subrange(0, 1) =~= seq![0u8]);
    } else if s[0] == 1 {
        assert(s.subrange(0, 2) =~= encode_datum(d));
    } else if s[0] == 2 {
        lemma_val16_be16(s.subrange(1, 3));
        assert(s.subrange(0, 3) =~= seq![2u8] + s.subrange(1, 3));
    } else if s[0] == 3 {
        lemma_val32_be32(s.subrange(1, 5));
        assert(s.subrange(0, 5) =~= seq![3u8] + s.subrange(1, 5));
    } else {
        lemma_val64_be64(s.subrange(1, 9));
        assert(s.subrange(0, 9) =~= seq![4u8] + s.subrange(1, 9));
    }
}

/// The bytes of a tuple of values: one value after the other.
pub open spec fn encode_datums(ds: Seq<Datum>) -> Seq<u8>
    decreases ds.len(),
{
    if ds.len() == 0 {
        Seq::empty()
    } else {
        encode_datum(ds[0]) + encode_datums(ds.subrange(1, ds.len() as int))
    }
}

pub proof fn lemma_encode_push(ds: Seq<Datum>, d: Datum)
    ensures
        encode_datums(ds.push(d)) == encode_datums(ds) + encode_datum(d),
    decreases ds.len(),
{
    let t = ds.push(d);
    if ds.len() == 0 {
        assert(t.subrange(1, t.len() as int) =~= Seq::<Datum>::empty());
        assert(encode_datums(t.subrange(1, t.len() as int)) =~= Seq::<u8>::empty());
        assert(encode_datums(t) =~= encode_datum(d));
        assert(encode_datums(ds) + encode_datum(d) =~= encode_datum(d));
    } else {
        let tail = ds.subrange(1, ds.len() as int);
        assert(t.subrange(1, t.len() as int) =~= tail.push(d));
        lemma_encode_push(tail, d);
        assert(encode_datums(t) =~= encode_datums(ds) + encode_datum(d));
    }
}

/// Tuples of one length whose encodings, each followed by anything, agree are
/// the same tuple, followed by the same.
pub proof fn lemma_encode_datums_injective(a: Seq<Datum>, x: Seq<u8>, b: Seq<Datum>, y: Seq<u8>)
    requires
        a.len() == b.len(),
        encode_datums(a) + x == encode_datums(b) + y,
    ensures
        a == b,
        x == y,
    decreases a.len(),
{
    if a.len() == 0 {
        assert(encode_datums(a) + x =~= x);
        assert(encode_datums(b) + y =~= y);
        assert(a =~= b);
    } else {
        let ta = a.subrange(1, a.len() as int);
        let tb = b.subrange(1, b.len() as int);
        let ra = encode_datums(ta) + x;
        let rb = encode_datums(tb) + y;
        assert(encode_datums(a) + x =~= encode_datum(a[0]) + ra);
        assert(encode_datums(b) + y =~= encode_datum(b[0]) + rb);
        lemma_decode_encode(a[0], ra);
        lemma_decode_encode(b[0], rb);
        let n = encode_datum(a[0]).len() as int;
        assert(ra =~= (encode_datum(a[0]) + ra).subrange(n, (encode_datum(a[0]) + ra).len() as int));
        assert(rb =~= (encode_datum(b[0]) + rb).subrange(n, (encode_datum(b[0]) + rb).len() as int));
        lemma_encode_datums_injective(ta, x, tb, y);
        assert(a =~= seq![a[0]] + ta);
        assert(b =~= seq![b[0]] + tb);
    }
}

/// Tuples with the same encoding are the same tuple.
pub proof fn lemma_encode_datums_unique(a: Seq<Datum>, b: Seq<Datum>)
    requires
        encode_datums(a) == encode_datums(b),
    ensures
        a == b,
    decreases a.len(),
{
    if a.len() == 0 || b.len() == 0 {
        if a.len() > 0 {
            lemma_decode_encode(a[0], encode_datums(a.subrange(1, a.len() as int)));
        }
        if b.len() > 0 {
            lemma_decode_encode(b[0], encode_datums(b.subrange(1, b.len() as int)));
        }
        assert(a =~= b);
    } else {
        let ta = a.subrange(1, a.len() as int);
        let tb = b.subrange(1, b.len() as int);
        let ra = encode_datums(ta);
        let rb = encode_datums(tb);
        lemma_decode_encode(a[0], ra);
        lemma_decode_encode(b[0], rb);
        let n = encode_datum(a[0]).len() as int;
        assert(ra =~= (encode_datum(a[0]) + ra).subrange(n, (encode_datum(a[0]) + ra).len() as int));
        assert(rb =~= (encode_datum(b[0]) + rb).subrange(n, (encode_datum(b[0]) + rb).len() as int));
        lemma_encode_datums_unique(ta, tb);
        assert(a =~= seq![a[0]] + ta);
        assert(b =~= seq![b[0]] + tb);
    }
}

/// The four bytes of a cell index, most significant first.
pub fn serialize_cell_idx(cell_idx: u32) -> (out: Vec<u8>)
    ensures
        out@ == be32(cell_idx as nat),
{
    let mut out: Vec<u8> = Vec::new();
    push_be32(&mut out, cell_idx);
    out
}

/// The number that four bytes of `bytes`, from `at` on, stand for, most
/// significant byte first.
pub fn read_be32(bytes: &Vec<u8>, at: usize) -> (u: u32)
    requires
        at + 4 <= bytes@.len(),
    ensures
        u == val32(bytes@.subrange(at as int, at + 4)),
{
    assert(bytes@.len() == bytes.len());
    let u: u64 = bytes[at] as u64 * 16777216 + bytes[at + 1] as u64 * 65536 + bytes[at + 2] as u64
        * 256 + bytes[at + 3] as u64;
    u as u32
}

/// The number that eight bytes of `bytes`, from `at` on, stand for, most
/// significant byte first.
pub fn read_be64(bytes: &Vec<u8>, at: usize) -> (u: u64)
    requires
        at + 8 <= bytes@.len(),
    ensures
        u == val64(bytes@.subrange(at as int, at + 8)),
{
    assert(bytes@.len() == bytes.len());
    let hi = read_be32(bytes, at);
    let lo = read_be32(bytes, at + 4);
    proof {
        let s = bytes@.subrange(at as int, at + 8);
        assert(s.subrange(0, 4) =~= bytes@.subrange(at as int, at + 4));
        assert(s.subrange(4, 8) =~= bytes@.subrange(at + 4, at + 8));
    }
    hi as u64 * 4294967296 + lo as u64
}

/// The eight bytes of `u`, most significant first.
pub fn serialize_u64(u: u64) -> (out: Vec<u8>)
    ensures
        out@ == be64(u as nat),
{
    let mut out: Vec<u8> = Vec::new();
    push_be64(&mut out, u);
    out
}

fn push_be16(buf: &mut Vec<u8>, u: u16)
    ensures
        final(buf)@ == old(buf)@ + be16(u as nat),
{
    buf.push((u / 256) as u8);
    buf.push((u % 256) as u8);
    assert(buf@ =~= old(buf)@ + be16(u as nat));
}

fn push_be32(buf: &mut Vec<u8>, u: u32)
    ensures
        final(buf)@ == old(buf)@ + be32(u as nat),
{
    buf.push((u / 16777216) as u8);
    buf.push((u / 65536 % 256) as u8);
    buf.push((u / 256 % 256) as u8);
    buf.push((u % 256) as u8);
    assert(buf@ =~= old(buf)@ + be32(u as nat));
}

fn push_be64(buf: &mut Vec<u8>, u: u64)
    ensures
        final(buf)@ == old(buf)@ + be64(u as nat),
{
    let ghost b0 = buf@;
    push_be32(buf, (u / 4294967296) as u32);
    push_be32(buf, (u % 4294967296) as u32);
    assert(buf@ =~= b0 + be64(u as nat));
}

/// Appends the encoding of `d` to `buf`.
pub fn serialize_datum_into(buf: &mut Vec<u8>, d: &Datum)
    ensures
        final(buf)@ == old(buf)@ + encode_datum(*d),
{
    let ghost b0 = buf@;
    match d {
        None => {
            buf.push(0u8);
        },
        Some(ScalarImpl::Bool(b)) => {
            buf.push(1u8);
            buf.push(if *b { 1u8 } else { 0u8 });
        },
        Some(ScalarImpl::Int16(v)) => {
            buf.push(2u8);
            push_be16(buf, (*v as i32 + 0x8000) as u16);
        },
        Some(ScalarImpl::Int32(v)) => {
            buf.push(3u8);
            push_be32(buf, (*v as i64 + 0x8000_0000) as u32);
        },
        Some(ScalarImpl::Int64(v)) => {
            buf.push(4u8);
            push_be64(buf, (*v as i128 + 0x8000_0000_0000_0000) as u64);
        },
    }
    assert(buf@ =~= b0 + encode_datum(*d));
}

/// The bytes under which one cell of a row is stored.
pub fn serialize_cell(cell: &Datum) -> (out: Vec<u8>)
    ensures
        out@ == encode_datum(*cell),
{
    let mut out: Vec<u8> = Vec::new();
    serialize_datum_into(&mut out, cell);
    assert(out@ =~= encode_datum(*cell));
    out
}

/// The value that `bytes` encodes: `Some` exactly if `bytes` is the encoding
/// of a value, and then that value.
pub fn deserialize_cell(bytes: &Vec<u8>) -> (r: Option<Datum>)
    ensures
        r == decode_cell(bytes@),
{
    let n = bytes.len();
    if n == 0 {
        return None;
    }
    let tag = bytes[0];
    if tag == 0 {
        if n == 1 { Some(None) } else { None }
    } else if tag == 1 {
        if n == 2 && bytes[1] <= 1 {
            Some(Some(ScalarImpl::Bool(bytes[1] == 1)))
        } else {
            None
        }
    } else if tag == 2 {
        if n == 3 {
            let u: i32 = bytes[1] as i32 * 256 + bytes[2] as i32;
            assert(u == val16(bytes@.subrange(1, 3)));
            Some(Some(ScalarImpl::Int16((u - 0x8000) as i16)))
        } else {
            None
        }
    } else if tag == 3 {
        if n == 5 {
            let u: i64 = bytes[1] as i64 * 16777216 + bytes[2] as i64 * 65536 + bytes[3] as i64
                * 256 + bytes[4] as i64;
            assert(u == val32(bytes@.subrange(1, 5)));
            Some(Some(ScalarImpl::Int32((u - 0x8000_0000) as i32)))
        } else {
            None
        }
    } else if tag == 4 {
        if n == 9 {
            let hi: i128 = bytes[1] as i128 * 16777216 + bytes[2] as i128 * 65536 + bytes[3] as i128
                * 256 + bytes[4] as i128;
            let lo: i128 = bytes[5] as i128 * 16777216 + bytes[6] as i128 * 65536 + bytes[7] as i128
                * 256 + bytes[8] as i128;
            let u: i128 = hi * 4294967296 + lo;
            proof {
                let s = bytes@.subrange(1, 9);
                assert(hi == val32(s.subrange(0, 4)));
                assert(lo == val32(s.subrange(4, 8)));
            }
            Some(Some(ScalarImpl::Int64((u - 0x8000_0000_0000_0000) as i64)))
        } else {
            None
        }
    } else {
        None
    }
}

/// The value that the whole of `s` encodes, if it encodes one.
pub open spec fn decode_cell(s: Seq<u8>) -> Option<Datum> {
    match decode_datum(s) {
        Some((d, n)) => if n == s.len() {
            Some(d)
        } else {
            None
        },
        None => None,
    }
}

/// `decode_cell` inverts `encode_datum`, and accepts nothing else.
pub proof fn lemma_cell_round_trip(d: Datum, s: Seq<u8>)
    ensures
        decode_cell(encode_datum(d)) == Some(d),
        decode_cell(s) == Some(d) ==> s == encode_datum(d),
{
    lemma_decode_encode(d, Seq::empty());
    assert(encode_datum(d) + Seq::<u8>::empty() =~= encode_datum(d));
    if decode_cell(s) == Some(d) {
        lemma_encode_decode(s);
        assert(s.subrange(0, s.len() as int) =~= s);
    }
}

/// The encoding of the values of `row`, one after the other.
pub fn serialize_row(row: &Row) -> (out: Vec<u8>)
    ensures
        out@ == encode_datums(row@),
{
    let mut out: Vec<u8> = Vec::new();
    let mut i: usize = 0;
    while i < row.0.len()
        invariant
            i <= row.0.len(),
            out@ == encode_datums(row@.subrange(0, i as int)),
        decreases row.0.len() - i,
    {
        serialize_datum_into(&mut out, &row.0[i]);
        proof {
            lemma_encode_push(row@.subrange(0, i as int), row@[i as int]);
            assert(row@.subrange(0, i + 1) =~= row@.subrange(0, i as int).push(row@[i as int]));
        }
        i += 1;
    }
    assert(row@.subrange(0, row@.len() as int) == row@);
    out
}

/// The direction in which a column of a sort key orders its rows.
#[derive(Clone, Copy, Debug, PartialEq, Eq, Structural)]
pub enum OrderType {
    Ascending,
    Descending,
}

/// Every byte turned into its complement, which turns the order of byte strings round.
pub open spec fn invert(s: Seq<u8>) -> Seq<u8> {
    Seq::new(s.len(), |i: int| (255 - s[i]) as u8)
}

/// The bytes of one value of a sort key.
pub open spec fn encode_ordered_datum(d: Datum, order: OrderType) -> Seq<u8> {
    match order {
        OrderType::Ascending => encode_datum(d),
        OrderType::Descending => invert(encode_datum(d)),
    }
}

/// The bytes of a sort key: its values one after the other, each in the
/// direction of its column.
pub open spec fn encode_ordered(ds: Seq<Datum>, orders: Seq<OrderType>) -> Seq<u8>
    decreases ds.len(),
{
    if ds.len() == 0 {
        Seq::empty()
    } else {
        encode_ordered(ds.drop_last(), orders.drop_last()) + encode_ordered_datum(
            ds.last(),
            orders[ds.len() - 1],
        )
    }
}

/// A sort key whose columns all ascend is encoded as any tuple of values.
pub proof fn lemma_encode_ordered_ascending(ds: Seq<Datum>, orders: Seq<OrderType>)
    requires
        orders.len() >= ds.len(),
        forall|i: int| 0 <= i < ds.len() ==> orders[i] == OrderType::Ascending,
    ensures
        encode_ordered(ds, orders) == encode_datums(ds),
    decreases ds.len(),
{
    if ds.len() > 0 {
        lemma_encode_ordered_ascending(ds.drop_last(), orders.drop_last());
        lemma_encode_push(ds.drop_last(), ds.last());
        assert(ds.drop_last().push(ds.last()) =~= ds);
    }
}

/// The encoding of the sort key `pk`, whose columns are ordered as `orders`
/// says. Refused unless there is one direction for each value of the key.
pub fn serialize_pk(pk: &Row, orders: &Vec<OrderType>) -> (r: Result<Vec<u8>, StreamError>)
    ensures
        match r {
            Ok(out) => pk@.len() == orders@.len() && out@ == encode_ordered(pk@, orders@),
            Err(e) => pk@.len() != orders@.len() && e == StreamError::WidthMismatch,
        },
{
    if pk.0.len() != orders.len() {
        return Err(StreamError::WidthMismatch);
    }
    let mut out: Vec<u8> = Vec::new();
    let mut i: usize = 0;
    while i < pk.0.len()
        invariant
            i <= pk.0.len(),
            pk@.len() == orders@.len(),
            out@ == encode_ordered(pk@.subrange(0, i as int), orders@.subrange(0, i as int)),
        decreases pk.0.len() - i,
    {
        let ghost before = out@;
        match orders[i] {
            OrderType::Ascending => {
                serialize_datum_into(&mut out, &pk.0[i]);
            },
            OrderType::Descending => {
                let plain = serialize_cell(&pk.0[i]);
                let mut j: usize = 0;
                while j < plain.len()
                    invariant
                        j <= plain.len(),
                        out@ == before + invert(plain@).subrange(0, j as int),
                    decreases plain.len() - j,
                {
                    out.push(255 - plain[j]);
                    assert(out@ =~= before + invert(plain@).subrange(0, j + 1));
                    j += 1;
                }
                assert(invert(plain@).subrange(0, plain@.len() as int) =~= invert(plain@));
            },
        }
        proof {
            let ds = pk@.subrange(0, i + 1);
            let os = orders@.subrange(0, i + 1);
            assert(ds.drop_last() =~= pk@.subrange(0, i as int));
            assert(os.drop_last() =~= orders@.subrange(0, i as int));
        }
        i += 1;
    }
    assert(pk@.subrange(0, pk@.len() as int) == pk@);
    assert(orders@.subrange(0, orders@.len() as int) == orders@);
    Ok(out)
}

} // verus!
