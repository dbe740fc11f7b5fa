//! The order of encoded values is the order of the values: NULL first, then
//! by type, then by value; a sort key orders its rows column by column, each
//! column in its direction.

use vstd::prelude::*;
use crate::bytes::{
    bytes_lt, is_prefix, lemma_lt_asymmetric, lemma_lt_common_prefix, lemma_lt_extend,
    lemma_lt_same_length, lemma_lt_total, lt_at,
};
use crate::codec::{
    be16, be32, be64, encode_datum, encode_ordered, encode_ordered_datum, invert, lemma_be16_val16,
    lemma_be32_val32, lemma_be64_val64, val32, OrderType,
};
use crate::types::{Datum, ScalarImpl};

verus! {

pub proof fn lemma_be16_ordered(u: nat, v: nat)
    requires
        u < 65536,
        v < 65536,
    ensures
        bytes_lt(be16(u), be16(v)) == (u < v),
        be16(u).len() == 2,
        u != v ==> !is_prefix(be16(u), be16(v)),
{
    let a = be16(u);
    let b = be16(v);
    lemma_be16_val16(u);
    lemma_be16_val16(v);
    assert(a.subrange(0, 0) =~= b.subrange(0, 0));
    if a.subrange(0, 1) == b.subrange(0, 1) {
        assert(a.subrange(0, 1)[0] == b.subrange(0, 1)[0]);
    }
    if u < v {
        lemma_first_difference(a, b, 0);
    } else if v < u {
        lemma_first_difference(b, a, 0);
        lemma_lt_asymmetric(b, a);
        if is_prefix(a, b) {
            assert(b.subrange(0, 2) =~= b);
        }
    } else if bytes_lt(a, b) {
        lemma_lt_asymmetric(a, b);
    }
}

/// Byte strings of one length that are not the same are ordered by the
/// first byte in which they differ.
proof fn lemma_first_difference(a: Seq<u8>, b: Seq<u8>, i: int)
    requires
        a.len() == b.len(),
        0 <= i <= a.len(),
        a.subrange(0, i) == b.subrange(0, i),
        a != b,
        forall|k: int| i <= k < a.len() && a.subrange(0, k) == b.subrange(0, k) && a[k] != b[k]
            ==> a[k] < b[k],
    ensures
        bytes_lt(a, b),
        !is_prefix(a, b),
    decreases a.len() - i,
{
    if i == a.len() {
        assert(a.subrange(0, i) =~= a);
        assert(b.subrange(0, i) =~= b);
    } else if a[i] != b[i] {
        lemma_lt_same_length(a, b, i);
    } else {
        assert(a.subrange(0, i + 1) =~= a.subrange(0, i).push(a[i]));
        assert(b.subrange(0, i + 1) =~= b.subrange(0, i).push(b[i]));
        lemma_first_difference(a, b, i + 1);
    }
}

pub proof fn lemma_be32_ordered(u: nat, v: nat)
    requires
        u < 4294967296,
        v < 4294967296,
    ensures
        bytes_lt(be32(u), be32(v)) == (u < v),
        be32(u).len() == 4,
        u != v ==> !is_prefix(be32(u), be32(v)),
{
    let a = be32(u);
    let b = be32(v);
    lemma_be32_val32(u);
    lemma_be32_val32(v);
    assert(a.subrange(0, 0) =~= b.subrange(0, 0));
    if u < v {
        lemma_be32_first(a, b);
        lemma_first_difference(a, b, 0);
    } else if v < u {
        lemma_be32_first(b, a);
        lemma_first_difference(b, a, 0);
        lemma_lt_asymmetric(b, a);
        if is_prefix(a, b) {
            assert(b.subrange(0, 4) =~= b);
        }
    } else if bytes_lt(a, b) {
        lemma_lt_asymmetric(a, b);
    }
}

/// Of two numbers of four bytes, the smaller has the smaller byte where
/// they first differ.
proof fn lemma_be32_first(a: Seq<u8>, b: Seq<u8>)
    requires
        a.len() == 4,
        b.len() == 4,
        val32(a) < val32(b),
    ensures
        a != b,
        forall|k: int| 0 <= k < 4 && a.subrange(0, k) == b.subrange(0, k) && a[k] != b[k] ==> a[k]
            < b[k],
{
    assert forall|k: int| 0 <= k < 4 && a.subrange(0, k) == b.subrange(0, k) && a[k]
        != b[k] implies a[k] < b[k] by {
        if k >= 1 {
            assert(a.subrange(0, k)[0] == b.subrange(0, k)[0]);
        }
        if k >= 2 {
            assert(a.subrange(0, k)[1] == b.subrange(0, k)[1]);
        }
        if k >= 3 {
            assert(a.subrange(0, k)[2] == b.subrange(0, k)[2]);
        }
    }
}

pub proof fn lemma_be64_ordered(u: nat, v: nat)
    requires
        u < 18446744073709551616,
        v < 18446744073709551616,
    ensures
        bytes_lt(be64(u), be64(v)) == (u < v),
        be64(u).len() == 8,
        u != v ==> !is_prefix(be64(u), be64(v)),
{
    let hu = u / 4294967296;
    let lu = u % 4294967296;
    let hv = v / 4294967296;
    let lv = v % 4294967296;
    lemma_be32_ordered(hu, hv);
    lemma_be32_ordered(lu, lv);
    lemma_be32_ordered(hv, hu);
    lemma_be32_ordered(lv, lu);
    lemma_be64_val64(u);
    lemma_be64_val64(v);
    if hu < hv {
        lemma_lt_extend(be32(hu), be32(hv), be32(lu), be32(lv));
    } else if hv < hu {
        lemma_lt_extend(be32(hv), be32(hu), be32(lv), be32(lu));
        lemma_lt_asymmetric(be64(v), be64(u));
    } else {
        lemma_lt_common_prefix(be32(hu), be32(lu), be32(lv));
        if u != v && is_prefix(be64(u), be64(v)) {
            assert(be64(v).subrange(0, 8) =~= be64(v));
        }
    }
}

/// Where a value stands among all values: its type, NULL being the first,
/// and its place among the values of its type.
pub open spec fn place_of(d: Datum) -> (int, int) {
    match d {
        None => (0, 0),
        Some(ScalarImpl::Bool(b)) => (
            1,
            if b {
                1
            } else {
                0
            },
        ),
        Some(ScalarImpl::Int16(v)) => (2, v as int),
        Some(ScalarImpl::Int32(v)) => (3, v as int),
        Some(ScalarImpl::Int64(v)) => (4, v as int),
    }
}

/// The order of values: NULL comes first; values of one type are ordered
/// as numbers are, `false` before `true`; a value of a type comes before
/// the values of the types after it.
pub open spec fn datum_lt(a: Datum, b: Datum) -> bool {
    place_of(a).0 < place_of(b).0 || (place_of(a).0 == place_of(b).0 && place_of(a).1 < place_of(
        b,
    ).1)
}

/// The order of the encodings of two values is the order of the values, and
/// the encoding of a value is not the beginning of that of another.
pub proof fn lemma_datum_ordered(a: Datum, b: Datum)
    ensures
        bytes_lt(encode_datum(a), encode_datum(b)) == datum_lt(a, b),
        a != b ==> !is_prefix(encode_datum(a), encode_datum(b)),
        a != b ==> datum_lt(a, b) || datum_lt(b, a),
{
    let ea = encode_datum(a);
    let eb = encode_datum(b);
    let ta = place_of(a).0;
    let tb = place_of(b).0;
    assert(ea[0] == ta && eb[0] == tb);
    assert(ea.subrange(0, 0) =~= eb.subrange(0, 0));
    if ta < tb {
        assert(lt_at(ea, eb, 0));
        if is_prefix(ea, eb) {
            assert(eb.subrange(0, ea.len() as int)[0] == ea[0]);
        }
    } else if tb < ta {
        assert(lt_at(eb, ea, 0));
        lemma_lt_asymmetric(eb, ea);
        if is_prefix(ea, eb) {
            assert(eb.subrange(0, ea.len() as int)[0] == ea[0]);
        }
    } else {
        let tag = seq![ea[0]];
        match (a, b) {
            (None, None) => {
                if bytes_lt(ea, eb) {
                    lemma_lt_asymmetric(ea, eb);
                }
            },
            (Some(ScalarImpl::Bool(x)), Some(ScalarImpl::Bool(y))) => {
                let px = seq![if x { 1u8 } else { 0u8 }];
                let py = seq![if y { 1u8 } else { 0u8 }];
                assert(ea =~= tag + px && eb =~= tag + py);
                lemma_lt_common_prefix(tag, px, py);
                assert(px.subrange(0, 0) =~= py.subrange(0, 0));
                if !x && y {
                    lemma_lt_same_length(px, py, 0);
                } else if x && !y {
                    lemma_lt_same_length(py, px, 0);
                } else if bytes_lt(px, py) {
                    lemma_lt_asymmetric(px, py);
                }
                if x != y && is_prefix(ea, eb) {
                    assert(eb.subrange(0, 2) =~= eb);
                    assert(ea[1] == eb[1]);
                }
            },
            (Some(ScalarImpl::Int16(x)), Some(ScalarImpl::Int16(y))) => {
                lemma_be16_ordered((x + 0x8000) as nat, (y + 0x8000) as nat);
                lemma_lt_common_prefix(
                    tag,
                    be16((x + 0x8000) as nat),
                    be16((y + 0x8000) as nat),
                );
                if x != y && is_prefix(ea, eb) {
                    assert(eb.subrange(0, 3) =~= eb);
                    lemma_be16_val16((x + 0x8000) as nat);
                    lemma_be16_val16((y + 0x8000) as nat);
                    assert(ea.subrange(1, 3) =~= be16((x + 0x8000) as nat));
                    assert(eb.subrange(1, 3) =~= be16((y + 0x8000) as nat));
                }
            },
            (Some(ScalarImpl::Int32(x)), Some(ScalarImpl::Int32(y))) => {
                lemma_be32_ordered((x + 0x8000_0000) as nat, (y + 0x8000_0000) as nat);
                lemma_lt_common_prefix(
                    tag,
                    be32((x + 0x8000_0000) as nat),
                    be32((y + 0x8000_0000) as nat),
                );
                if x != y && is_prefix(ea, eb) {
                    assert(eb.subrange(0, 5) =~= eb);
                    lemma_be32_val32((x + 0x8000_0000) as nat);
                    lemma_be32_val32((y + 0x8000_0000) as nat);
                    assert(ea.subrange(1, 5) =~= be32((x + 0x8000_0000) as nat));
                    assert(eb.subrange(1, 5) =~= be32((y + 0x8000_0000) as nat));
                }
            },
            (Some(ScalarImpl::Int64(x)), Some(ScalarImpl::Int64(y))) => {
                lemma_be64_ordered(
                    (x + 0x8000_0000_0000_0000) as nat,
                    (y + 0x8000_0000_0000_0000) as nat,
                );
                lemma_lt_common_prefix(
                    tag,
                    be64((x + 0x8000_0000_0000_0000) as nat),
                    be64((y + 0x8000_0000_0000_0000) as nat),
                );
                if x != y && is_prefix(ea, eb) {
                    assert(eb.subrange(0, 9) =~= eb);
                    lemma_be64_val64((x + 0x8000_0000_0000_0000) as nat);
                    lemma_be64_val64((y + 0x8000_0000_0000_0000) as nat);
                    assert(ea.subrange(1, 9) =~= be64((x + 0x8000_0000_0000_0000) as nat));
                    assert(eb.subrange(1, 9) =~= be64((y + 0x8000_0000_0000_0000) as nat));
                }
            },
            _ => {},
        }
    }
}

/// The order of a value in a column of a sort key: the order of values in
/// an ascending column, its reverse in a descending one.
pub open spec fn directed_lt(a: Datum, b: Datum, order: OrderType) -> bool {
    match order {
        OrderType::Ascending => datum_lt(a, b),
        OrderType::Descending => datum_lt(b, a),
    }
}

/// The order of tuples of one length: the order, in its direction, of the
/// first column in which they differ. A column without a direction ascends.
pub open spec fn tuple_lt(a: Seq<Datum>, b: Seq<Datum>, orders: Seq<OrderType>) -> bool {
    exists|i: int|
        0 <= i < a.len() && i < b.len() && a.subrange(0, i) == b.subrange(0, i) && directed_lt(
            #[trigger] a[i],
            b[i],
            direction(orders, i),
        )
}

pub open spec fn direction(orders: Seq<OrderType>, i: int) -> OrderType {
    if 0 <= i < orders.len() {
        orders[i]
    } else {
        OrderType::Ascending
    }
}

/// Turning every byte into its complement turns the order of two byte
/// strings round, if neither begins with the other.
pub proof fn lemma_invert_order(a: Seq<u8>, b: Seq<u8>)
    requires
        !is_prefix(a, b),
        !is_prefix(b, a),
    ensures
        bytes_lt(invert(a), invert(b)) == bytes_lt(b, a),
        !is_prefix(invert(a), invert(b)),
        !is_prefix(invert(b), invert(a)),
{
    lemma_lt_total(a, b);
    assert(a != b) by {
        if a == b {
            assert(b.subrange(0, a.len() as int) =~= a);
        }
    }
    if bytes_lt(a, b) {
        lemma_invert_reverses(a, b);
        lemma_lt_asymmetric(a, b);
        lemma_lt_asymmetric(invert(b), invert(a));
    } else {
        lemma_invert_reverses(b, a);
    }
}

proof fn lemma_invert_reverses(a: Seq<u8>, b: Seq<u8>)
    requires
        bytes_lt(a, b),
        !is_prefix(a, b),
    ensures
        bytes_lt(invert(b), invert(a)),
        !is_prefix(invert(a), invert(b)),
        !is_prefix(invert(b), invert(a)),
{
    let i = choose|i: int| lt_at(a, b, i);
    if i == a.len() {
        assert(b.subrange(0, a.len() as int) =~= a) by {
            assert(a.subrange(0, i) =~= a);
        }
    }
    let ia = invert(a);
    let ib = invert(b);
    assert(ia.subrange(0, i) =~= ib.subrange(0, i)) by {
        assert forall|k: int| 0 <= k < i implies ia[k] == ib[k] by {
            assert(a.subrange(0, i)[k] == b.subrange(0, i)[k]);
        }
    }
    assert(lt_at(ib, ia, i));
    if is_prefix(ia, ib) {
        assert(ib.subrange(0, ia.len() as int)[i] == ia[i]);
    }
    if is_prefix(ib, ia) {
        assert(ia.subrange(0, ib.len() as int)[i] == ib[i]);
    }
}

/// The order of the encodings of two values in a column of a sort key is
/// the order of the values in the direction of the column.
pub proof fn lemma_directed_ordered(a: Datum, b: Datum, order: OrderType)
    ensures
        bytes_lt(encode_ordered_datum(a, order), encode_ordered_datum(b, order)) == directed_lt(
            a,
            b,
            order,
        ),
        a != b ==> !is_prefix(encode_ordered_datum(a, order), encode_ordered_datum(b, order)),
        a != b ==> directed_lt(a, b, order) || directed_lt(b, a, order),
{
    lemma_datum_ordered(a, b);
    lemma_datum_ordered(b, a);
    match order {
        OrderType::Ascending => {},
        OrderType::Descending => {
            if a != b {
                lemma_invert_order(encode_datum(a), encode_datum(b));
            } else if bytes_lt(invert(encode_datum(a)), invert(encode_datum(b))) {
                lemma_lt_asymmetric(invert(encode_datum(a)), invert(encode_datum(b)));
            }
        },
    }
}

/// The encoding of a sort key, its first column apart from the others.
proof fn lemma_encode_ordered_front(ds: Seq<Datum>, orders: Seq<OrderType>)
    requires
        ds.len() > 0,
        orders.len() == ds.len(),
    ensures
        encode_ordered(ds, orders) == encode_ordered_datum(ds[0], orders[0]) + encode_ordered(
            ds.subrange(1, ds.len() as int),
            orders.subrange(1, orders.len() as int),
        ),
    decreases ds.len(),
{
    let n = ds.len() as int;
    let td = ds.subrange(1, n);
    let to = orders.subrange(1, n);
    if n == 1 {
        assert(encode_ordered(ds.drop_last(), orders.drop_last()) =~= Seq::<u8>::empty());
        assert(encode_ordered(td, to) =~= Seq::<u8>::empty());
        assert(encode_ordered(ds, orders) =~= encode_ordered_datum(ds[0], orders[0]));
        assert(encode_ordered_datum(ds[0], orders[0]) + Seq::<u8>::empty() =~= encode_ordered_datum(
            ds[0],
            orders[0],
        ));
    } else {
        lemma_encode_ordered_front(ds.drop_last(), orders.drop_last());
        assert(ds.drop_last().subrange(1, n - 1) =~= td.drop_last());
        assert(orders.drop_last().subrange(1, n - 1) =~= to.drop_last());
        assert(td.last() == ds.last());
        assert(to[td.len() - 1] == orders[n - 1]);
        assert(encode_ordered(ds, orders) =~= encode_ordered_datum(ds[0], orders[0])
            + encode_ordered(td, to));
    }
}

/// The order of the encodings of two sort keys of one length is the order
/// of the keys: byte order is the order of the rows. Neither encoding is the
/// beginning of the other, unless the keys are the same.
pub proof fn lemma_sort_key_ordered(a: Seq<Datum>, b: Seq<Datum>, orders: Seq<OrderType>)
    requires
        a.len() == b.len(),
        orders.len() == a.len(),
    ensures
        bytes_lt(encode_ordered(a, orders), encode_ordered(b, orders)) == tuple_lt(a, b, orders),
        a != b ==> !is_prefix(encode_ordered(a, orders), encode_ordered(b, orders)),
    decreases a.len(),
{
    let ea = encode_ordered(a, orders);
    let eb = encode_ordered(b, orders);
    if a.len() == 0 {
        assert(a =~= b);
        if bytes_lt(ea, eb) {
            lemma_lt_asymmetric(ea, eb);
        }
    } else {
        let n = a.len() as int;
        let ta = a.subrange(1, n);
        let tb = b.subrange(1, n);
        let to = orders.subrange(1, n);
        let ha = encode_ordered_datum(a[0], orders[0]);
        let hb = encode_ordered_datum(b[0], orders[0]);
        lemma_encode_ordered_front(a, orders);
        lemma_encode_ordered_front(b, orders);
        lemma_directed_ordered(a[0], b[0], orders[0]);
        lemma_directed_ordered(b[0], a[0], orders[0]);
        assert(a.subrange(0, 0) =~= b.subrange(0, 0));
        if a[0] == b[0] {
            lemma_sort_key_ordered(ta, tb, to);
            lemma_lt_common_prefix(ha, encode_ordered(ta, to), encode_ordered(tb, to));
            if tuple_lt(ta, tb, to) {
                let i = choose|i: int|
                    0 <= i < ta.len() && i < tb.len() && ta.subrange(0, i) == tb.subrange(0, i)
                        && directed_lt(#[trigger] ta[i], tb[i], direction(to, i));
                assert(a.subrange(0, i + 1) =~= b.subrange(0, i + 1)) by {
                    assert forall|k: int| 0 <= k < i + 1 implies a[k] == b[k] by {
                        if k > 0 {
                            assert(ta.subrange(0, i)[k - 1] == tb.subrange(0, i)[k - 1]);
                        }
                    }
                }
                assert(a[i + 1] == ta[i] && b[i + 1] == tb[i]);
                assert(direction(orders, i + 1) == direction(to, i));
                assert(directed_lt(a[i + 1], b[i + 1], direction(orders, i + 1)));
            }
            if tuple_lt(a, b, orders) {
                let i = choose|i: int|
                    0 <= i < a.len() && i < b.len() && a.subrange(0, i) == b.subrange(0, i)
                        && directed_lt(#[trigger] a[i], b[i], direction(orders, i));
                assert(i > 0) by {
                    if i == 0 {
                        lemma_directed_ordered(a[0], b[0], orders[0]);
                        lemma_lt_asymmetric(ha, hb);
                    }
                }
                assert(ta.subrange(0, i - 1) =~= tb.subrange(0, i - 1)) by {
                    assert forall|k: int| 0 <= k < i - 1 implies ta[k] == tb[k] by {
                        assert(a.subrange(0, i)[k + 1] == b.subrange(0, i)[k + 1]);
                    }
                }
                assert(ta[i - 1] == a[i] && tb[i - 1] == b[i]);
                assert(direction(to, i - 1) == direction(orders, i));
                assert(directed_lt(ta[i - 1], tb[i - 1], direction(to, i - 1)));
            }
            if a != b {
                assert(ta != tb) by {
                    if ta == tb {
                        assert(a =~= seq![a[0]] + ta);
                        assert(b =~= seq![b[0]] + tb);
                    }
                }
                if is_prefix(ea, eb) {
                    let x = encode_ordered(ta, to);
                    let y = encode_ordered(tb, to);
                    assert(y.subrange(0, x.len() as int) =~= x) by {
                        assert forall|k: int| 0 <= k < x.len() implies y[k] == x[k] by {
                            assert(eb.subrange(0, ea.len() as int)[ha.len() + k] == ea[ha.len() + k]);
                        }
                    }
                }
            }
        } else {
            let x = encode_ordered(ta, to);
            let y = encode_ordered(tb, to);
            if directed_lt(a[0], b[0], orders[0]) {
                lemma_lt_extend(ha, hb, x, y);
                assert(directed_lt(a[0], b[0], direction(orders, 0)));
            } else {
                lemma_lt_extend(hb, ha, y, x);
                lemma_lt_asymmetric(eb, ea);
                if tuple_lt(a, b, orders) {
                    let i = choose|i: int|
                        0 <= i < a.len() && i < b.len() && a.subrange(0, i) == b.subrange(0, i)
                            && directed_lt(#[trigger] a[i], b[i], direction(orders, i));
                    if i > 0 {
                        assert(a.subrange(0, i)[0] == b.subrange(0, i)[0]);
                    }
                }
            }
        }
    }
}

} // verus!
