//! The layout of rows in the store: the cells of a row stand together, by
//! increasing column; the rows of a key stand together, by increasing primary
//! key; the keys by increasing key. This module shows that the layout keeps
//! the order of the store, and what is found under each key of a cell.

use vstd::prelude::*;
use crate::bytes::{
    bytes_lt, is_prefix, lemma_lt_asymmetric, lemma_lt_common_prefix, lemma_lt_extend,
};
use crate::codec::{be32, encode_datums, lemma_be32_val32, lemma_encode_datums_injective};
use crate::codec_order::lemma_be32_ordered;
use crate::sorted_map::{
    has_key, keys_sorted, lemma_has_key_iff, lemma_lookup_at, lemma_rank_bounds, lookup, rank,
};
use crate::types::Datum;

verus! {

/// The keys of `s` increase, and none is the beginning of a later one.
pub open spec fn separated<V>(s: Seq<(Seq<u8>, V)>) -> bool {
    forall|i: int, j: int|
        0 <= i < j < s.len() ==> bytes_lt(#[trigger] s[i].0, #[trigger] s[j].0) && !is_prefix(
            s[i].0,
            s[j].0,
        )
}

/// One item for each of `width` columns, under the stem followed by the
/// index of the column.
pub open spec fn block<V, X>(stem: Seq<u8>, v: V, width: nat, f: spec_fn(V, int) -> X) -> Seq<
    (Seq<u8>, X),
> {
    Seq::new(width, |c: int| (stem + be32(c as nat), f(v, c)))
}

/// The blocks of the entries of `s`, one after the other, each under
/// `prefix` followed by the key of its entry.
pub open spec fn blocks<V, X>(
    prefix: Seq<u8>,
    s: Seq<(Seq<u8>, V)>,
    width: nat,
    f: spec_fn(V, int) -> X,
) -> Seq<(Seq<u8>, X)>
    decreases s.len(),
{
    if s.len() == 0 {
        Seq::empty()
    } else {
        blocks(prefix, s.drop_last(), width, f) + block(
            prefix + s.last().0,
            s.last().1,
            width,
            f,
        )
    }
}

/// The blocks of the groups of `g`, one group after the other, each under
/// `prefix` followed by the key of its group.
pub open spec fn groups<V, X>(
    prefix: Seq<u8>,
    g: Seq<(Seq<u8>, Seq<(Seq<u8>, V)>)>,
    width: nat,
    f: spec_fn(V, int) -> X,
) -> Seq<(Seq<u8>, X)>
    decreases g.len(),
{
    if g.len() == 0 {
        Seq::empty()
    } else {
        groups(prefix, g.drop_last(), width, f) + blocks(
            prefix + g.last().0,
            g.last().1,
            width,
            f,
        )
    }
}

/// `x` is the item of a column of an entry of `s`.
pub open spec fn in_blocks<V, X>(
    prefix: Seq<u8>,
    s: Seq<(Seq<u8>, V)>,
    width: nat,
    f: spec_fn(V, int) -> X,
    x: (Seq<u8>, X),
) -> bool {
    exists|j: int, c: int|
        0 <= j < s.len() && 0 <= c < width && x == (
            prefix + (#[trigger] s[j]).0 + #[trigger] be32(c as nat),
            f(s[j].1, c),
        )
}

/// `x` is the item of a column of an entry of a group of `g`.
pub open spec fn in_groups<V, X>(
    prefix: Seq<u8>,
    g: Seq<(Seq<u8>, Seq<(Seq<u8>, V)>)>,
    width: nat,
    f: spec_fn(V, int) -> X,
    x: (Seq<u8>, X),
) -> bool {
    exists|i: int| 0 <= i < g.len() && in_blocks(prefix + (#[trigger] g[i]).0, g[i].1, width, f, x)
}

/// Two sorted sequences, every key of the first before every key of the
/// second, are sorted when one follows the other.
pub proof fn lemma_concat_sorted<X>(a: Seq<(Seq<u8>, X)>, b: Seq<(Seq<u8>, X)>)
    requires
        keys_sorted(a),
        keys_sorted(b),
        forall|i: int, j: int|
            0 <= i < a.len() && 0 <= j < b.len() ==> bytes_lt(#[trigger] a[i].0, #[trigger] b[j].0),
    ensures
        keys_sorted(a + b),
{
    let ab = a + b;
    assert forall|i: int, j: int| 0 <= i < j < ab.len() implies bytes_lt(
        #[trigger] ab[i].0,
        #[trigger] ab[j].0,
    ) by {
        if j < a.len() {
            assert(ab[i] == a[i] && ab[j] == a[j]);
        } else if i < a.len() {
            assert(ab[i] == a[i] && ab[j] == b[j - a.len()]);
        } else {
            assert(ab[i] == b[i - a.len()] && ab[j] == b[j - a.len()]);
        }
    }
}

/// The items of a block stand by increasing key.
pub proof fn lemma_block_sorted<V, X>(stem: Seq<u8>, v: V, width: nat, f: spec_fn(V, int) -> X)
    requires
        width <= u32::MAX,
    ensures
        keys_sorted(block(stem, v, width, f)),
{
    let b = block(stem, v, width, f);
    assert forall|i: int, j: int| 0 <= i < j < b.len() implies bytes_lt(
        #[trigger] b[i].0,
        #[trigger] b[j].0,
    ) by {
        lemma_be32_ordered(i as nat, j as nat);
        lemma_lt_common_prefix(stem, be32(i as nat), be32(j as nat));
    }
}

/// What stands in the blocks of `s` is the items of the columns of the
/// entries of `s`, by increasing key.
pub proof fn lemma_blocks<V, X>(
    prefix: Seq<u8>,
    s: Seq<(Seq<u8>, V)>,
    width: nat,
    f: spec_fn(V, int) -> X,
)
    requires
        width <= u32::MAX,
        separated(s),
    ensures
        keys_sorted(blocks(prefix, s, width, f)),
        forall|t: int|
            0 <= t < blocks(prefix, s, width, f).len() ==> in_blocks(
                prefix,
                s,
                width,
                f,
                #[trigger] blocks(prefix, s, width, f)[t],
            ),
        forall|x: (Seq<u8>, X)|
            in_blocks(prefix, s, width, f, x) ==> blocks(prefix, s, width, f).contains(x),
    decreases s.len(),
{
    let all = blocks(prefix, s, width, f);
    if s.len() > 0 {
        let before = s.drop_last();
        let n = before.len() as int;
        assert(separated(before)) by {
            assert forall|i: int, j: int| 0 <= i < j < before.len() implies bytes_lt(
                #[trigger] before[i].0,
                #[trigger] before[j].0,
            ) && !is_prefix(before[i].0, before[j].0) by {
                assert(before[i] == s[i] && before[j] == s[j]);
            }
        }
        lemma_blocks(prefix, before, width, f);
        let a = blocks(prefix, before, width, f);
        let b = block(prefix + s[n].0, s[n].1, width, f);
        lemma_block_sorted(prefix + s[n].0, s[n].1, width, f);
        assert forall|i: int, j: int| 0 <= i < a.len() && 0 <= j < b.len() implies bytes_lt(
            #[trigger] a[i].0,
            #[trigger] b[j].0,
        ) by {
            assert(in_blocks(prefix, before, width, f, a[i]));
            let (k, c): (int, int) = choose|k: int, c: int|
                0 <= k < before.len() && 0 <= c < width && a[i] == (
                    prefix + (#[trigger] before[k]).0 + #[trigger] be32(c as nat),
                    f(before[k].1, c),
                );
            assert(before[k] == s[k]);
            lemma_lt_extend(s[k].0, s[n].0, be32(c as nat), be32(j as nat));
            lemma_lt_common_prefix(prefix, s[k].0 + be32(c as nat), s[n].0 + be32(j as nat));
            assert(prefix + (s[k].0 + be32(c as nat)) =~= prefix + s[k].0 + be32(c as nat));
            assert(prefix + (s[n].0 + be32(j as nat)) =~= prefix + s[n].0 + be32(j as nat));
        }
        lemma_concat_sorted(a, b);
        assert forall|t: int| 0 <= t < all.len() implies in_blocks(
            prefix,
            s,
            width,
            f,
            #[trigger] all[t],
        ) by {
            if t < a.len() {
                assert(all[t] == a[t]);
                assert(in_blocks(prefix, before, width, f, a[t]));
                let (k, c): (int, int) = choose|k: int, c: int|
                    0 <= k < before.len() && 0 <= c < width && a[t] == (
                        prefix + (#[trigger] before[k]).0 + #[trigger] be32(c as nat),
                        f(before[k].1, c),
                    );
                assert(before[k] == s[k]);
                assert(all[t] == (prefix + s[k].0 + be32(c as nat), f(s[k].1, c)));
            } else {
                let c = t - a.len();
                assert(all[t] == b[c]);
                assert(all[t] == (prefix + s[n].0 + be32(c as nat), f(s[n].1, c)));
            }
        }
        assert forall|x: (Seq<u8>, X)| in_blocks(prefix, s, width, f, x) implies all.contains(
            x,
        ) by {
            let (k, c): (int, int) = choose|k: int, c: int|
                0 <= k < s.len() && 0 <= c < width && x == (
                    prefix + (#[trigger] s[k]).0 + #[trigger] be32(c as nat),
                    f(s[k].1, c),
                );
            if k < n {
                assert(before[k] == s[k]);
                assert(in_blocks(prefix, before, width, f, x));
                let t = choose|t: int| 0 <= t < a.len() && a[t] == x;
                assert(all[t] == x);
            } else {
                assert(b[c] == x);
                assert(all[a.len() + c] == x);
            }
        }
    }
}

/// What stands in the blocks of the groups of `g` is the items of the
/// columns of the entries of the groups, by increasing key.
pub proof fn lemma_groups<V, X>(
    prefix: Seq<u8>,
    g: Seq<(Seq<u8>, Seq<(Seq<u8>, V)>)>,
    width: nat,
    f: spec_fn(V, int) -> X,
)
    requires
        width <= u32::MAX,
        separated(g),
        forall|i: int| 0 <= i < g.len() ==> separated((#[trigger] g[i]).1),
    ensures
        keys_sorted(groups(prefix, g, width, f)),
        forall|t: int|
            0 <= t < groups(prefix, g, width, f).len() ==> in_groups(
                prefix,
                g,
                width,
                f,
                #[trigger] groups(prefix, g, width, f)[t],
            ),
        forall|x: (Seq<u8>, X)|
            in_groups(prefix, g, width, f, x) ==> groups(prefix, g, width, f).contains(x),
    decreases g.len(),
{
    let all = groups(prefix, g, width, f);
    if g.len() > 0 {
        let before = g.drop_last();
        let n = before.len() as int;
        assert(separated(before)) by {
            assert forall|i: int, j: int| 0 <= i < j < before.len() implies bytes_lt(
                #[trigger] before[i].0,
                #[trigger] before[j].0,
            ) && !is_prefix(before[i].0, before[j].0) by {
                assert(before[i] == g[i] && before[j] == g[j]);
            }
        }
        assert forall|i: int| 0 <= i < before.len() implies separated((#[trigger] before[i]).1) by {
            assert(before[i] == g[i]);
        }
        lemma_groups(prefix, before, width, f);
        let a = groups(prefix, before, width, f);
        let b = blocks(prefix + g[n].0, g[n].1, width, f);
        lemma_blocks(prefix + g[n].0, g[n].1, width, f);
        assert forall|i: int, j: int| 0 <= i < a.len() && 0 <= j < b.len() implies bytes_lt(
            #[trigger] a[i].0,
            #[trigger] b[j].0,
        ) by {
            assert(in_groups(prefix, before, width, f, a[i]));
            let gi = choose|gi: int|
                0 <= gi < before.len() && in_blocks(
                    prefix + (#[trigger] before[gi]).0,
                    before[gi].1,
                    width,
                    f,
                    a[i],
                );
            let (k, c): (int, int) = choose|k: int, c: int|
                0 <= k < before[gi].1.len() && 0 <= c < width && a[i] == (
                    prefix + before[gi].0 + (#[trigger] before[gi].1[k]).0 + #[trigger] be32(
                        c as nat,
                    ),
                    f(before[gi].1[k].1, c),
                );
            assert(in_blocks(prefix + g[n].0, g[n].1, width, f, b[j]));
            let (k2, c2): (int, int) = choose|k2: int, c2: int|
                0 <= k2 < g[n].1.len() && 0 <= c2 < width && b[j] == (
                    prefix + g[n].0 + (#[trigger] g[n].1[k2]).0 + #[trigger] be32(c2 as nat),
                    f(g[n].1[k2].1, c2),
                );
            assert(before[gi] == g[gi]);
            let x = g[gi].1[k].0 + be32(c as nat);
            let y = g[n].1[k2].0 + be32(c2 as nat);
            lemma_lt_extend(g[gi].0, g[n].0, x, y);
            lemma_lt_common_prefix(prefix, g[gi].0 + x, g[n].0 + y);
            assert(prefix + (g[gi].0 + x) =~= prefix + g[gi].0 + g[gi].1[k].0 + be32(c as nat));
            assert(prefix + (g[n].0 + y) =~= prefix + g[n].0 + g[n].1[k2].0 + be32(c2 as nat));
        }
        lemma_concat_sorted(a, b);
        assert forall|t: int| 0 <= t < all.len() implies in_groups(
            prefix,
            g,
            width,
            f,
            #[trigger] all[t],
        ) by {
            if t < a.len() {
                assert(all[t] == a[t]);
                assert(in_groups(prefix, before, width, f, a[t]));
                let gi = choose|gi: int|
                    0 <= gi < before.len() && in_blocks(
                        prefix + (#[trigger] before[gi]).0,
                        before[gi].1,
                        width,
                        f,
                        a[t],
                    );
                assert(before[gi] == g[gi]);
            } else {
                assert(all[t] == b[t - a.len()]);
                assert(in_blocks(prefix + g[n].0, g[n].1, width, f, b[t - a.len()]));
            }
        }
        assert forall|x: (Seq<u8>, X)| in_groups(prefix, g, width, f, x) implies all.contains(
            x,
        ) by {
            let gi = choose|gi: int|
                0 <= gi < g.len() && in_blocks(prefix + (#[trigger] g[gi]).0, g[gi].1, width, f, x);
            if gi < n {
                assert(before[gi] == g[gi]);
                assert(in_groups(prefix, before, width, f, x));
                let t = choose|t: int| 0 <= t < a.len() && a[t] == x;
                assert(all[t] == x);
            } else {
                let t = choose|t: int| 0 <= t < b.len() && b[t] == x;
                assert(all[a.len() + t] == x);
            }
        }
    }
}

/// `b` is the encoding of a tuple of `n` values.
pub open spec fn is_code(b: Seq<u8>, n: nat) -> bool {
    exists|t: Seq<Datum>| t.len() == n && #[trigger] encode_datums(t) == b
}

/// Every key of `s` is the encoding of a tuple of `n` values.
pub open spec fn keys_are_codes<V>(s: Seq<(Seq<u8>, V)>, n: nat) -> bool {
    forall|i: int| 0 <= i < s.len() ==> is_code((#[trigger] s[i]).0, n)
}

/// The encodings of two tuples of one length, each followed by anything,
/// are the same only if the encodings are the same, and what follows them.
pub proof fn lemma_codes_split(a: Seq<u8>, x: Seq<u8>, b: Seq<u8>, y: Seq<u8>, n: nat)
    requires
        is_code(a, n),
        is_code(b, n),
        a + x == b + y,
    ensures
        a == b,
        x == y,
{
    let ta = choose|t: Seq<Datum>| t.len() == n && #[trigger] encode_datums(t) == a;
    let tb = choose|t: Seq<Datum>| t.len() == n && #[trigger] encode_datums(t) == b;
    lemma_encode_datums_injective(ta, x, tb, y);
}

/// Sorted encodings of tuples of one length are separated.
pub proof fn lemma_codes_separated<V>(s: Seq<(Seq<u8>, V)>, n: nat)
    requires
        keys_sorted(s),
        keys_are_codes(s, n),
    ensures
        separated(s),
{
    assert forall|i: int, j: int| 0 <= i < j < s.len() implies bytes_lt(
        #[trigger] s[i].0,
        #[trigger] s[j].0,
    ) && !is_prefix(s[i].0, s[j].0) by {
        let a = s[i].0;
        let b = s[j].0;
        if is_prefix(a, b) {
            let rest = b.subrange(a.len() as int, b.len() as int);
            assert(a + rest =~= b);
            assert(b + Seq::<u8>::empty() =~= b);
            lemma_codes_split(a, rest, b, Seq::<u8>::empty(), n);
            lemma_lt_asymmetric(a, b);
        }
    }
}

/// The key of the cell of column `c` of the row whose join key encodes to
/// `key` and whose primary key encodes to `pk`.
pub open spec fn key3(prefix: Seq<u8>, key: Seq<u8>, pk: Seq<u8>, c: int) -> Seq<u8> {
    prefix + key + pk + be32(c as nat)
}

/// `k` is the key of a cell of a row of a side: the prefix, the encoding
/// of a join key, that of a primary key, and the index of a column.
pub open spec fn is_cell_key(prefix: Seq<u8>, k: Seq<u8>, width: nat, nk: nat, np: nat) -> bool {
    exists|key: Seq<u8>, pk: Seq<u8>, c: int|
        is_code(key, nk) && is_code(pk, np) && 0 <= c < width && k == #[trigger] key3(
            prefix,
            key,
            pk,
            c,
        )
}

/// The key of a cell names its row and its column.
pub proof fn lemma_key3_unique(
    prefix: Seq<u8>,
    key: Seq<u8>,
    pk: Seq<u8>,
    c: int,
    key2: Seq<u8>,
    pk2: Seq<u8>,
    c2: int,
    nk: nat,
    np: nat,
)
    requires
        is_code(key, nk),
        is_code(key2, nk),
        is_code(pk, np),
        is_code(pk2, np),
        0 <= c <= u32::MAX,
        0 <= c2 <= u32::MAX,
        key3(prefix, key, pk, c) == key3(prefix, key2, pk2, c2),
    ensures
        key == key2,
        pk == pk2,
        c == c2,
{
    let x = pk + be32(c as nat);
    let y = pk2 + be32(c2 as nat);
    let u = key + x;
    let v = key2 + y;
    assert(key3(prefix, key, pk, c) =~= prefix + u);
    assert(key3(prefix, key2, pk2, c2) =~= prefix + v);
    assert(u =~= (prefix + u).subrange(prefix.len() as int, (prefix + u).len() as int));
    assert(v =~= (prefix + v).subrange(prefix.len() as int, (prefix + v).len() as int));
    lemma_codes_split(key, x, key2, y, nk);
    lemma_codes_split(pk, be32(c as nat), pk2, be32(c2 as nat), np);
    lemma_be32_val32(c as nat);
    lemma_be32_val32(c2 as nat);
}

/// What is found among the items of groups under the key of a cell: the
/// item of the column of the entry under the primary key, in the group under
/// the join key; and every key among the items is the key of a cell.
pub proof fn lemma_groups_lookup<V, X>(
    prefix: Seq<u8>,
    g: Seq<(Seq<u8>, Seq<(Seq<u8>, V)>)>,
    width: nat,
    f: spec_fn(V, int) -> X,
    nk: nat,
    np: nat,
    key: Seq<u8>,
    pk: Seq<u8>,
    c: int,
)
    requires
        width <= u32::MAX,
        keys_sorted(g),
        keys_are_codes(g, nk),
        forall|i: int| 0 <= i < g.len() ==> keys_sorted((#[trigger] g[i]).1),
        forall|i: int| 0 <= i < g.len() ==> keys_are_codes((#[trigger] g[i]).1, np),
        is_code(key, nk),
        is_code(pk, np),
        0 <= c < width,
    ensures
        keys_sorted(groups(prefix, g, width, f)),
        lookup(groups(prefix, g, width, f), key3(prefix, key, pk, c)) == match lookup(g, key) {
            Some(inner) => match lookup(inner, pk) {
                Some(v) => Some(f(v, c)),
                None => None,
            },
            None => None,
        },
{
    let all = groups(prefix, g, width, f);
    let k = key3(prefix, key, pk, c);
    lemma_codes_separated(g, nk);
    assert forall|i: int| 0 <= i < g.len() implies separated((#[trigger] g[i]).1) by {
        lemma_codes_separated(g[i].1, np);
    }
    lemma_groups(prefix, g, width, f);
    lemma_has_key_iff(all, k);
    lemma_rank_bounds(g, key);
    if has_key(g, key) {
        let i = rank(g, key);
        let inner = g[i].1;
        lemma_rank_bounds(inner, pk);
        if has_key(inner, pk) {
            let j = rank(inner, pk);
            let x = (k, f(inner[j].1, c));
            assert(x == (prefix + g[i].0 + inner[j].0 + be32(c as nat), f(inner[j].1, c)));
            assert(in_blocks(prefix + g[i].0, inner, width, f, x));
            assert(in_groups(prefix, g, width, f, x));
            let t = choose|t: int| 0 <= t < all.len() && all[t] == x;
            lemma_lookup_at(all, t);
        }
    }
    if has_key(all, k) {
        let t = rank(all, k);
        assert(in_groups(prefix, g, width, f, all[t]));
        let i = choose|i: int|
            0 <= i < g.len() && in_blocks(prefix + (#[trigger] g[i]).0, g[i].1, width, f, all[t]);
        let (j, c2): (int, int) = choose|j: int, c2: int|
            0 <= j < g[i].1.len() && 0 <= c2 < width && all[t] == (
                prefix + g[i].0 + (#[trigger] g[i].1[j]).0 + #[trigger] be32(c2 as nat),
                f(g[i].1[j].1, c2),
            );
        assert(keys_are_codes(g[i].1, np));
        lemma_key3_unique(prefix, key, pk, c, g[i].0, g[i].1[j].0, c2, nk, np);
        lemma_lookup_at(g, i);
        lemma_lookup_at(g[i].1, j);
    }
}

/// Every key among the items of groups is the key of a cell.
pub proof fn lemma_groups_keys<V, X>(
    prefix: Seq<u8>,
    g: Seq<(Seq<u8>, Seq<(Seq<u8>, V)>)>,
    width: nat,
    f: spec_fn(V, int) -> X,
    nk: nat,
    np: nat,
    k: Seq<u8>,
)
    requires
        width <= u32::MAX,
        keys_sorted(g),
        keys_are_codes(g, nk),
        forall|i: int| 0 <= i < g.len() ==> keys_sorted((#[trigger] g[i]).1),
        forall|i: int| 0 <= i < g.len() ==> keys_are_codes((#[trigger] g[i]).1, np),
        has_key(groups(prefix, g, width, f), k),
    ensures
        is_cell_key(prefix, k, width, nk, np),
        is_prefix(prefix, k),
{
    let all = groups(prefix, g, width, f);
    lemma_codes_separated(g, nk);
    assert forall|i: int| 0 <= i < g.len() implies separated((#[trigger] g[i]).1) by {
        lemma_codes_separated(g[i].1, np);
    }
    lemma_groups(prefix, g, width, f);
    lemma_rank_bounds(all, k);
    let t = rank(all, k);
    assert(in_groups(prefix, g, width, f, all[t]));
    let i = choose|i: int|
        0 <= i < g.len() && in_blocks(prefix + (#[trigger] g[i]).0, g[i].1, width, f, all[t]);
    let (j, c2): (int, int) = choose|j: int, c2: int|
        0 <= j < g[i].1.len() && 0 <= c2 < width && all[t] == (
            prefix + g[i].0 + (#[trigger] g[i].1[j]).0 + #[trigger] be32(c2 as nat),
            f(g[i].1[j].1, c2),
        );
    assert(keys_are_codes(g[i].1, np));
    assert(is_code(g[i].0, nk));
    assert(is_code(g[i].1[j].0, np));
    assert(k == key3(prefix, g[i].0, g[i].1[j].0, c2));
    assert(k.subrange(0, prefix.len() as int) =~= prefix);
}

/// No key of `s` is the beginning of another.
pub open spec fn apart<V>(s: Seq<(Seq<u8>, V)>) -> bool {
    forall|i: int, j: int|
        0 <= i < s.len() && 0 <= j < s.len() && i != j ==> !is_prefix(
            (#[trigger] s[i]).0,
            (#[trigger] s[j]).0,
        )
}

/// No two items have the same key.
pub open spec fn keys_distinct<X>(items: Seq<(Seq<u8>, X)>) -> bool {
    forall|t: int, u: int|
        0 <= t < u < items.len() ==> (#[trigger] items[t]).0 != (#[trigger] items[u]).0
}

/// Two byte strings of which neither begins with the other differ,
/// whatever follows them.
pub proof fn lemma_apart_extend(a: Seq<u8>, b: Seq<u8>, x: Seq<u8>, y: Seq<u8>)
    requires
        !is_prefix(a, b),
        !is_prefix(b, a),
    ensures
        a + x != b + y,
{
    if a + x == b + y {
        if a.len() <= b.len() {
            assert(b.subrange(0, a.len() as int) =~= a) by {
                assert forall|k: int| 0 <= k < a.len() implies b[k] == a[k] by {
                    assert((a + x)[k] == (b + y)[k]);
                }
            }
        } else {
            assert(a.subrange(0, b.len() as int) =~= b) by {
                assert forall|k: int| 0 <= k < b.len() implies a[k] == b[k] by {
                    assert((a + x)[k] == (b + y)[k]);
                }
            }
        }
    }
}

/// What stands in the blocks of entries whose keys are apart is the items
/// of the columns of the entries, each under a key of its own.
pub proof fn lemma_blocks_apart<V, X>(
    prefix: Seq<u8>,
    s: Seq<(Seq<u8>, V)>,
    width: nat,
    f: spec_fn(V, int) -> X,
)
    requires
        width <= u32::MAX,
        apart(s),
    ensures
        keys_distinct(blocks(prefix, s, width, f)),
        forall|t: int|
            0 <= t < blocks(prefix, s, width, f).len() ==> in_blocks(
                prefix,
                s,
                width,
                f,
                #[trigger] blocks(prefix, s, width, f)[t],
            ),
        forall|x: (Seq<u8>, X)|
            in_blocks(prefix, s, width, f, x) ==> blocks(prefix, s, width, f).contains(x),
    decreases s.len(),
{
    let all = blocks(prefix, s, width, f);
    if s.len() > 0 {
        let before = s.drop_last();
        let n = before.len() as int;
        assert(apart(before)) by {
            assert forall|i: int, j: int|
                0 <= i < before.len() && 0 <= j < before.len() && i != j implies !is_prefix(
                (#[trigger] before[i]).0,
                (#[trigger] before[j]).0,
            ) by {
                assert(before[i] == s[i] && before[j] == s[j]);
            }
        }
        lemma_blocks_apart(prefix, before, width, f);
        let a = blocks(prefix, before, width, f);
        let b = block(prefix + s[n].0, s[n].1, width, f);
        lemma_block_sorted(prefix + s[n].0, s[n].1, width, f);
        assert forall|t: int, u: int| 0 <= t < u < all.len() implies (#[trigger] all[t]).0 != (
        #[trigger] all[u]).0 by {
            if u < a.len() {
                assert(all[t] == a[t] && all[u] == a[u]);
            } else if t >= a.len() {
                assert(all[t] == b[t - a.len()] && all[u] == b[u - a.len()]);
                lemma_lt_asymmetric(b[t - a.len()].0, b[u - a.len()].0);
            } else {
                assert(all[t] == a[t] && all[u] == b[u - a.len()]);
                assert(in_blocks(prefix, before, width, f, a[t]));
                let (k, c): (int, int) = choose|k: int, c: int|
                    0 <= k < before.len() && 0 <= c < width && a[t] == (
                        prefix + (#[trigger] before[k]).0 + #[trigger] be32(c as nat),
                        f(before[k].1, c),
                    );
                assert(before[k] == s[k]);
                let c2 = u - a.len();
                lemma_apart_extend(s[k].0, s[n].0, be32(c as nat), be32(c2 as nat));
                let x = s[k].0 + be32(c as nat);
                let y = s[n].0 + be32(c2 as nat);
                assert(prefix + x =~= prefix + s[k].0 + be32(c as nat));
                assert(prefix + y =~= prefix + s[n].0 + be32(c2 as nat));
                if prefix + x == prefix + y {
                    assert(x =~= (prefix + x).subrange(
                        prefix.len() as int,
                        (prefix + x).len() as int,
                    ));
                    assert(y =~= (prefix + y).subrange(
                        prefix.len() as int,
                        (prefix + y).len() as int,
                    ));
                }
            }
        }
        assert forall|t: int| 0 <= t < all.len() implies in_blocks(
            prefix,
            s,
            width,
            f,
            #[trigger] all[t],
        ) by {
            if t < a.len() {
                assert(all[t] == a[t]);
                assert(in_blocks(prefix, before, width, f, a[t]));
                let (k, c): (int, int) = choose|k: int, c: int|
                    0 <= k < before.len() && 0 <= c < width && a[t] == (
                        prefix + (#[trigger] before[k]).0 + #[trigger] be32(c as nat),
                        f(before[k].1, c),
                    );
                assert(before[k] == s[k]);
                assert(all[t] == (prefix + s[k].0 + be32(c as nat), f(s[k].1, c)));
            } else {
                let c = t - a.len();
                assert(all[t] == b[c]);
                assert(all[t] == (prefix + s[n].0 + be32(c as nat), f(s[n].1, c)));
            }
        }
        assert forall|x: (Seq<u8>, X)| in_blocks(prefix, s, width, f, x) implies all.contains(
            x,
        ) by {
            let (k, c): (int, int) = choose|k: int, c: int|
                0 <= k < s.len() && 0 <= c < width && x == (
                    prefix + (#[trigger] s[k]).0 + #[trigger] be32(c as nat),
                    f(s[k].1, c),
                );
            if k < n {
                assert(before[k] == s[k]);
                assert(in_blocks(prefix, before, width, f, x));
                let t = choose|t: int| 0 <= t < a.len() && a[t] == x;
                assert(all[t] == x);
            } else {
                assert(b[c] == x);
                assert(all[a.len() + c] == x);
            }
        }
    }
}

} // verus!
