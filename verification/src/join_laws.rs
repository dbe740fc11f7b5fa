//! What the join puts out, held against the join of what its sides hold.
//!
//! The output of the operator is a stream of changes. Summed up, with `+1`
//! for each inserted row and `-1` for each deleted row, the changes of one
//! step are the difference between the join of the two sides after the step
//! and their join before it.

use vstd::prelude::*;
use crate::chunk::{place, StreamChunk};
use crate::codec::{encode_datums, lemma_encode_datums_unique};
use crate::error::StreamError;
use crate::executor::Message;
use crate::hash_join::{
    echo, entry_or_new, keeps_unmatched, key_bytes, lemma_entry_put_typed, lemma_side_insert_ok,
    lemma_side_remove_ok, matched_rows, replaces_padded, rows_typed, rows_under_key, side_entry_ok,
    side_ok, side_typed, step_output, step_rows, step_state, swap_in, swap_out, swaps_padded,
    typed_entry, typed_row, types_in, HashJoinExecutor, JoinType, SideModel, SideType, StepParams,
};
use crate::managed_state::{
    entry_insert, entry_ok, entry_remove, pk_bytes, row_entry_ok, EntryModel,
};
use crate::sorted_map::{
    has_key, lemma_del_all, lemma_del_sorted, lemma_lookup_at, lemma_lookup_del, lemma_lookup_put,
    lemma_put_all, lemma_put_sorted, lemma_rank_bounds, lookup, rank,
};
use crate::types::{
    has_null, has_type, indices_within, project, row_typed, DataType, Datum, Op, ScalarImpl,
};

verus! {

/// What one change counts for: `+1` if it adds its row, `-1` if it removes it.
pub open spec fn signed(op: Op) -> int {
    if op.adds() {
        1
    } else {
        -1
    }
}

/// How many occurrences of the row `o` the changes `out` add, all in all.
pub open spec fn net_count(out: Seq<(Op, Seq<Datum>)>, o: Seq<Datum>) -> int
    decreases out.len(),
{
    if out.len() == 0 {
        0
    } else {
        net_count(out.drop_last(), o) + if out.last().1 == o {
            signed(out.last().0)
        } else {
            0
        }
    }
}

pub proof fn lemma_net_count_concat(a: Seq<(Op, Seq<Datum>)>, b: Seq<(Op, Seq<Datum>)>, o: Seq<Datum>)
    ensures
        net_count(a + b, o) == net_count(a, o) + net_count(b, o),
    decreases b.len(),
{
    if b.len() == 0 {
        assert(a + b =~= a);
    } else {
        assert((a + b).drop_last() =~= a + b.drop_last());
        lemma_net_count_concat(a, b.drop_last(), o);
    }
}

/// The changes that apply `op` to each of `rows`.
pub open spec fn tagged(op: Op, rows: Seq<Seq<Datum>>) -> Seq<(Op, Seq<Datum>)> {
    Seq::new(rows.len(), |i: int| (op, rows[i]))
}

pub open spec fn distinct(rows: Seq<Seq<Datum>>) -> bool {
    forall|i: int, j: int| 0 <= i < j < rows.len() ==> rows[i] != rows[j]
}

pub open spec fn one_if(b: bool) -> int {
    if b {
        1
    } else {
        0
    }
}

/// Applying `op` to each of a set of rows counts once for each of them.
pub proof fn lemma_net_count_tagged(op: Op, rows: Seq<Seq<Datum>>, o: Seq<Datum>)
    requires
        distinct(rows),
    ensures
        net_count(tagged(op, rows), o) == if rows.contains(o) {
            signed(op)
        } else {
            0
        },
    decreases rows.len(),
{
    if rows.len() > 0 {
        let before = rows.drop_last();
        assert(tagged(op, rows).drop_last() =~= tagged(op, before));
        lemma_net_count_tagged(op, before, o);
        assert(tagged(op, rows).last() == (op, rows.last()));
        if rows.last() == o {
            if before.contains(o) {
                let i = choose|i: int| 0 <= i < before.len() && before[i] == o;
                assert(rows[i] == rows[rows.len() - 1]);
            }
            assert(rows[rows.len() - 1] == o);
        } else {
            if rows.contains(o) {
                let i = choose|i: int| 0 <= i < rows.len() && rows[i] == o;
                assert(before[i] == o);
            }
            if before.contains(o) {
                let i = choose|i: int| 0 <= i < before.len() && before[i] == o;
                assert(rows[i] == o);
            }
        }
    }
}

/// The output rows made of `u` and each of `matched`.
pub open spec fn placed(p: StepParams, u: Seq<Datum>, matched: Seq<Seq<Datum>>) -> Seq<Seq<Datum>> {
    Seq::new(
        matched.len(),
        |i: int| place(p.total, p.update_start, u, p.matched_start, matched[i]),
    )
}

pub proof fn lemma_echo_tagged(p: StepParams, op: Op, u: Seq<Datum>, matched: Seq<Seq<Datum>>)
    ensures
        echo(p, op, u, matched) == tagged(op, placed(p, u, matched)),
{
    assert(echo(p, op, u, matched) =~= tagged(op, placed(p, u, matched)));
}

/// A replacement counts as the deletion of the one row and the insertion of the other.
pub proof fn lemma_net_count_swap(
    p: StepParams,
    u: Seq<Datum>,
    matched: Seq<Seq<Datum>>,
    o: Seq<Datum>,
)
    ensures
        net_count(swap_in(p, u, matched), o) == net_count(
            tagged(Op::UpdateDelete, placed(p, Seq::empty(), matched)),
            o,
        ) + net_count(tagged(Op::UpdateInsert, placed(p, u, matched)), o),
        net_count(swap_out(p, u, matched), o) == net_count(
            tagged(Op::UpdateDelete, placed(p, u, matched)),
            o,
        ) + net_count(tagged(Op::UpdateInsert, placed(p, Seq::empty(), matched)), o),
    decreases matched.len(),
{
    if matched.len() > 0 {
        let before = matched.drop_last();
        let n = before.len() as int;
        lemma_net_count_swap(p, u, before, o);
        let e = Seq::<Datum>::empty();
        assert(tagged(Op::UpdateDelete, placed(p, e, matched)).drop_last() =~= tagged(
            Op::UpdateDelete,
            placed(p, e, before),
        ));
        assert(tagged(Op::UpdateInsert, placed(p, e, matched)).drop_last() =~= tagged(
            Op::UpdateInsert,
            placed(p, e, before),
        ));
        assert(tagged(Op::UpdateDelete, placed(p, u, matched)).drop_last() =~= tagged(
            Op::UpdateDelete,
            placed(p, u, before),
        ));
        assert(tagged(Op::UpdateInsert, placed(p, u, matched)).drop_last() =~= tagged(
            Op::UpdateInsert,
            placed(p, u, before),
        ));
        let si = swap_in(p, u, matched);
        let so = swap_out(p, u, matched);
        assert((2 * n) % 2 == 0 && (2 * n) / 2 == n && (2 * n + 1) % 2 == 1 && (2 * n + 1) / 2 == n);
        assert(si.drop_last().drop_last() =~= swap_in(p, u, before)) by {
            assert forall|i: int| 0 <= i < 2 * n implies si[i] == swap_in(p, u, before)[i] by {
                assert(0 <= i / 2 < n);
            }
        }
        assert(so.drop_last().drop_last() =~= swap_out(p, u, before)) by {
            assert forall|i: int| 0 <= i < 2 * n implies so[i] == swap_out(p, u, before)[i] by {
                assert(0 <= i / 2 < n);
            }
        }
        let pad = place(p.total, p.update_start, e, p.matched_start, matched[n]);
        let full = place(p.total, p.update_start, u, p.matched_start, matched[n]);
        assert(si.drop_last().last() == (Op::UpdateDelete, pad));
        assert(si.last() == (Op::UpdateInsert, full));
        assert(so.drop_last().last() == (Op::UpdateDelete, full));
        assert(so.last() == (Op::UpdateInsert, pad));
        assert(tagged(Op::UpdateDelete, placed(p, e, matched)).last() == (Op::UpdateDelete, pad));
        assert(tagged(Op::UpdateInsert, placed(p, e, matched)).last() == (Op::UpdateInsert, pad));
        assert(tagged(Op::UpdateDelete, placed(p, u, matched)).last() == (Op::UpdateDelete, full));
        assert(tagged(Op::UpdateInsert, placed(p, u, matched)).last() == (Op::UpdateInsert, full));
        assert(net_count(si, o) == net_count(si.drop_last(), o) + one_if(full == o));
        assert(net_count(si.drop_last(), o) == net_count(si.drop_last().drop_last(), o) - one_if(
            pad == o,
        ));
        assert(net_count(so, o) == net_count(so.drop_last(), o) + one_if(pad == o));
        assert(net_count(so.drop_last(), o) == net_count(so.drop_last().drop_last(), o) - one_if(
            full == o,
        ));
    } else {
        assert(swap_in(p, u, matched) =~= Seq::<(Op, Seq<Datum>)>::empty());
        assert(swap_out(p, u, matched) =~= Seq::<(Op, Seq<Datum>)>::empty());
    }
}

/// What a join is made of: its kind and, for each side, the join key
/// columns, the primary key columns and the number of columns.
pub struct JoinPlan {
    pub join_type: JoinType,
    pub key_l: Seq<usize>,
    pub pk_l: Seq<usize>,
    pub width_l: nat,
    pub key_r: Seq<usize>,
    pub pk_r: Seq<usize>,
    pub width_r: nat,
}

pub open spec fn other(side: SideType) -> SideType {
    match side {
        SideType::Left => SideType::Right,
        SideType::Right => SideType::Left,
    }
}

impl JoinPlan {
    pub open spec fn key_of(self, side: SideType) -> Seq<usize> {
        match side {
            SideType::Left => self.key_l,
            SideType::Right => self.key_r,
        }
    }

    pub open spec fn pk_of(self, side: SideType) -> Seq<usize> {
        match side {
            SideType::Left => self.pk_l,
            SideType::Right => self.pk_r,
        }
    }

    pub open spec fn width_of(self, side: SideType) -> nat {
        match side {
            SideType::Left => self.width_l,
            SideType::Right => self.width_r,
        }
    }

    /// The key columns and the primary key columns are columns of their sides.
    pub open spec fn sound(self) -> bool {
        &&& indices_within(self.key_l, self.width_l)
        &&& indices_within(self.pk_l, self.width_l)
        &&& indices_within(self.key_r, self.width_r)
        &&& indices_within(self.pk_r, self.width_r)
    }

    /// What stays the same while input `side` is consumed: the left columns
    /// come first in the output.
    pub open spec fn params(self, side: SideType) -> StepParams {
        StepParams {
            join_type: self.join_type,
            side,
            key_cols: self.key_of(side),
            pk_cols: self.pk_of(side),
            total: self.width_l + self.width_r,
            update_start: match side {
                SideType::Left => 0,
                SideType::Right => self.width_l as int,
            },
            matched_start: match side {
                SideType::Left => self.width_l as int,
                SideType::Right => 0,
            },
        }
    }

    /// The columns of `side` in the output row `o`.
    pub open spec fn part(self, side: SideType, o: Seq<Datum>) -> Seq<Datum> {
        match side {
            SideType::Left => o.subrange(0, self.width_l as int),
            SideType::Right => o.subrange(self.width_l as int, (self.width_l + self.width_r) as int),
        }
    }

    /// The state `m` is a sound state of `side`.
    pub open spec fn side_sound(self, side: SideType, m: SideModel) -> bool {
        side_ok(m, self.key_of(side), self.pk_of(side), self.width_of(side))
    }
}

/// A row of `n` NULLs.
pub open spec fn nulls(n: nat) -> Seq<Datum> {
    Seq::new(n, |i: int| None::<ScalarImpl>)
}

/// Whether the side holds `row`: under its join key and its primary key.
pub open spec fn holds(m: SideModel, key_cols: Seq<usize>, pk_cols: Seq<usize>, row: Seq<Datum>) -> bool {
    match lookup(m, key_bytes(row, key_cols)) {
        Some(e) => lookup(e.rows, pk_bytes(row, pk_cols)) == Some(row),
        None => false,
    }
}

/// The number of rows that the side holds under the join key that encodes to `key`.
pub open spec fn rows_under(m: SideModel, key: Seq<u8>) -> nat {
    match lookup(m, key) {
        Some(e) => e.rows.len(),
        None => 0,
    }
}

/// Whether the change `(op, row)` is one that a stream of changes with
/// unique primary keys can hold in state `u`: an insert of a row whose
/// primary key the side does not hold under the row's join key, or the
/// removal of a row that the side holds.
pub open spec fn change_valid(
    u: SideModel,
    key_cols: Seq<usize>,
    pk_cols: Seq<usize>,
    width: nat,
    op: Op,
    row: Seq<Datum>,
) -> bool {
    &&& row.len() == width
    &&& if op.adds() {
        lookup(entry_or_new(u, key_bytes(row, key_cols)).rows, pk_bytes(row, pk_cols)).is_none()
    } else {
        holds(u, key_cols, pk_cols, row)
    }
}

/// The side has met the join key of `row` and holds no row under it.
pub open spec fn key_emptied(u: SideModel, key_cols: Seq<usize>, row: Seq<Datum>) -> bool {
    has_key(u, key_bytes(row, key_cols)) && rows_under(u, key_bytes(row, key_cols)) == 0
}

proof fn lemma_entry_at(m: SideModel, kc: Seq<usize>, pc: Seq<usize>, w: nat, key: Seq<u8>)
    requires
        side_ok(m, kc, pc, w),
    ensures
        entry_ok(entry_or_new(m, key), pc, w),
        rows_under_key(entry_or_new(m, key), key, kc),
{
    lemma_rank_bounds(m, key);
    if has_key(m, key) {
        assert(side_entry_ok(kc, pc, w)(m[rank(m, key)]));
    }
}

/// What a side holds after a valid change: what it held, with the row of an
/// insert, without the row of a removal.
pub proof fn lemma_holds_after(
    u: SideModel,
    kc: Seq<usize>,
    pc: Seq<usize>,
    w: nat,
    p: StepParams,
    op: Op,
    row: Seq<Datum>,
    x: Seq<Datum>,
)
    requires
        side_ok(u, kc, pc, w),
        change_valid(u, kc, pc, w, op, row),
        p.key_cols == kc,
        p.pk_cols == pc,
    ensures
        holds(step_state(p, u, op, row), kc, pc, x) == if op.adds() {
            holds(u, kc, pc, x) || x == row
        } else {
            holds(u, kc, pc, x) && x != row
        },
{
    let kb = key_bytes(row, kc);
    let pkb = pk_bytes(row, pc);
    let kx = key_bytes(x, kc);
    let px = pk_bytes(x, pc);
    let e = entry_or_new(u, kb);
    lemma_entry_at(u, kc, pc, w, kb);
    if op.adds() {
        let e1 = entry_insert(e, pc, row);
        lemma_lookup_put(u, kb, e1, kx);
        lemma_lookup_put(e.rows, pkb, row, px);
    } else {
        let e1 = entry_remove(e, pkb);
        lemma_lookup_put(u, kb, e1, kx);
        lemma_lookup_del(e.rows, pkb, px);
    }
}

/// How many rows a side holds under a key after a valid change.
pub proof fn lemma_rows_under_after(
    u: SideModel,
    kc: Seq<usize>,
    pc: Seq<usize>,
    w: nat,
    p: StepParams,
    op: Op,
    row: Seq<Datum>,
    q: Seq<u8>,
)
    requires
        side_ok(u, kc, pc, w),
        change_valid(u, kc, pc, w, op, row),
        p.key_cols == kc,
        p.pk_cols == pc,
    ensures
        rows_under(step_state(p, u, op, row), q) == rows_under(u, q) + if q == key_bytes(row, kc) {
            signed(op)
        } else {
            0
        },
        has_key(step_state(p, u, op, row), q) == (has_key(u, q) || (op.adds() && q == key_bytes(
            row,
            kc,
        ))),
{
    let kb = key_bytes(row, kc);
    let pkb = pk_bytes(row, pc);
    let e = entry_or_new(u, kb);
    lemma_entry_at(u, kc, pc, w, kb);
    if op.adds() {
        let e1 = entry_insert(e, pc, row);
        lemma_lookup_put(u, kb, e1, q);
        lemma_put_sorted(e.rows, pkb, row);
    } else {
        let e1 = entry_remove(e, pkb);
        lemma_lookup_put(u, kb, e1, q);
        lemma_del_sorted(e.rows, pkb);
    }
}

/// The rows that a key matches are the rows that the side holds under that
/// key, each once.
pub proof fn lemma_matched_rows(
    m: SideModel,
    kc: Seq<usize>,
    pc: Seq<usize>,
    w: nat,
    key: Seq<Datum>,
    x: Seq<Datum>,
)
    requires
        side_ok(m, kc, pc, w),
    ensures
        matched_rows(m, key).contains(x) <==> (!has_null(key) && holds(m, kc, pc, x) && project(
            x,
            kc,
        ) == key),
        distinct(matched_rows(m, key)),
        forall|i: int|
            0 <= i < matched_rows(m, key).len() ==> (#[trigger] matched_rows(m, key)[i]).len() == w,
        matched_rows(m, key).len() == if has_null(key) {
            0
        } else {
            rows_under(m, encode_datums(key))
        },
{
    let kb = encode_datums(key);
    let rows = matched_rows(m, key);
    lemma_rank_bounds(m, kb);
    if key_bytes(x, kc) == kb {
        lemma_encode_datums_unique(project(x, kc), key);
    }
    if !has_null(key) && has_key(m, kb) {
        let e = m[rank(m, kb)].1;
        assert(side_entry_ok(kc, pc, w)(m[rank(m, kb)]));
        assert forall|i: int| 0 <= i < rows.len() implies (#[trigger] rows[i]).len() == w
            && key_bytes(rows[i], kc) == kb && lookup(e.rows, pk_bytes(rows[i], pc)) == Some(
            rows[i],
        ) && rank(e.rows, pk_bytes(rows[i], pc)) == i by {
            assert(row_entry_ok(pc, w)(e.rows[i]));
            lemma_lookup_at(e.rows, i);
        }
        assert forall|i: int, j: int| 0 <= i < j < rows.len() implies rows[i] != rows[j] by {
            assert(rank(e.rows, pk_bytes(rows[i], pc)) == i);
            assert(rank(e.rows, pk_bytes(rows[j], pc)) == j);
        }
        if rows.contains(x) {
            let i = choose|i: int| 0 <= i < rows.len() && rows[i] == x;
            assert(key_bytes(rows[i], kc) == kb);
            lemma_encode_datums_unique(project(x, kc), key);
        }
        if holds(m, kc, pc, x) && project(x, kc) == key {
            lemma_rank_bounds(e.rows, pk_bytes(x, pc));
            assert(rows[rank(e.rows, pk_bytes(x, pc))] == x);
        }
    } else {
        assert(rows =~= Seq::<Seq<Datum>>::empty());
    }
}

/// A part of an output row as it was placed: the row itself, or NULLs where
/// nothing was placed.
pub open spec fn padded(x: Seq<Datum>, width: nat) -> Seq<Datum> {
    if x.len() == width {
        x
    } else {
        nulls(width)
    }
}

/// An output row is made of its two parts.
pub proof fn lemma_place_parts(
    plan: JoinPlan,
    side: SideType,
    u: Seq<Datum>,
    m: Seq<Datum>,
    o: Seq<Datum>,
)
    requires
        u.len() == plan.width_of(side) || u.len() == 0,
        m.len() == plan.width_of(other(side)) || m.len() == 0,
    ensures
        ({
            let p = plan.params(side);
            let x = place(p.total, p.update_start, u, p.matched_start, m);
            &&& x.len() == plan.width_l + plan.width_r
            &&& o == x <==> (o.len() == plan.width_l + plan.width_r && plan.part(side, o) == padded(
                u,
                plan.width_of(side),
            ) && plan.part(other(side), o) == padded(m, plan.width_of(other(side))))
        }),
{
    let p = plan.params(side);
    let x = place(p.total, p.update_start, u, p.matched_start, m);
    let pu = padded(u, plan.width_of(side));
    let pm = padded(m, plan.width_of(other(side)));
    assert(plan.part(side, x) =~= pu);
    assert(plan.part(other(side), x) =~= pm);
    if o.len() == plan.width_l + plan.width_r && plan.part(side, o) == pu && plan.part(
        other(side),
        o,
    ) == pm {
        assert forall|i: int| 0 <= i < o.len() implies o[i] == x[i] by {
            if i < plan.width_l {
                assert(o[i] == plan.part(SideType::Left, o)[i]);
                assert(x[i] == plan.part(SideType::Left, x)[i]);
            } else {
                assert(o[i] == plan.part(SideType::Right, o)[i - plan.width_l]);
                assert(x[i] == plan.part(SideType::Right, x)[i - plan.width_l]);
            }
        }
        assert(o =~= x);
    }
}

/// Which output rows are among those made of `u` and each of `matched`.
pub proof fn lemma_placed_contains(
    plan: JoinPlan,
    side: SideType,
    u: Seq<Datum>,
    matched: Seq<Seq<Datum>>,
    o: Seq<Datum>,
)
    requires
        u.len() == plan.width_of(side) || u.len() == 0,
        distinct(matched),
        forall|i: int|
            0 <= i < matched.len() ==> (#[trigger] matched[i]).len() == plan.width_of(other(side)),
    ensures
        distinct(placed(plan.params(side), u, matched)),
        placed(plan.params(side), u, matched).contains(o) <==> (o.len() == plan.width_l
            + plan.width_r && plan.part(side, o) == padded(u, plan.width_of(side))
            && matched.contains(plan.part(other(side), o))),
{
    let p = plan.params(side);
    let rows = placed(p, u, matched);
    assert forall|i: int, j: int| 0 <= i < j < rows.len() implies rows[i] != rows[j] by {
        lemma_place_parts(plan, side, u, matched[i], rows[j]);
        lemma_place_parts(plan, side, u, matched[j], rows[j]);
    }
    if rows.contains(o) {
        let i = choose|i: int| 0 <= i < rows.len() && rows[i] == o;
        lemma_place_parts(plan, side, u, matched[i], o);
        assert(matched[i] == plan.part(other(side), o));
    }
    if o.len() == plan.width_l + plan.width_r && plan.part(side, o) == padded(
        u,
        plan.width_of(side),
    ) && matched.contains(plan.part(other(side), o)) {
        let i = choose|i: int| 0 <= i < matched.len() && matched[i] == plan.part(other(side), o);
        lemma_place_parts(plan, side, u, matched[i], o);
        assert(rows[i] == o);
    }
}

/// How often the row `o` is in the join of the two sides, where `u` is the
/// state of `side` and `m` that of the other side: once if it is made of a
/// row of each side with the same join key, without NULL in it; once if it
/// is a row of a side that keeps its rows without a match, with no match on
/// the other side, padded with NULL.
pub open spec fn count_from(
    plan: JoinPlan,
    side: SideType,
    u: SideModel,
    m: SideModel,
    o: Seq<Datum>,
) -> int {
    let a = plan.part(side, o);
    let b = plan.part(other(side), o);
    let ku = plan.key_of(side);
    let km = plan.key_of(other(side));
    let whole = o.len() == plan.width_l + plan.width_r;
    one_if(
        whole && holds(u, ku, plan.pk_of(side), a) && holds(m, km, plan.pk_of(other(side)), b)
            && project(a, ku) == project(b, km) && !has_null(project(a, ku)),
    ) + one_if(
        keeps_unmatched(plan.join_type, side) && whole && holds(u, ku, plan.pk_of(side), a) && b
            == nulls(plan.width_of(other(side))) && matched_rows(m, project(a, ku)).len() == 0,
    ) + one_if(
        keeps_unmatched(plan.join_type, other(side)) && whole && holds(
            m,
            km,
            plan.pk_of(other(side)),
            b,
        ) && a == nulls(plan.width_of(side)) && matched_rows(u, project(b, km)).len() == 0,
    )
}

/// How often the row `o` is in the join of the left state `l` and the right
/// state `r`.
pub open spec fn join_count(plan: JoinPlan, l: SideModel, r: SideModel, o: Seq<Datum>) -> int {
    count_from(plan, SideType::Left, l, r, o)
}

/// The join is the same from whichever side it is looked at.
pub proof fn lemma_count_symmetric(plan: JoinPlan, l: SideModel, r: SideModel, o: Seq<Datum>)
    ensures
        count_from(plan, SideType::Right, r, l, o) == count_from(plan, SideType::Left, l, r, o),
{
}

/// The changes that a step puts out add up to the change of the join: for
/// every row, what the output of the change `(op, row)` on `side` adds of it
/// is how often the row is in the join after the change, less how often it
/// was in the join before.
///
/// This holds of a change that a stream with unique primary keys can hold.
/// It does not hold of an insert under a join key that the side has met and
/// holds no row of any more, where the side is one whose first row takes the
/// place of padded rows and the other side has rows of that key: the padded
/// rows are replaced only when a side meets a key for the first time.
pub proof fn lemma_step_delta(
    plan: JoinPlan,
    side: SideType,
    u: SideModel,
    m: SideModel,
    op: Op,
    row: Seq<Datum>,
    o: Seq<Datum>,
)
    requires
        plan.sound(),
        plan.side_sound(side, u),
        plan.side_sound(other(side), m),
        change_valid(u, plan.key_of(side), plan.pk_of(side), plan.width_of(side), op, row),
        !(op.adds() && replaces_padded(plan.join_type, side) && matched_rows(
            m,
            project(row, plan.key_of(side)),
        ).len() > 0 && key_emptied(u, plan.key_of(side), row)),
    ensures
        net_count(step_output(plan.params(side), u, m, op, row), o) == count_from(
            plan,
            side,
            step_state(plan.params(side), u, op, row),
            m,
            o,
        ) - count_from(plan, side, u, m, o),
{
    let p = plan.params(side);
    let ku = plan.key_of(side);
    let pu = plan.pk_of(side);
    let wu = plan.width_of(side);
    let km = plan.key_of(other(side));
    let pm = plan.pk_of(other(side));
    let wm = plan.width_of(other(side));
    let a = plan.part(side, o);
    let b = plan.part(other(side), o);
    let kd = project(row, ku);
    let kb = key_bytes(row, ku);
    let matched = matched_rows(m, kd);
    let u1 = step_state(p, u, op, row);
    let whole = o.len() == plan.width_l + plan.width_r;
    let none = Seq::<Datum>::empty();

    // the state of the side after the change
    if op.adds() {
        lemma_side_insert_ok(u, ku, pu, wu, row);
    } else {
        lemma_side_remove_ok(u, ku, pu, wu, kb, pk_bytes(row, pu));
    }
    lemma_holds_after(u, ku, pu, wu, p, op, row, a);
    let kq = project(b, km);
    lemma_rows_under_after(u, ku, pu, wu, p, op, row, encode_datums(kq));
    lemma_rows_under_after(u, ku, pu, wu, p, op, row, kb);
    lemma_matched_rows(u, ku, pu, wu, kq, a);
    lemma_matched_rows(u1, ku, pu, wu, kq, a);
    if encode_datums(kq) == kb {
        lemma_encode_datums_unique(kq, kd);
    }
    // the rows that the change matches
    lemma_matched_rows(m, km, pm, wm, kd, b);
    lemma_matched_rows(m, km, pm, wm, project(a, ku), b);
    // the rows that the change puts out
    lemma_placed_contains(plan, side, row, matched, o);
    lemma_placed_contains(plan, side, none, matched, o);
    lemma_place_parts(plan, side, row, none, o);
    lemma_net_count_tagged(op, placed(p, row, matched), o);
    lemma_net_count_tagged(Op::UpdateDelete, placed(p, row, matched), o);
    lemma_net_count_tagged(Op::UpdateInsert, placed(p, row, matched), o);
    lemma_net_count_tagged(Op::UpdateDelete, placed(p, none, matched), o);
    lemma_net_count_tagged(Op::UpdateInsert, placed(p, none, matched), o);
    lemma_net_count_swap(p, row, matched, o);
    lemma_echo_tagged(p, op, row, matched);

    let out = step_output(p, u, m, op, row);
    let joined = whole && a == row && matched.contains(b);
    let restored = whole && a == nulls(wu) && matched.contains(b);
    let alone = whole && a == row && b == nulls(wm);
    assert(padded(row, wu) == row);
    assert(wu > 0 ==> padded(none, wu) == nulls(wu));
    assert(wu == 0 ==> padded(none, wu) =~= nulls(wu));
    assert(wm > 0 ==> padded(none, wm) == nulls(wm));
    assert(wm == 0 ==> padded(none, wm) =~= nulls(wm));

    if matched.len() > 0 {
        if swaps_padded(p, u, op, row) {
            if op.adds() {
                assert(net_count(out, o) == one_if(joined) - one_if(restored));
            } else {
                assert(net_count(out, o) == one_if(restored) - one_if(joined));
            }
        } else {
            assert(net_count(out, o) == if joined {
                signed(op)
            } else {
                0
            });
        }
    } else if keeps_unmatched(plan.join_type, side) {
        let single = seq![(op, place(p.total, p.update_start, row, p.matched_start, none))];
        assert(single.drop_last() =~= Seq::<(Op, Seq<Datum>)>::empty());
        assert(net_count(single.drop_last(), o) == 0);
        assert(net_count(out, o) == if alone {
            signed(op)
        } else {
            0
        });
    } else {
        assert(net_count(out, o) == 0);
    }
}

/// Whether the change `(op, row)` on `side` is one of which the law of the
/// join holds: a change that a stream with unique primary keys can hold, and
/// no insert under a key that the side has met and emptied where the padded
/// rows of the other side would have to be replaced.
pub open spec fn change_lawful(
    plan: JoinPlan,
    side: SideType,
    u: SideModel,
    m: SideModel,
    op: Op,
    row: Seq<Datum>,
) -> bool {
    &&& change_valid(u, plan.key_of(side), plan.pk_of(side), plan.width_of(side), op, row)
    &&& !(op.adds() && replaces_padded(plan.join_type, side) && matched_rows(
        m,
        project(row, plan.key_of(side)),
    ).len() > 0 && key_emptied(u, plan.key_of(side), row))
}

/// Whether each of the changes `rows` on `side` is lawful in the state in
/// which it is applied.
pub open spec fn rows_lawful(
    plan: JoinPlan,
    side: SideType,
    u: SideModel,
    m: SideModel,
    rows: Seq<(Op, Seq<Datum>)>,
) -> bool
    decreases rows.len(),
{
    if rows.len() == 0 {
        true
    } else {
        rows_lawful(plan, side, u, m, rows.drop_last()) && change_lawful(
            plan,
            side,
            step_rows(plan.params(side), u, m, rows.drop_last()).0,
            m,
            rows.last().0,
            rows.last().1,
        )
    }
}

/// The law of the join for the changes of one chunk: what the output of the
/// chunk adds of a row is how often the row is in the join after the chunk,
/// less how often it was in the join before.
pub proof fn lemma_chunk_delta(
    plan: JoinPlan,
    side: SideType,
    u: SideModel,
    m: SideModel,
    rows: Seq<(Op, Seq<Datum>)>,
    o: Seq<Datum>,
)
    requires
        plan.sound(),
        plan.side_sound(side, u),
        plan.side_sound(other(side), m),
        rows_lawful(plan, side, u, m, rows),
    ensures
        plan.side_sound(side, step_rows(plan.params(side), u, m, rows).0),
        net_count(step_rows(plan.params(side), u, m, rows).1, o) == count_from(
            plan,
            side,
            step_rows(plan.params(side), u, m, rows).0,
            m,
            o,
        ) - count_from(plan, side, u, m, o),
    decreases rows.len(),
{
    if rows.len() > 0 {
        let p = plan.params(side);
        let (u1, out1) = step_rows(p, u, m, rows.drop_last());
        let op = rows.last().0;
        let row = rows.last().1;
        lemma_chunk_delta(plan, side, u, m, rows.drop_last(), o);
        lemma_step_delta(plan, side, u1, m, op, row, o);
        lemma_net_count_concat(out1, step_output(p, u1, m, op, row), o);
        if op.adds() {
            lemma_side_insert_ok(u1, plan.key_of(side), plan.pk_of(side), plan.width_of(side), row);
        } else {
            lemma_side_remove_ok(
                u1,
                plan.key_of(side),
                plan.pk_of(side),
                plan.width_of(side),
                key_bytes(row, plan.key_of(side)),
                pk_bytes(row, plan.pk_of(side)),
            );
        }
    }
}

/// The two sides and all the output after the chunks `chunks`, each the
/// changes of one input, were consumed in order from the states `l` and `r`.
pub open spec fn run_chunks(
    plan: JoinPlan,
    l: SideModel,
    r: SideModel,
    chunks: Seq<(SideType, Seq<(Op, Seq<Datum>)>)>,
) -> (SideModel, SideModel, Seq<(Op, Seq<Datum>)>)
    decreases chunks.len(),
{
    if chunks.len() == 0 {
        (l, r, Seq::empty())
    } else {
        let (l1, r1, out1) = run_chunks(plan, l, r, chunks.drop_last());
        let rows = chunks.last().1;
        match chunks.last().0 {
            SideType::Left => {
                let (l2, out2) = step_rows(plan.params(SideType::Left), l1, r1, rows);
                (l2, r1, out1 + out2)
            },
            SideType::Right => {
                let (r2, out2) = step_rows(plan.params(SideType::Right), r1, l1, rows);
                (l1, r2, out1 + out2)
            },
        }
    }
}

/// Whether every change of `chunks` is lawful in the state in which it is applied.
pub open spec fn run_lawful(
    plan: JoinPlan,
    l: SideModel,
    r: SideModel,
    chunks: Seq<(SideType, Seq<(Op, Seq<Datum>)>)>,
) -> bool
    decreases chunks.len(),
{
    if chunks.len() == 0 {
        true
    } else {
        let (l1, r1, _) = run_chunks(plan, l, r, chunks.drop_last());
        run_lawful(plan, l, r, chunks.drop_last()) && match chunks.last().0 {
            SideType::Left => rows_lawful(plan, SideType::Left, l1, r1, chunks.last().1),
            SideType::Right => rows_lawful(plan, SideType::Right, r1, l1, chunks.last().1),
        }
    }
}

/// The output is the join of the inputs. After any number of chunks, at a
/// barrier or between two, all the output taken together adds of every row
/// how often the row is in the join of what the two sides hold then, less
/// how often it was in the join of what they held at the start: from empty
/// sides, the output taken together is the join. For an inner join that is
/// the pairs of rows with the same join key; for an outer join also, once
/// each and padded with NULL, the rows of a kept side that have no match.
pub proof fn lemma_output_is_join(
    plan: JoinPlan,
    l: SideModel,
    r: SideModel,
    chunks: Seq<(SideType, Seq<(Op, Seq<Datum>)>)>,
    o: Seq<Datum>,
)
    requires
        plan.sound(),
        plan.side_sound(SideType::Left, l),
        plan.side_sound(SideType::Right, r),
        run_lawful(plan, l, r, chunks),
    ensures
        plan.side_sound(SideType::Left, run_chunks(plan, l, r, chunks).0),
        plan.side_sound(SideType::Right, run_chunks(plan, l, r, chunks).1),
        net_count(run_chunks(plan, l, r, chunks).2, o) == join_count(
            plan,
            run_chunks(plan, l, r, chunks).0,
            run_chunks(plan, l, r, chunks).1,
            o,
        ) - join_count(plan, l, r, o),
    decreases chunks.len(),
{
    if chunks.len() > 0 {
        let (l1, r1, out1) = run_chunks(plan, l, r, chunks.drop_last());
        let rows = chunks.last().1;
        lemma_output_is_join(plan, l, r, chunks.drop_last(), o);
        match chunks.last().0 {
            SideType::Left => {
                let (l2, out2) = step_rows(plan.params(SideType::Left), l1, r1, rows);
                lemma_chunk_delta(plan, SideType::Left, l1, r1, rows, o);
                lemma_net_count_concat(out1, out2, o);
            },
            SideType::Right => {
                let (r2, out2) = step_rows(plan.params(SideType::Right), r1, l1, rows);
                lemma_chunk_delta(plan, SideType::Right, r1, l1, rows, o);
                lemma_net_count_concat(out1, out2, o);
                lemma_count_symmetric(plan, l1, r1, o);
                lemma_count_symmetric(plan, l1, r2, o);
            },
        }
    }
}

/// No row is in the join of two sides that hold nothing.
pub proof fn lemma_join_of_nothing(plan: JoinPlan, o: Seq<Datum>)
    ensures
        join_count(plan, Seq::empty(), Seq::empty(), o) == 0,
{
    let e = Seq::<(Seq<u8>, EntryModel)>::empty();
    lemma_rank_bounds(e, key_bytes(plan.part(SideType::Left, o), plan.key_l));
    lemma_rank_bounds(e, key_bytes(plan.part(SideType::Right, o), plan.key_r));
}

/// The first row of a side under a key takes the place of the padded rows.
/// Where the side is one whose rows replace padded rows, the row is the
/// first that the side meets under its key, and the other side has rows of
/// that key, the output has two changes for each matched row, one after the
/// other: the padded row is deleted with `UpdateDelete`, and the joined row
/// is inserted with `UpdateInsert`.
pub proof fn lemma_first_match_replaces_padded(
    p: StepParams,
    u: SideModel,
    m: SideModel,
    op: Op,
    row: Seq<Datum>,
    i: int,
)
    requires
        op.adds(),
        replaces_padded(p.join_type, p.side),
        !has_key(u, key_bytes(row, p.key_cols)),
        0 <= i < matched_rows(m, project(row, p.key_cols)).len(),
    ensures
        step_output(p, u, m, op, row).len() == 2 * matched_rows(m, project(row, p.key_cols)).len(),
        step_output(p, u, m, op, row)[2 * i] == (
            Op::UpdateDelete,
            place(
                p.total,
                p.update_start,
                Seq::empty(),
                p.matched_start,
                matched_rows(m, project(row, p.key_cols))[i],
            ),
        ),
        step_output(p, u, m, op, row)[2 * i + 1] == (
            Op::UpdateInsert,
            place(
                p.total,
                p.update_start,
                row,
                p.matched_start,
                matched_rows(m, project(row, p.key_cols))[i],
            ),
        ),
{
    assert((2 * i) % 2 == 0 && (2 * i) / 2 == i && (2 * i + 1) % 2 == 1 && (2 * i + 1) / 2 == i);
}

/// A row without a match, on a side that keeps such rows, is put out once,
/// padded with NULL, with the operation of its change.
pub proof fn lemma_unmatched_is_padded(p: StepParams, u: SideModel, m: SideModel, op: Op, row: Seq<Datum>)
    requires
        keeps_unmatched(p.join_type, p.side),
        matched_rows(m, project(row, p.key_cols)).len() == 0,
    ensures
        step_output(p, u, m, op, row) == seq![
            (op, place(p.total, p.update_start, row, p.matched_start, Seq::empty())),
        ],
{
}

/// Inserting a row a second time changes nothing in the state: the side
/// holds the row once, and once in its buffer. The output of the second
/// insert is the ordinary one: the joined rows again, or the padded row
/// again, and no replacement of padded rows.
pub proof fn lemma_reinsert(p: StepParams, u: SideModel, m: SideModel, op: Op, row: Seq<Datum>)
    requires
        op.adds(),
        side_ok(u, p.key_cols, p.pk_cols, row.len()),
    ensures
        step_state(p, step_state(p, u, op, row), op, row) == step_state(p, u, op, row),
        !swaps_padded(p, step_state(p, u, op, row), op, row),
        rows_under(step_state(p, u, op, row), key_bytes(row, p.key_cols)) == rows_under(
            u,
            key_bytes(row, p.key_cols),
        ) + one_if(
            !has_key(
                entry_or_new(u, key_bytes(row, p.key_cols)).rows,
                pk_bytes(row, p.pk_cols),
            ),
        ),
        step_output(p, step_state(p, u, op, row), m, op, row) == if matched_rows(
            m,
            project(row, p.key_cols),
        ).len() > 0 {
            echo(p, op, row, matched_rows(m, project(row, p.key_cols)))
        } else if keeps_unmatched(p.join_type, p.side) {
            seq![(op, place(p.total, p.update_start, row, p.matched_start, Seq::empty()))]
        } else {
            Seq::empty()
        },
{
    let kb = key_bytes(row, p.key_cols);
    let pk = pk_bytes(row, p.pk_cols);
    let e = entry_or_new(u, kb);
    let e1 = entry_insert(e, p.pk_cols, row);
    let u1 = step_state(p, u, op, row);
    lemma_entry_at(u, p.key_cols, p.pk_cols, row.len(), kb);
    lemma_lookup_put(u, kb, e1, kb);
    lemma_put_sorted(u, kb, e1);
    lemma_put_sorted(e.rows, pk, row);
    lemma_put_sorted(e.pending, pk, Some(row));
    lemma_rank_bounds(u, kb);
    lemma_rank_bounds(e.rows, pk);
    lemma_rank_bounds(e.pending, pk);
    lemma_lookup_at(u1, rank(u, kb));
    lemma_lookup_at(e1.rows, rank(e.rows, pk));
    lemma_lookup_at(e1.pending, rank(e.pending, pk));
    let e2 = entry_insert(e1, p.pk_cols, row);
    assert(e2.rows =~= e1.rows);
    assert(e2.pending =~= e1.pending);
    assert(step_state(p, u1, op, row) =~= u1);
}

/// The plan of an operator.
pub open spec fn plan_of(j: HashJoinExecutor) -> JoinPlan {
    JoinPlan {
        join_type: j.kind(),
        key_l: j.left().key_cols(),
        pk_l: j.left().pk_cols(),
        width_l: j.left().width(),
        key_r: j.right().key_cols(),
        pk_r: j.right().pk_cols(),
        width_r: j.right().width(),
    }
}

/// The laws of this module speak of the operator: its plan is sound, the
/// states of its sides are sound, and a step of the operator is a step of
/// its plan.
pub proof fn lemma_operator_plan(j: HashJoinExecutor, side: SideType)
    requires
        j.wf(),
    ensures
        plan_of(j).sound(),
        plan_of(j).side_sound(SideType::Left, j.left()@),
        plan_of(j).side_sound(SideType::Right, j.right()@),
        j.params(side) == plan_of(j).params(side),
{
    j.lemma_wf();
    j.left().lemma_wf();
    j.right().lemma_wf();
}

/// The types of the output columns where a side of the types `tu` is
/// updated and matched against a side of the types `tm`: the left types,
/// then the right types.
pub open spec fn out_types(side: SideType, tu: Seq<DataType>, tm: Seq<DataType>) -> Seq<DataType> {
    match side {
        SideType::Left => tu + tm,
        SideType::Right => tm + tu,
    }
}

/// The parameters of a step lay the output out for sides of the types `tu`
/// and `tm`.
pub open spec fn laid_out(p: StepParams, tu: Seq<DataType>, tm: Seq<DataType>) -> bool {
    &&& p.total == tu.len() + tm.len()
    &&& p.update_start == match p.side {
        SideType::Left => 0,
        SideType::Right => tm.len() as int,
    }
    &&& p.matched_start == match p.side {
        SideType::Left => tu.len() as int,
        SideType::Right => 0,
    }
}

/// A row placed beside a row, or beside NULLs, is of the types of the output.
proof fn lemma_place_typed(
    p: StepParams,
    tu: Seq<DataType>,
    tm: Seq<DataType>,
    u: Seq<Datum>,
    m: Seq<Datum>,
)
    requires
        laid_out(p, tu, tm),
        row_typed(u, tu) || u.len() == 0,
        row_typed(m, tm) || m.len() == 0,
    ensures
        row_typed(place(p.total, p.update_start, u, p.matched_start, m), out_types(p.side, tu, tm)),
{
    let x = place(p.total, p.update_start, u, p.matched_start, m);
    let t = out_types(p.side, tu, tm);
    assert forall|i: int| 0 <= i < x.len() implies has_type(#[trigger] x[i], t[i]) by {
        if p.update_start <= i < p.update_start + u.len() {
            assert(has_type(u[i - p.update_start], tu[i - p.update_start]));
        } else if p.matched_start <= i < p.matched_start + m.len() {
            assert(has_type(m[i - p.matched_start], tm[i - p.matched_start]));
        }
    }
}

/// What a step puts out is of the types of the output, and what the side
/// holds afterwards is of the types of the side.
pub proof fn lemma_step_typed(
    p: StepParams,
    tu: Seq<DataType>,
    tm: Seq<DataType>,
    u: SideModel,
    m: SideModel,
    op: Op,
    row: Seq<Datum>,
)
    requires
        laid_out(p, tu, tm),
        side_typed(u, tu),
        side_typed(m, tm),
        row_typed(row, tu),
    ensures
        side_typed(step_state(p, u, op, row), tu),
        rows_typed(step_output(p, u, m, op, row), out_types(p.side, tu, tm)),
{
    let kb = key_bytes(row, p.key_cols);
    let e = entry_or_new(u, kb);
    lemma_rank_bounds(u, kb);
    if has_key(u, kb) {
        assert(typed_entry(tu)(u[rank(u, kb)]));
    }
    if op.adds() {
        lemma_entry_put_typed(e, tu, row, p.pk_cols);
        let e1 = entry_insert(e, p.pk_cols, row);
        assert(typed_entry(tu)((kb, e1)));
        lemma_put_all(u, kb, e1, typed_entry(tu));
    } else if has_key(u, kb) {
        lemma_del_all(e.rows, pk_bytes(row, p.pk_cols), typed_row(tu));
        let e1 = entry_remove(e, pk_bytes(row, p.pk_cols));
        assert(typed_entry(tu)((kb, e1)));
        lemma_put_all(u, kb, e1, typed_entry(tu));
    }
    let key = project(row, p.key_cols);
    let matched = matched_rows(m, key);
    let out = step_output(p, u, m, op, row);
    let none = Seq::<Datum>::empty();
    lemma_rank_bounds(m, encode_datums(key));
    assert forall|i: int| 0 <= i < matched.len() implies row_typed(#[trigger] matched[i], tm) by {
        let em = m[rank(m, encode_datums(key))];
        assert(typed_entry(tm)(em));
        assert(typed_row(tm)(em.1.rows[i]));
    }
    lemma_place_typed(p, tu, tm, row, none);
    assert forall|i: int| 0 <= i < out.len() implies row_typed(
        (#[trigger] out[i]).1,
        out_types(p.side, tu, tm),
    ) by {
        if matched.len() > 0 {
            if swaps_padded(p, u, op, row) {
                assert(0 <= i / 2 < matched.len());
                lemma_place_typed(p, tu, tm, row, matched[i / 2]);
                lemma_place_typed(p, tu, tm, none, matched[i / 2]);
            } else {
                lemma_place_typed(p, tu, tm, row, matched[i]);
            }
        }
    }
}

/// What the changes of a chunk put out is of the types of the output.
pub proof fn lemma_chunk_typed(
    p: StepParams,
    tu: Seq<DataType>,
    tm: Seq<DataType>,
    u: SideModel,
    m: SideModel,
    rows: Seq<(Op, Seq<Datum>)>,
)
    requires
        laid_out(p, tu, tm),
        side_typed(u, tu),
        side_typed(m, tm),
        rows_typed(rows, tu),
    ensures
        side_typed(step_rows(p, u, m, rows).0, tu),
        rows_typed(step_rows(p, u, m, rows).1, out_types(p.side, tu, tm)),
    decreases rows.len(),
{
    if rows.len() > 0 {
        let before = rows.drop_last();
        assert(rows_typed(before, tu)) by {
            assert forall|i: int| 0 <= i < before.len() implies row_typed(
                (#[trigger] before[i]).1,
                tu,
            ) by {
                assert(before[i] == rows[i]);
            }
        }
        lemma_chunk_typed(p, tu, tm, u, m, before);
        let (u1, out1) = step_rows(p, u, m, before);
        assert(row_typed(rows[rows.len() - 1].1, tu));
        lemma_step_typed(p, tu, tm, u1, m, rows.last().0, rows.last().1);
        let out2 = step_output(p, u1, m, rows.last().0, rows.last().1);
        let all = out1 + out2;
        assert forall|i: int| 0 <= i < all.len() implies row_typed(
            (#[trigger] all[i]).1,
            out_types(p.side, tu, tm),
        ) by {
            if i < out1.len() {
                assert(all[i] == out1[i]);
            } else {
                assert(all[i] == out2[i - out1.len()]);
            }
        }
    }
}

/// The rows that the operator puts out conform to its schema: each has a
/// value, of the type of the column or NULL, for each column of the output.
pub proof fn lemma_output_conforms(
    j: HashJoinExecutor,
    after: HashJoinExecutor,
    side: SideType,
    chunk: StreamChunk,
    r: Result<Message, StreamError>,
)
    requires
        j.wf(),
        j.consumes(&after, side, chunk, r),
    ensures
        r matches Ok(Message::Chunk(c)) ==> rows_typed(c.rows(), types_in(j.output_schema())),
{
    j.lemma_wf();
    j.left().lemma_wf();
    j.right().lemma_wf();
    if r.is_ok() {
        let u = j.update_side(side);
        let m = j.match_side(side);
        lemma_chunk_typed(j.params(side), u.types(), m.types(), u@, m@, chunk.rows());
    }
}

} // verus!
