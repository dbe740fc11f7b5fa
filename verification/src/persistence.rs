//! What a flush leaves in the store is what the state held: the rows of a
//! side are read back from their cells as they were, and the store and the
//! side agree from one flush to the next.

use vstd::prelude::*;
use crate::bytes::{bytes_lt, is_prefix, lemma_lt_asymmetric};
use crate::cells::{
    block, blocks, groups, is_cell_key, is_code, key3, keys_are_codes, lemma_codes_separated,
    lemma_groups, lemma_groups_keys, lemma_groups_lookup, separated,
};
use crate::chunk::StreamChunk;
use crate::codec::{
    be32, decode_cell, encode_datum, encode_datums, lemma_be32_val32, lemma_cell_round_trip,
};
use crate::error::StreamError;
use crate::executor::Message;
use crate::hash_join::{
    decoded_typed, entry_or_new, flushed_fn, key_bytes, lemma_side_insert_ok, lemma_side_remove_ok,
    side_entry_ok, side_flush_ops, side_flushed, side_from, side_insert, side_ok, side_remove,
    side_restore, side_typed, step_rows, step_state, stored_side, typed_entry, typed_row,
    typed_side, HashJoinExecutor, JoinSide, SideModel, SideType, StepParams,
};
use crate::managed_state::{
    entry_evicted, entry_flushed, entry_insert, entry_loaded, entry_ok, entry_remove, entry_restore,
    pk_bytes, row_entry_ok, rows_from, stored_rows, EntryModel,
};
use crate::recovery::{decode_groups, group_ok, group_row, stem_of};
use crate::sorted_map::{
    has_key, keys_sorted, lemma_del_all, lemma_lookup_at, lemma_lookup_del, lemma_lookup_put,
    lemma_map_entries, lemma_put_all, lemma_rank_bounds, lemma_rank_unique, lemma_sorted_unique,
    lookup, map_entries, put, rank,
};
use crate::storage::{
    flush_ops, lemma_apply_frame, lemma_apply_lookup, lemma_scan, lemma_scan_lookup,
    lemma_store_apply_sorted, row_ops, scan_of, store_apply, StoreModel, WriteOp,
};
use crate::types::{project, row_typed, DataType, Datum, Op};

verus! {

/// The cells of a row: for each column, under the stem of the row followed
/// by the index of the column, the encoded value.
pub open spec fn row_cells(stem: Seq<u8>, row: Seq<Datum>, width: nat) -> StoreModel {
    Seq::new(width, |c: int| (stem + be32(c as nat), encode_datum(row[c])))
}

/// The cells of the rows of an entry, row after row.
pub open spec fn entry_cells(prefix: Seq<u8>, rows: Seq<(Seq<u8>, Seq<Datum>)>, width: nat) -> StoreModel
    decreases rows.len(),
{
    if rows.len() == 0 {
        Seq::empty()
    } else {
        entry_cells(prefix, rows.drop_last(), width) + row_cells(
            prefix + rows.last().0,
            rows.last().1,
            width,
        )
    }
}

/// The cells of the rows of a side, entry after entry.
pub open spec fn side_cells(prefix: Seq<u8>, m: SideModel, width: nat) -> StoreModel
    decreases m.len(),
{
    if m.len() == 0 {
        Seq::empty()
    } else {
        side_cells(prefix, m.drop_last(), width) + entry_cells(
            prefix + m.last().0,
            m.last().1.rows,
            width,
        )
    }
}

/// The rows of an entry, each with the stem of its cells.
pub open spec fn entry_list(prefix: Seq<u8>, rows: Seq<(Seq<u8>, Seq<Datum>)>) -> Seq<
    (Seq<u8>, Seq<Datum>),
> {
    Seq::new(rows.len(), |j: int| (prefix + rows[j].0, rows[j].1))
}

/// The rows of a side, each with the stem of its cells, entry after entry.
pub open spec fn side_list(prefix: Seq<u8>, m: SideModel) -> Seq<(Seq<u8>, Seq<Datum>)>
    decreases m.len(),
{
    if m.len() == 0 {
        Seq::empty()
    } else {
        side_list(prefix, m.drop_last()) + entry_list(prefix + m.last().0, m.last().1.rows)
    }
}

/// Cells that are decoded one after the other are decoded together.
pub proof fn lemma_decode_concat(a: StoreModel, b: StoreModel, width: nat)
    requires
        decode_groups(a, width).is_some(),
        decode_groups(b, width).is_some(),
    ensures
        decode_groups(a + b, width) == Some(
            decode_groups(a, width).unwrap() + decode_groups(b, width).unwrap(),
        ),
    decreases a.len(),
{
    if a.len() == 0 {
        assert(a + b =~= b);
        assert(decode_groups(a, width).unwrap() + decode_groups(b, width).unwrap()
            =~= decode_groups(b, width).unwrap());
    } else {
        let rest = a.subrange(width as int, a.len() as int);
        assert(group_ok(a, width));
        lemma_decode_concat(rest, b, width);
        let ab = a + b;
        assert(ab.subrange(width as int, ab.len() as int) =~= rest + b);
        assert(group_ok(ab, width)) by {
            assert forall|i: int| 0 <= i < width implies (#[trigger] ab[i]) == a[i] by {}
            assert(ab[0] == a[0]);
        }
        assert(group_row(ab, width) =~= group_row(a, width)) by {
            assert forall|i: int| 0 <= i < width implies ab[i] == a[i] by {}
        }
        let x = decode_groups(rest, width).unwrap();
        let y = decode_groups(b, width).unwrap();
        let head = seq![(stem_of(a[0].0), group_row(a, width))];
        assert(head + (x + y) =~= (head + x) + y);
    }
}

/// The cells of a row are decoded into the row.
pub proof fn lemma_decode_row(stem: Seq<u8>, row: Seq<Datum>, width: nat)
    requires
        row.len() == width,
        0 < width <= u32::MAX,
    ensures
        decode_groups(row_cells(stem, row, width), width) == Some(seq![(stem, row)]),
{
    let cells = row_cells(stem, row, width);
    lemma_be32_val32(0);
    assert(stem_of(cells[0].0) =~= stem);
    assert forall|i: int| 0 <= i < width implies (#[trigger] cells[i]).0 == stem_of(cells[0].0)
        + be32(i as nat) && decode_cell(cells[i].1) == Some(row[i]) by {
        lemma_cell_round_trip(row[i], Seq::empty());
    }
    assert(group_ok(cells, width));
    assert(group_row(cells, width) =~= row);
    let rest = cells.subrange(width as int, cells.len() as int);
    assert(rest.len() == 0);
    assert(decode_groups(rest, width) == Some(Seq::<(Seq<u8>, Seq<Datum>)>::empty()));
    assert(seq![(stem, row)] + Seq::<(Seq<u8>, Seq<Datum>)>::empty() =~= seq![(stem, row)]);
    assert(cells.len() > 0);
    assert(decode_groups(cells, width) == Some(
        seq![(stem_of(cells[0].0), group_row(cells, width))] + Seq::<
            (Seq<u8>, Seq<Datum>),
        >::empty(),
    ));
}

/// The cells of the rows of an entry are decoded into the rows.
pub proof fn lemma_decode_entry(prefix: Seq<u8>, rows: Seq<(Seq<u8>, Seq<Datum>)>, width: nat)
    requires
        0 < width <= u32::MAX,
        forall|j: int| 0 <= j < rows.len() ==> (#[trigger] rows[j]).1.len() == width,
    ensures
        decode_groups(entry_cells(prefix, rows, width), width) == Some(entry_list(prefix, rows)),
    decreases rows.len(),
{
    if rows.len() == 0 {
        assert(entry_list(prefix, rows) =~= Seq::<(Seq<u8>, Seq<Datum>)>::empty());
    } else {
        let before = rows.drop_last();
        assert forall|j: int| 0 <= j < before.len() implies (#[trigger] before[j]).1.len()
            == width by {
            assert(before[j] == rows[j]);
        }
        lemma_decode_entry(prefix, before, width);
        lemma_decode_row(prefix + rows.last().0, rows.last().1, width);
        lemma_decode_concat(
            entry_cells(prefix, before, width),
            row_cells(prefix + rows.last().0, rows.last().1, width),
            width,
        );
        assert(entry_list(prefix, before) + seq![(prefix + rows.last().0, rows.last().1)]
            =~= entry_list(prefix, rows));
    }
}

/// The cells of the rows of a side are decoded into the rows.
pub proof fn lemma_decode_side(
    prefix: Seq<u8>,
    m: SideModel,
    kc: Seq<usize>,
    pc: Seq<usize>,
    width: nat,
)
    requires
        0 < width <= u32::MAX,
        side_ok(m, kc, pc, width),
    ensures
        decode_groups(side_cells(prefix, m, width), width) == Some(side_list(prefix, m)),
    decreases m.len(),
{
    if m.len() > 0 {
        let before = m.drop_last();
        assert(side_ok(before, kc, pc, width)) by {
            assert forall|i: int, j: int| 0 <= i < j < before.len() implies bytes_lt(
                #[trigger] before[i].0,
                #[trigger] before[j].0,
            ) by {
                assert(before[i] == m[i] && before[j] == m[j]);
            }
            assert forall|i: int| 0 <= i < before.len() implies side_entry_ok(kc, pc, width)(
                #[trigger] before[i],
            ) by {
                assert(before[i] == m[i]);
            }
        }
        lemma_decode_side(prefix, before, kc, pc, width);
        let e = m.last().1;
        assert(side_entry_ok(kc, pc, width)(m[m.len() - 1]));
        assert forall|j: int| 0 <= j < e.rows.len() implies (#[trigger] e.rows[j]).1.len()
            == width by {
            assert(row_entry_ok(pc, width)(e.rows[j]));
        }
        lemma_decode_entry(prefix + m.last().0, e.rows, width);
        lemma_decode_concat(
            side_cells(prefix, before, width),
            entry_cells(prefix + m.last().0, e.rows, width),
            width,
        );
    }
}

/// The rows of an entry are put back from their stems as they were held.
proof fn lemma_rows_from_entry(
    prefix: Seq<u8>,
    rows: Seq<(Seq<u8>, Seq<Datum>)>,
    pc: Seq<usize>,
    width: nat,
    n: int,
)
    requires
        keys_sorted(rows),
        forall|j: int| 0 <= j < rows.len() ==> row_entry_ok(pc, width)(#[trigger] rows[j]),
        0 <= n <= rows.len(),
    ensures
        rows_from(prefix, pc, entry_list(prefix, rows.subrange(0, n))) == Some(rows.subrange(0, n)),
    decreases n,
{
    let part = rows.subrange(0, n);
    let list = entry_list(prefix, part);
    if n == 0 {
        assert(part =~= Seq::<(Seq<u8>, Seq<Datum>)>::empty());
    } else {
        let before = rows.subrange(0, n - 1);
        lemma_rows_from_entry(prefix, rows, pc, width, n - 1);
        assert(list.drop_last() =~= entry_list(prefix, before));
        assert(list.last() == (prefix + rows[n - 1].0, rows[n - 1].1));
        assert(row_entry_ok(pc, width)(rows[n - 1]));
        let pkb = rows[n - 1].0;
        assert forall|j: int| 0 <= j < before.len() implies bytes_lt(#[trigger] before[j].0, pkb)
            && !bytes_lt(pkb, before[j].0) by {
            assert(before[j] == rows[j]);
            lemma_lt_asymmetric(rows[j].0, pkb);
        }
        assert(keys_sorted(before)) by {
            assert forall|i: int, j: int| 0 <= i < j < before.len() implies bytes_lt(
                #[trigger] before[i].0,
                #[trigger] before[j].0,
            ) by {
                assert(before[i] == rows[i] && before[j] == rows[j]);
            }
        }
        lemma_rank_unique(before, pkb, before.len() as int);
        assert(put(before, pkb, rows[n - 1].1) =~= part);
    }
}

/// An entry gets its rows back from the store. The rows that an entry
/// holds are read back from their cells as they were held; so an entry that
/// was flushed, and whose copy of the rows was then dropped from memory,
/// holds the same rows again once it has loaded what a scan of its cells
/// holds.
pub proof fn lemma_load_after_evict(prefix: Seq<u8>, e: EntryModel, pc: Seq<usize>, width: nat)
    requires
        0 < width <= u32::MAX,
        entry_ok(e, pc, width),
    ensures
        stored_rows(prefix, pc, width, entry_cells(prefix, e.rows, width)) == Some(e.rows),
        entry_loaded(entry_evicted(entry_flushed(e)), e.rows).rows == e.rows,
        entry_loaded(entry_evicted(entry_flushed(e)), e.rows).loaded,
{
    assert forall|j: int| 0 <= j < e.rows.len() implies (#[trigger] e.rows[j]).1.len() == width by {
        assert(row_entry_ok(pc, width)(e.rows[j]));
    }
    lemma_decode_entry(prefix, e.rows, width);
    lemma_rows_from_entry(prefix, e.rows, pc, width, e.rows.len() as int);
    assert(e.rows.subrange(0, e.rows.len() as int) == e.rows);
}

/// The rows of `list` put back into the side `acc`, one after the other;
/// `None` unless the stem of each row is `prefix` followed by the encoded
/// join key and the encoded primary key of the row.
pub open spec fn side_fold(
    acc: SideModel,
    prefix: Seq<u8>,
    kc: Seq<usize>,
    pc: Seq<usize>,
    list: Seq<(Seq<u8>, Seq<Datum>)>,
) -> Option<SideModel>
    decreases list.len(),
{
    if list.len() == 0 {
        Some(acc)
    } else {
        match side_fold(acc, prefix, kc, pc, list.drop_last()) {
            None => None,
            Some(m) => {
                let row = list.last().1;
                if list.last().0 == prefix + key_bytes(row, kc) + pk_bytes(row, pc) {
                    Some(side_restore(m, key_bytes(row, kc), pc, row))
                } else {
                    None
                }
            },
        }
    }
}

pub proof fn lemma_side_from_is_fold(
    prefix: Seq<u8>,
    kc: Seq<usize>,
    pc: Seq<usize>,
    list: Seq<(Seq<u8>, Seq<Datum>)>,
)
    ensures
        side_from(prefix, kc, pc, list) == side_fold(Seq::empty(), prefix, kc, pc, list),
    decreases list.len(),
{
    if list.len() > 0 {
        lemma_side_from_is_fold(prefix, kc, pc, list.drop_last());
    }
}

pub proof fn lemma_fold_concat(
    acc: SideModel,
    prefix: Seq<u8>,
    kc: Seq<usize>,
    pc: Seq<usize>,
    a: Seq<(Seq<u8>, Seq<Datum>)>,
    b: Seq<(Seq<u8>, Seq<Datum>)>,
)
    ensures
        side_fold(acc, prefix, kc, pc, a + b) == match side_fold(acc, prefix, kc, pc, a) {
            Some(m) => side_fold(m, prefix, kc, pc, b),
            None => None,
        },
    decreases b.len(),
{
    if b.len() == 0 {
        assert(a + b =~= a);
    } else {
        assert((a + b).drop_last() =~= a + b.drop_last());
        lemma_fold_concat(acc, prefix, kc, pc, a, b.drop_last());
    }
}

/// An entry as it is after a flush, or after it was read back from the
/// store: its rows, and nothing pending.
pub open spec fn settled(rows: Seq<(Seq<u8>, Seq<Datum>)>) -> EntryModel {
    EntryModel { rows, pending: Seq::empty(), all_cached: true, loaded: true }
}

/// Putting back the rows of an entry, whose key comes after all the keys of
/// `acc`, adds the entry at the end of `acc`.
proof fn lemma_fold_entry(
    acc: SideModel,
    prefix: Seq<u8>,
    kc: Seq<usize>,
    pc: Seq<usize>,
    width: nat,
    key: Seq<u8>,
    rows: Seq<(Seq<u8>, Seq<Datum>)>,
    n: int,
)
    requires
        keys_sorted(acc),
        forall|i: int| 0 <= i < acc.len() ==> bytes_lt(#[trigger] acc[i].0, key),
        keys_sorted(rows),
        forall|j: int| 0 <= j < rows.len() ==> row_entry_ok(pc, width)(#[trigger] rows[j]),
        forall|j: int| 0 <= j < rows.len() ==> key_bytes((#[trigger] rows[j]).1, kc) == key,
        0 < n <= rows.len(),
    ensures
        side_fold(acc, prefix, kc, pc, entry_list(prefix + key, rows.subrange(0, n))) == Some(
            acc.push((key, settled(rows.subrange(0, n)))),
        ),
    decreases n,
{
    let part = rows.subrange(0, n);
    let list = entry_list(prefix + key, part);
    let before = rows.subrange(0, n - 1);
    assert(list.drop_last() =~= entry_list(prefix + key, before));
    let row = rows[n - 1].1;
    let pkb = rows[n - 1].0;
    assert(list.last() == (prefix + key + pkb, row));
    assert(row_entry_ok(pc, width)(rows[n - 1]));
    assert(key_bytes(row, kc) == key && pk_bytes(row, pc) == pkb);
    assert forall|j: int| 0 <= j < acc.len() implies !bytes_lt(key, #[trigger] acc[j].0) by {
        lemma_lt_asymmetric(acc[j].0, key);
    }
    if n == 1 {
        assert(entry_list(prefix + key, before) =~= Seq::<(Seq<u8>, Seq<Datum>)>::empty());
        lemma_rank_unique(acc, key, acc.len() as int);
        assert(!has_key(acc, key));
        let e1 = entry_restore(entry_or_new(acc, key), pc, row);
        assert(e1.rows =~= part);
        assert(side_restore(acc, key, pc, row) =~= acc.push((key, settled(part))));
    } else {
        lemma_fold_entry(acc, prefix, kc, pc, width, key, rows, n - 1);
        let mid = acc.push((key, settled(before)));
        assert(keys_sorted(mid)) by {
            assert forall|i: int, j: int| 0 <= i < j < mid.len() implies bytes_lt(
                #[trigger] mid[i].0,
                #[trigger] mid[j].0,
            ) by {
                if j < acc.len() {
                    assert(mid[i] == acc[i] && mid[j] == acc[j]);
                } else {
                    assert(mid[i] == acc[i]);
                }
            }
        }
        lemma_lookup_at(mid, acc.len() as int);
        assert forall|j: int| 0 <= j < before.len() implies bytes_lt(
            #[trigger] before[j].0,
            pkb,
        ) by {
            assert(before[j] == rows[j]);
        }
        assert(keys_sorted(before)) by {
            assert forall|i: int, j: int| 0 <= i < j < before.len() implies bytes_lt(
                #[trigger] before[i].0,
                #[trigger] before[j].0,
            ) by {
                assert(before[i] == rows[i] && before[j] == rows[j]);
            }
        }
        assert forall|j: int| 0 <= j < before.len() implies !bytes_lt(
            pkb,
            #[trigger] before[j].0,
        ) by {
            lemma_lt_asymmetric(before[j].0, pkb);
        }
        lemma_rank_unique(before, pkb, before.len() as int);
        assert(!has_key(before, pkb));
        assert(put(before, pkb, row) =~= part);
        let e1 = entry_restore(settled(before), pc, row);
        assert(e1 == settled(part));
        assert(side_restore(mid, key, pc, row) =~= acc.push((key, settled(part))));
    }
}

/// The side as it is read back from its cells: every entry settled.
pub open spec fn settled_side(m: SideModel) -> SideModel {
    Seq::new(m.len(), |i: int| (m[i].0, settled(m[i].1.rows)))
}

/// The rows of a side are put back as they were held.
pub proof fn lemma_restore_side(
    prefix: Seq<u8>,
    m: SideModel,
    kc: Seq<usize>,
    pc: Seq<usize>,
    width: nat,
)
    requires
        side_ok(m, kc, pc, width),
        forall|i: int| 0 <= i < m.len() ==> (#[trigger] m[i]).1.rows.len() > 0,
    ensures
        side_fold(Seq::empty(), prefix, kc, pc, side_list(prefix, m)) == Some(settled_side(m)),
    decreases m.len(),
{
    if m.len() == 0 {
        assert(settled_side(m) =~= Seq::<(Seq<u8>, EntryModel)>::empty());
    } else {
        let before = m.drop_last();
        let last = m.len() - 1;
        assert(side_ok(before, kc, pc, width)) by {
            assert forall|i: int, j: int| 0 <= i < j < before.len() implies bytes_lt(
                #[trigger] before[i].0,
                #[trigger] before[j].0,
            ) by {
                assert(before[i] == m[i] && before[j] == m[j]);
            }
            assert forall|i: int| 0 <= i < before.len() implies side_entry_ok(kc, pc, width)(
                #[trigger] before[i],
            ) by {
                assert(before[i] == m[i]);
            }
        }
        assert forall|i: int| 0 <= i < before.len() implies (#[trigger] before[i]).1.rows.len()
            > 0 by {
            assert(before[i] == m[i]);
        }
        lemma_restore_side(prefix, before, kc, pc, width);
        let acc = settled_side(before);
        let key = m[last].0;
        let rows = m[last].1.rows;
        assert(side_entry_ok(kc, pc, width)(m[last]));
        assert(keys_sorted(acc)) by {
            assert forall|i: int, j: int| 0 <= i < j < acc.len() implies bytes_lt(
                #[trigger] acc[i].0,
                #[trigger] acc[j].0,
            ) by {
                assert(acc[i].0 == m[i].0 && acc[j].0 == m[j].0);
            }
        }
        assert forall|i: int| 0 <= i < acc.len() implies bytes_lt(
            #[trigger] acc[i].0,
            key,
        ) by {
            assert(acc[i].0 == m[i].0);
        }
        lemma_fold_entry(acc, prefix, kc, pc, width, key, rows, rows.len() as int);
        assert(rows.subrange(0, rows.len() as int) == rows);
        lemma_fold_concat(
            Seq::empty(),
            prefix,
            kc,
            pc,
            side_list(prefix, before),
            entry_list(prefix + key, rows),
        );
        assert(acc.push((key, settled(rows))) =~= settled_side(m));
    }
}

/// A flushed side is a settled side.
pub proof fn lemma_flushed_is_settled(m: SideModel, kc: Seq<usize>, pc: Seq<usize>, width: nat)
    requires
        side_ok(m, kc, pc, width),
    ensures
        side_flushed(m) == settled_side(m),
{
    assert forall|i: int| 0 <= i < m.len() implies side_flushed(m)[i] == settled_side(m)[i] by {
        assert(side_entry_ok(kc, pc, width)(m[i]));
    }
    assert(side_flushed(m) =~= settled_side(m));
}

/// The rows of a side are read back from their cells as they were held. A
/// key under which the side holds no row leaves no cell, so it is not read
/// back: the law speaks of sides that hold a row under each key they have
/// met.
pub proof fn lemma_cells_round_trip(
    prefix: Seq<u8>,
    m: SideModel,
    kc: Seq<usize>,
    pc: Seq<usize>,
    width: nat,
)
    requires
        0 < width <= u32::MAX,
        side_ok(m, kc, pc, width),
        forall|i: int| 0 <= i < m.len() ==> (#[trigger] m[i]).1.rows.len() > 0,
    ensures
        stored_side(prefix, kc, pc, width, side_cells(prefix, m, width)) == Some(side_flushed(m)),
{
    lemma_decode_side(prefix, m, kc, pc, width);
    lemma_side_from_is_fold(prefix, kc, pc, side_list(prefix, m));
    lemma_restore_side(prefix, m, kc, pc, width);
    lemma_flushed_is_settled(m, kc, pc, width);
}

/// The store and the side agree: once the store has taken the pending
/// writes of the side, it holds under the prefix of the side the cells of
/// the rows of the side, and no other.
pub open spec fn synced(store: StoreModel, prefix: Seq<u8>, m: SideModel, width: nat) -> bool {
    scan_of(store_apply(store, side_flush_ops(prefix, m, width)), prefix) == side_cells(
        prefix,
        m,
        width,
    )
}

/// After a flush, a side that starts from what the store holds is the side
/// that was flushed: the rows that a scan of the store under the prefix of
/// the side holds, once the store has taken the writes of the flush, are put
/// back as the flushed side, so what the operator puts out from then on is
/// what it would have put out had it run on.
///
/// This holds where the store and the side agree, and of sides that hold a
/// row under each key they have met: a key without rows leaves no cell.
pub proof fn lemma_recover_after_flush(
    store: StoreModel,
    prefix: Seq<u8>,
    m: SideModel,
    kc: Seq<usize>,
    pc: Seq<usize>,
    width: nat,
)
    requires
        0 < width <= u32::MAX,
        side_ok(m, kc, pc, width),
        forall|i: int| 0 <= i < m.len() ==> (#[trigger] m[i]).1.rows.len() > 0,
        synced(store, prefix, m, width),
    ensures
        stored_side(
            prefix,
            kc,
            pc,
            width,
            scan_of(store_apply(store, side_flush_ops(prefix, m, width)), prefix),
        ) == Some(side_flushed(m)),
{
    lemma_cells_round_trip(prefix, m, kc, pc, width);
}

/// The value of a column of a row as a cell holds it.
pub open spec fn cell_fn() -> spec_fn(Seq<Datum>, int) -> Seq<u8> {
    |row: Seq<Datum>, c: int| encode_datum(row[c])
}

/// What a flush writes for a column of a pending mutation: the value of the
/// column of a row, nothing for a tombstone.
pub open spec fn op_fn() -> spec_fn(Option<Seq<Datum>>, int) -> Option<Seq<u8>> {
    |p: Option<Seq<Datum>>, c: int|
        match p {
            Some(r) => Some(encode_datum(r[c])),
            None => None,
        }
}

pub open spec fn rows_fn() -> spec_fn(EntryModel) -> Seq<(Seq<u8>, Seq<Datum>)> {
    |e: EntryModel| e.rows
}

pub open spec fn pending_fn() -> spec_fn(EntryModel) -> Seq<(Seq<u8>, Option<Seq<Datum>>)> {
    |e: EntryModel| e.pending
}

proof fn lemma_entry_cells_are_blocks(prefix: Seq<u8>, rows: Seq<(Seq<u8>, Seq<Datum>)>, width: nat)
    ensures
        entry_cells(prefix, rows, width) == blocks(prefix, rows, width, cell_fn()),
    decreases rows.len(),
{
    if rows.len() > 0 {
        lemma_entry_cells_are_blocks(prefix, rows.drop_last(), width);
        assert(row_cells(prefix + rows.last().0, rows.last().1, width) =~= block(
            prefix + rows.last().0,
            rows.last().1,
            width,
            cell_fn(),
        ));
    }
}

proof fn lemma_flush_ops_are_blocks(
    prefix: Seq<u8>,
    pending: Seq<(Seq<u8>, Option<Seq<Datum>>)>,
    width: nat,
)
    ensures
        flush_ops(prefix, pending, width) == blocks(prefix, pending, width, op_fn()),
    decreases pending.len(),
{
    if pending.len() > 0 {
        lemma_flush_ops_are_blocks(prefix, pending.drop_last(), width);
        assert(row_ops(prefix, pending.last().0, pending.last().1, width) =~= block(
            prefix + pending.last().0,
            pending.last().1,
            width,
            op_fn(),
        ));
    }
}

/// The cells of a side are the items of its rows.
pub proof fn lemma_side_cells_are_groups(prefix: Seq<u8>, m: SideModel, width: nat)
    ensures
        side_cells(prefix, m, width) == groups(
            prefix,
            map_entries(m, rows_fn()),
            width,
            cell_fn(),
        ),
    decreases m.len(),
{
    if m.len() > 0 {
        lemma_side_cells_are_groups(prefix, m.drop_last(), width);
        lemma_entry_cells_are_blocks(prefix + m.last().0, m.last().1.rows, width);
        assert(map_entries(m, rows_fn()).drop_last() =~= map_entries(m.drop_last(), rows_fn()));
    }
}

/// The writes of a flush of a side are the items of its pending mutations.
pub proof fn lemma_side_ops_are_groups(prefix: Seq<u8>, m: SideModel, width: nat)
    ensures
        side_flush_ops(prefix, m, width) == groups(
            prefix,
            map_entries(m, pending_fn()),
            width,
            op_fn(),
        ),
    decreases m.len(),
{
    if m.len() > 0 {
        lemma_side_ops_are_groups(prefix, m.drop_last(), width);
        lemma_flush_ops_are_blocks(prefix + m.last().0, m.last().1.pending, width);
        assert(map_entries(m, pending_fn()).drop_last() =~= map_entries(
            m.drop_last(),
            pending_fn(),
        ));
    }
}

/// The keys of a side are what they are made to be: each join key that
/// the side has met is the encoding of as many values as the join key has
/// columns, and each primary key with a pending mutation that of as many
/// values as the primary key has columns.
pub open spec fn keys_coded(m: SideModel, kc: Seq<usize>, pc: Seq<usize>) -> bool {
    &&& keys_are_codes(m, kc.len())
    &&& forall|i: int| 0 <= i < m.len() ==> keys_are_codes((#[trigger] m[i]).1.pending, pc.len())
}

/// What the cells of the side hold for a column of a row.
pub open spec fn cell_at(m: SideModel, key: Seq<u8>, pk: Seq<u8>, c: int) -> Option<Seq<u8>> {
    match lookup(m, key) {
        Some(e) => match lookup(e.rows, pk) {
            Some(row) => Some(encode_datum(row[c])),
            None => None,
        },
        None => None,
    }
}

/// What the next flush of the side writes for a column of a row, if it
/// writes anything for it.
pub open spec fn write_at(m: SideModel, key: Seq<u8>, pk: Seq<u8>, c: int) -> Option<
    Option<Seq<u8>>,
> {
    match lookup(m, key) {
        Some(e) => match lookup(e.pending, pk) {
            Some(p) => Some(op_fn()(p, c)),
            None => None,
        },
        None => None,
    }
}

/// What the store holds for a column of a row once it has taken the next
/// flush of the side.
pub open spec fn after_flush(
    store: StoreModel,
    prefix: Seq<u8>,
    m: SideModel,
    key: Seq<u8>,
    pk: Seq<u8>,
    c: int,
) -> Option<Seq<u8>> {
    match write_at(m, key, pk, c) {
        Some(v) => v,
        None => lookup(store, key3(prefix, key, pk, c)),
    }
}

/// The store and the side agree, cell by cell: for every column of every
/// row, the store holds after the next flush what the side holds; and the
/// store holds nothing under the prefix of the side but cells of rows.
pub open spec fn in_sync(
    store: StoreModel,
    prefix: Seq<u8>,
    m: SideModel,
    width: nat,
    kc: Seq<usize>,
    pc: Seq<usize>,
) -> bool {
    &&& forall|key: Seq<u8>, pk: Seq<u8>, c: int|
        is_code(key, kc.len()) && is_code(pk, pc.len()) && 0 <= c < width ==> after_flush(
            store,
            prefix,
            m,
            key,
            pk,
            c,
        ) == #[trigger] cell_at(m, key, pk, c)
    &&& forall|k: Seq<u8>|
        is_prefix(prefix, k) && #[trigger] has_key(store, k) ==> is_cell_key(
            prefix,
            k,
            width,
            kc.len(),
            pc.len(),
        )
}

/// The side and its parts as the layout of the cells takes them.
proof fn lemma_side_layout(m: SideModel, kc: Seq<usize>, pc: Seq<usize>, width: nat)
    requires
        side_ok(m, kc, pc, width),
        keys_coded(m, kc, pc),
    ensures
        keys_sorted(map_entries(m, rows_fn())),
        keys_sorted(map_entries(m, pending_fn())),
        keys_are_codes(map_entries(m, rows_fn()), kc.len()),
        keys_are_codes(map_entries(m, pending_fn()), kc.len()),
        forall|i: int|
            0 <= i < m.len() ==> keys_sorted((#[trigger] map_entries(m, rows_fn())[i]).1)
                && keys_are_codes(map_entries(m, rows_fn())[i].1, pc.len()),
        forall|i: int|
            0 <= i < m.len() ==> keys_sorted((#[trigger] map_entries(m, pending_fn())[i]).1)
                && keys_are_codes(map_entries(m, pending_fn())[i].1, pc.len()),
{
    lemma_map_entries(m, rows_fn(), Seq::empty());
    lemma_map_entries(m, pending_fn(), Seq::empty());
    let r = map_entries(m, rows_fn());
    let p = map_entries(m, pending_fn());
    assert forall|i: int| 0 <= i < m.len() implies is_code((#[trigger] r[i]).0, kc.len())
        && is_code((#[trigger] p[i]).0, kc.len()) by {
        assert(is_code(m[i].0, kc.len()));
    }
    assert forall|i: int| 0 <= i < m.len() implies keys_sorted((#[trigger] r[i]).1)
        && keys_are_codes(r[i].1, pc.len()) by {
        assert(side_entry_ok(kc, pc, width)(m[i]));
        let rows = m[i].1.rows;
        assert forall|j: int| 0 <= j < rows.len() implies is_code((#[trigger] rows[j]).0, pc.len()) by {
            assert(row_entry_ok(pc, width)(rows[j]));
            let t = project(rows[j].1, pc);
            assert(t.len() == pc.len() && encode_datums(t) == rows[j].0);
        }
    }
    assert forall|i: int| 0 <= i < m.len() implies keys_sorted((#[trigger] p[i]).1)
        && keys_are_codes(p[i].1, pc.len()) by {
        assert(side_entry_ok(kc, pc, width)(m[i]));
        assert(keys_are_codes(m[i].1.pending, pc.len()));
    }
}

/// What is found among the cells of a side and among the writes of its
/// next flush, under the key of a cell.
proof fn lemma_side_lookup(
    prefix: Seq<u8>,
    m: SideModel,
    kc: Seq<usize>,
    pc: Seq<usize>,
    width: nat,
    key: Seq<u8>,
    pk: Seq<u8>,
    c: int,
)
    requires
        width <= u32::MAX,
        side_ok(m, kc, pc, width),
        keys_coded(m, kc, pc),
        is_code(key, kc.len()),
        is_code(pk, pc.len()),
        0 <= c < width,
    ensures
        keys_sorted(side_cells(prefix, m, width)),
        keys_sorted(side_flush_ops(prefix, m, width)),
        lookup(side_cells(prefix, m, width), key3(prefix, key, pk, c)) == cell_at(m, key, pk, c),
        lookup(side_flush_ops(prefix, m, width), key3(prefix, key, pk, c)) == write_at(m, key, pk, c),
{
    lemma_side_layout(m, kc, pc, width);
    lemma_side_cells_are_groups(prefix, m, width);
    lemma_side_ops_are_groups(prefix, m, width);
    lemma_map_entries(m, rows_fn(), key);
    lemma_map_entries(m, pending_fn(), key);
    lemma_groups_lookup(
        prefix,
        map_entries(m, rows_fn()),
        width,
        cell_fn(),
        kc.len(),
        pc.len(),
        key,
        pk,
        c,
    );
    lemma_groups_lookup(
        prefix,
        map_entries(m, pending_fn()),
        width,
        op_fn(),
        kc.len(),
        pc.len(),
        key,
        pk,
        c,
    );
}

/// Every key among the cells of a side, and among the writes of its next
/// flush, is the key of a cell under the prefix of the side.
proof fn lemma_side_keys(
    prefix: Seq<u8>,
    m: SideModel,
    kc: Seq<usize>,
    pc: Seq<usize>,
    width: nat,
    k: Seq<u8>,
)
    requires
        width <= u32::MAX,
        side_ok(m, kc, pc, width),
        keys_coded(m, kc, pc),
    ensures
        keys_sorted(side_cells(prefix, m, width)),
        keys_sorted(side_flush_ops(prefix, m, width)),
        has_key(side_cells(prefix, m, width), k) ==> is_cell_key(
            prefix,
            k,
            width,
            kc.len(),
            pc.len(),
        ) && is_prefix(prefix, k),
        has_key(side_flush_ops(prefix, m, width), k) ==> is_cell_key(
            prefix,
            k,
            width,
            kc.len(),
            pc.len(),
        ) && is_prefix(prefix, k),
{
    lemma_side_layout(m, kc, pc, width);
    lemma_side_cells_are_groups(prefix, m, width);
    lemma_side_ops_are_groups(prefix, m, width);
    let r = map_entries(m, rows_fn());
    let p = map_entries(m, pending_fn());
    lemma_codes_separated(r, kc.len());
    lemma_codes_separated(p, kc.len());
    assert forall|i: int| 0 <= i < r.len() implies separated((#[trigger] r[i]).1) by {
        lemma_codes_separated(r[i].1, pc.len());
    }
    assert forall|i: int| 0 <= i < p.len() implies separated((#[trigger] p[i]).1) by {
        lemma_codes_separated(p[i].1, pc.len());
    }
    lemma_groups(prefix, r, width, cell_fn());
    lemma_groups(prefix, p, width, op_fn());
    if has_key(side_cells(prefix, m, width), k) {
        lemma_groups_keys(prefix, r, width, cell_fn(), kc.len(), pc.len(), k);
    }
    if has_key(side_flush_ops(prefix, m, width), k) {
        lemma_groups_keys(prefix, p, width, op_fn(), kc.len(), pc.len(), k);
    }
}

/// Where the store and the side agree cell by cell, the store holds after
/// the next flush the cells of the rows of the side, and no other under the
/// prefix of the side.
pub proof fn lemma_in_sync_is_synced(
    store: StoreModel,
    prefix: Seq<u8>,
    m: SideModel,
    kc: Seq<usize>,
    pc: Seq<usize>,
    width: nat,
)
    requires
        width <= u32::MAX,
        keys_sorted(store),
        side_ok(m, kc, pc, width),
        keys_coded(m, kc, pc),
        in_sync(store, prefix, m, width, kc, pc),
    ensures
        synced(store, prefix, m, width),
{
    let ops = side_flush_ops(prefix, m, width);
    let cells = side_cells(prefix, m, width);
    let after = store_apply(store, ops);
    let scan = scan_of(after, prefix);
    lemma_side_keys(prefix, m, kc, pc, width, Seq::empty());
    lemma_apply_lookup(store, ops, Seq::empty());
    lemma_scan(after, prefix);
    assert forall|k: Seq<u8>| lookup(scan, k) == lookup(cells, k) by {
        lemma_scan_lookup(after, prefix, k);
        lemma_apply_lookup(store, ops, k);
        lemma_side_keys(prefix, m, kc, pc, width, k);
        if is_prefix(prefix, k) {
            if is_cell_key(prefix, k, width, kc.len(), pc.len()) {
                let (key, pk, c): (Seq<u8>, Seq<u8>, int) = choose|
                    key: Seq<u8>,
                    pk: Seq<u8>,
                    c: int,
                |
                    is_code(key, kc.len()) && is_code(pk, pc.len()) && 0 <= c < width && k
                        == #[trigger] key3(prefix, key, pk, c);
                lemma_side_lookup(prefix, m, kc, pc, width, key, pk, c);
                assert(after_flush(store, prefix, m, key, pk, c) == cell_at(m, key, pk, c));
            } else {
                assert(!has_key(store, k));
            }
        }
    }
    lemma_sorted_unique(scan, cells);
}

/// A side that has met no key agrees with a store that holds nothing under
/// its prefix.
pub proof fn lemma_sync_start(
    store: StoreModel,
    prefix: Seq<u8>,
    width: nat,
    kc: Seq<usize>,
    pc: Seq<usize>,
)
    requires
        forall|k: Seq<u8>| is_prefix(prefix, k) ==> !has_key(store, k),
    ensures
        in_sync(store, prefix, Seq::empty(), width, kc, pc),
        keys_coded(Seq::empty(), kc, pc),
{
    let m = Seq::<(Seq<u8>, EntryModel)>::empty();
    assert forall|key: Seq<u8>, pk: Seq<u8>, c: int|
        is_code(key, kc.len()) && is_code(pk, pc.len()) && 0 <= c < width implies after_flush(
        store,
        prefix,
        m,
        key,
        pk,
        c,
    ) == #[trigger] cell_at(m, key, pk, c) by {
        lemma_rank_bounds(m, key);
        let k = key3(prefix, key, pk, c);
        assert(k.subrange(0, prefix.len() as int) =~= prefix);
    }
}

/// The store and the side still agree after an insert.
pub proof fn lemma_sync_insert(
    store: StoreModel,
    prefix: Seq<u8>,
    m: SideModel,
    kc: Seq<usize>,
    pc: Seq<usize>,
    width: nat,
    row: Seq<Datum>,
)
    requires
        side_ok(m, kc, pc, width),
        keys_coded(m, kc, pc),
        in_sync(store, prefix, m, width, kc, pc),
    ensures
        in_sync(store, prefix, side_insert(m, key_bytes(row, kc), pc, row), width, kc, pc),
        keys_coded(side_insert(m, key_bytes(row, kc), pc, row), kc, pc),
{
    let kb = key_bytes(row, kc);
    let pkb = pk_bytes(row, pc);
    let e = entry_or_new(m, kb);
    let e1 = entry_insert(e, pc, row);
    let m1 = side_insert(m, kb, pc, row);
    lemma_rank_bounds(m, kb);
    if has_key(m, kb) {
        assert(side_entry_ok(kc, pc, width)(m[rank(m, kb)]));
        assert(keys_are_codes(m[rank(m, kb)].1.pending, pc.len()));
    }
    assert(is_code(kb, kc.len())) by {
        let t = project(row, kc);
        assert(t.len() == kc.len() && encode_datums(t) == kb);
    }
    assert(is_code(pkb, pc.len())) by {
        let t = project(row, pc);
        assert(t.len() == pc.len() && encode_datums(t) == pkb);
    }
    let coded = |x: (Seq<u8>, Option<Seq<Datum>>)| is_code(x.0, pc.len());
    assert forall|j: int| 0 <= j < e.pending.len() implies coded(#[trigger] e.pending[j]) by {}
    lemma_put_all(e.pending, pkb, Some(row), coded);
    assert(keys_are_codes(e1.pending, pc.len())) by {
        assert forall|j: int| 0 <= j < e1.pending.len() implies is_code(
            (#[trigger] e1.pending[j]).0,
            pc.len(),
        ) by {
            assert(coded(e1.pending[j]));
        }
    }
    let entry_coded = |x: (Seq<u8>, EntryModel)|
        is_code(x.0, kc.len()) && keys_are_codes(x.1.pending, pc.len());
    assert forall|i: int| 0 <= i < m.len() implies entry_coded(#[trigger] m[i]) by {}
    lemma_put_all(m, kb, e1, entry_coded);
    assert(keys_coded(m1, kc, pc)) by {
        assert forall|i: int| 0 <= i < m1.len() implies is_code((#[trigger] m1[i]).0, kc.len())
            && keys_are_codes(m1[i].1.pending, pc.len()) by {
            assert(entry_coded(m1[i]));
        }
    }
    assert forall|key: Seq<u8>, pk: Seq<u8>, c: int|
        is_code(key, kc.len()) && is_code(pk, pc.len()) && 0 <= c < width implies after_flush(
        store,
        prefix,
        m1,
        key,
        pk,
        c,
    ) == #[trigger] cell_at(m1, key, pk, c) by {
        assert(after_flush(store, prefix, m, key, pk, c) == cell_at(m, key, pk, c));
        lemma_lookup_put(m, kb, e1, key);
        if key == kb {
            lemma_lookup_put(e.rows, pkb, row, pk);
            lemma_lookup_put(e.pending, pkb, Some(row), pk);
            if !has_key(m, kb) {
                lemma_rank_bounds(e.rows, pk);
                lemma_rank_bounds(e.pending, pk);
            }
        }
    }
}

/// A removal cancels a pending insert of a row of which the store still
/// holds a cell: the store is then left with the cells of a row that the
/// side does not hold any more.
pub open spec fn cancels_stored(
    store: StoreModel,
    prefix: Seq<u8>,
    m: SideModel,
    width: nat,
    key: Seq<u8>,
    pk: Seq<u8>,
) -> bool {
    &&& lookup(m, key) matches Some(e) && (lookup(e.pending, pk) matches Some(Some(_)))
    &&& exists|c: int| 0 <= c < width && has_key(store, #[trigger] key3(prefix, key, pk, c))
}

/// The store and the side still agree after a removal, unless the removal
/// cancels a pending insert of a row of which the store still holds a cell.
pub proof fn lemma_sync_remove(
    store: StoreModel,
    prefix: Seq<u8>,
    m: SideModel,
    kc: Seq<usize>,
    pc: Seq<usize>,
    width: nat,
    key0: Seq<u8>,
    pk0: Seq<u8>,
)
    requires
        side_ok(m, kc, pc, width),
        keys_coded(m, kc, pc),
        is_code(pk0, pc.len()),
        in_sync(store, prefix, m, width, kc, pc),
        !cancels_stored(store, prefix, m, width, key0, pk0),
    ensures
        in_sync(store, prefix, side_remove(m, key0, pk0), width, kc, pc),
        keys_coded(side_remove(m, key0, pk0), kc, pc),
{
    let m1 = side_remove(m, key0, pk0);
    lemma_rank_bounds(m, key0);
    if has_key(m, key0) {
        let e = m[rank(m, key0)].1;
        let e1 = entry_remove(e, pk0);
        assert(side_entry_ok(kc, pc, width)(m[rank(m, key0)]));
        assert(keys_are_codes(e.pending, pc.len()));
        assert(is_code(m[rank(m, key0)].0, kc.len()));
        let coded = |x: (Seq<u8>, Option<Seq<Datum>>)| is_code(x.0, pc.len());
        assert forall|j: int| 0 <= j < e.pending.len() implies coded(#[trigger] e.pending[j]) by {}
        lemma_put_all(e.pending, pk0, None, coded);
        lemma_del_all(e.pending, pk0, coded);
        assert(keys_are_codes(e1.pending, pc.len())) by {
            assert forall|j: int| 0 <= j < e1.pending.len() implies is_code(
                (#[trigger] e1.pending[j]).0,
                pc.len(),
            ) by {
                assert(coded(e1.pending[j]));
            }
        }
        let entry_coded = |x: (Seq<u8>, EntryModel)|
            is_code(x.0, kc.len()) && keys_are_codes(x.1.pending, pc.len());
        assert forall|i: int| 0 <= i < m.len() implies entry_coded(#[trigger] m[i]) by {}
        lemma_put_all(m, key0, e1, entry_coded);
        assert(keys_coded(m1, kc, pc)) by {
            assert forall|i: int| 0 <= i < m1.len() implies is_code(
                (#[trigger] m1[i]).0,
                kc.len(),
            ) && keys_are_codes(m1[i].1.pending, pc.len()) by {
                assert(entry_coded(m1[i]));
            }
        }
        assert forall|key: Seq<u8>, pk: Seq<u8>, c: int|
            is_code(key, kc.len()) && is_code(pk, pc.len()) && 0 <= c < width implies after_flush(
            store,
            prefix,
            m1,
            key,
            pk,
            c,
        ) == #[trigger] cell_at(m1, key, pk, c) by {
            assert(after_flush(store, prefix, m, key, pk, c) == cell_at(m, key, pk, c));
            lemma_lookup_put(m, key0, e1, key);
            if key == key0 {
                lemma_lookup_del(e.rows, pk0, pk);
                lemma_lookup_del(e.pending, pk0, pk);
                lemma_lookup_put(e.pending, pk0, None, pk);
                if pk == pk0 {
                    if lookup(e.pending, pk0) matches Some(Some(_)) {
                        assert(!has_key(store, key3(prefix, key0, pk0, c)));
                    }
                }
            }
        }
    }
}

/// The store and the side agree after a flush: the store has taken the
/// writes, and the side has nothing pending.
pub proof fn lemma_sync_flush(
    store: StoreModel,
    prefix: Seq<u8>,
    m: SideModel,
    kc: Seq<usize>,
    pc: Seq<usize>,
    width: nat,
)
    requires
        width <= u32::MAX,
        keys_sorted(store),
        side_ok(m, kc, pc, width),
        keys_coded(m, kc, pc),
        in_sync(store, prefix, m, width, kc, pc),
    ensures
        keys_sorted(store_apply(store, side_flush_ops(prefix, m, width))),
        in_sync(
            store_apply(store, side_flush_ops(prefix, m, width)),
            prefix,
            side_flushed(m),
            width,
            kc,
            pc,
        ),
        keys_coded(side_flushed(m), kc, pc),
        side_ok(side_flushed(m), kc, pc, width),
{
    let ops = side_flush_ops(prefix, m, width);
    let after = store_apply(store, ops);
    let m1 = side_flushed(m);
    lemma_side_keys(prefix, m, kc, pc, width, Seq::empty());
    lemma_apply_lookup(store, ops, Seq::empty());
    lemma_map_entries(m, flushed_fn(), Seq::empty());
    assert forall|i: int| 0 <= i < m1.len() implies side_entry_ok(kc, pc, width)(#[trigger] m1[i])
        && is_code(m1[i].0, kc.len()) && keys_are_codes(m1[i].1.pending, pc.len()) by {
        assert(side_entry_ok(kc, pc, width)(m[i]));
        assert(is_code(m[i].0, kc.len()));
        assert(m1[i].1.rows == m[i].1.rows);
    }
    assert forall|key: Seq<u8>, pk: Seq<u8>, c: int|
        is_code(key, kc.len()) && is_code(pk, pc.len()) && 0 <= c < width implies after_flush(
        after,
        prefix,
        m1,
        key,
        pk,
        c,
    ) == #[trigger] cell_at(m1, key, pk, c) by {
        assert(after_flush(store, prefix, m, key, pk, c) == cell_at(m, key, pk, c));
        lemma_map_entries(m, flushed_fn(), key);
        lemma_side_lookup(prefix, m, kc, pc, width, key, pk, c);
        lemma_apply_lookup(store, ops, key3(prefix, key, pk, c));
        if has_key(m, key) {
            lemma_rank_bounds(Seq::<(Seq<u8>, Option<Seq<Datum>>)>::empty(), pk);
        }
    }
    assert forall|k: Seq<u8>| is_prefix(prefix, k) && #[trigger] has_key(after, k) implies is_cell_key(
        prefix,
        k,
        width,
        kc.len(),
        pc.len(),
    ) by {
        lemma_apply_lookup(store, ops, k);
        lemma_side_keys(prefix, m, kc, pc, width, k);
        if !has_key(ops, k) {
            assert(has_key(store, k));
        }
    }
}

/// Writes under keys outside the prefix of a side leave the store and the
/// side in agreement: the flush of the other side does not disturb this one.
pub proof fn lemma_sync_frame(
    store: StoreModel,
    prefix: Seq<u8>,
    m: SideModel,
    kc: Seq<usize>,
    pc: Seq<usize>,
    width: nat,
    ops: Seq<WriteOp>,
)
    requires
        keys_sorted(store),
        in_sync(store, prefix, m, width, kc, pc),
        forall|t: int| 0 <= t < ops.len() ==> !is_prefix(prefix, (#[trigger] ops[t]).0),
    ensures
        keys_sorted(store_apply(store, ops)),
        in_sync(store_apply(store, ops), prefix, m, width, kc, pc),
        scan_of(store_apply(store, ops), prefix) == scan_of(store, prefix),
{
    let after = store_apply(store, ops);
    lemma_store_apply_sorted(store, ops);
    assert forall|k: Seq<u8>| is_prefix(prefix, k) implies lookup(after, k) == lookup(store, k) by {
        lemma_apply_frame(store, ops, k);
    }
    assert forall|key: Seq<u8>, pk: Seq<u8>, c: int|
        is_code(key, kc.len()) && is_code(pk, pc.len()) && 0 <= c < width implies after_flush(
        after,
        prefix,
        m,
        key,
        pk,
        c,
    ) == #[trigger] cell_at(m, key, pk, c) by {
        assert(after_flush(store, prefix, m, key, pk, c) == cell_at(m, key, pk, c));
        let k = key3(prefix, key, pk, c);
        assert(k.subrange(0, prefix.len() as int) =~= prefix);
    }
    assert forall|k: Seq<u8>| is_prefix(prefix, k) && #[trigger] has_key(after, k) implies is_cell_key(
        prefix,
        k,
        width,
        kc.len(),
        pc.len(),
    ) by {
        assert(has_key(store, k));
    }
    lemma_scan(after, prefix);
    lemma_scan(store, prefix);
    assert forall|k: Seq<u8>| lookup(scan_of(after, prefix), k) == lookup(
        scan_of(store, prefix),
        k,
    ) by {
        lemma_scan_lookup(after, prefix, k);
        lemma_scan_lookup(store, prefix, k);
    }
    lemma_sorted_unique(scan_of(after, prefix), scan_of(store, prefix));
}

/// Whether the change `(op, row)` is a removal that cancels a pending
/// insert of a row of which the store still holds a cell.
pub open spec fn change_cancels_stored(
    store: StoreModel,
    prefix: Seq<u8>,
    m: SideModel,
    p: StepParams,
    width: nat,
    op: Op,
    row: Seq<Datum>,
) -> bool {
    !op.adds() && cancels_stored(
        store,
        prefix,
        m,
        width,
        key_bytes(row, p.key_cols),
        pk_bytes(row, p.pk_cols),
    )
}

/// The store and the side still agree after a change of the side.
pub proof fn lemma_sync_step(
    store: StoreModel,
    prefix: Seq<u8>,
    m: SideModel,
    p: StepParams,
    width: nat,
    op: Op,
    row: Seq<Datum>,
)
    requires
        side_ok(m, p.key_cols, p.pk_cols, width),
        keys_coded(m, p.key_cols, p.pk_cols),
        in_sync(store, prefix, m, width, p.key_cols, p.pk_cols),
        row.len() == width,
        !change_cancels_stored(store, prefix, m, p, width, op, row),
    ensures
        side_ok(step_state(p, m, op, row), p.key_cols, p.pk_cols, width),
        keys_coded(step_state(p, m, op, row), p.key_cols, p.pk_cols),
        in_sync(store, prefix, step_state(p, m, op, row), width, p.key_cols, p.pk_cols),
{
    if op.adds() {
        lemma_side_insert_ok(m, p.key_cols, p.pk_cols, width, row);
        lemma_sync_insert(store, prefix, m, p.key_cols, p.pk_cols, width, row);
    } else {
        let pk = pk_bytes(row, p.pk_cols);
        assert(is_code(pk, p.pk_cols.len())) by {
            let t = project(row, p.pk_cols);
            assert(t.len() == p.pk_cols.len() && encode_datums(t) == pk);
        }
        lemma_side_remove_ok(m, p.key_cols, p.pk_cols, width, key_bytes(row, p.key_cols), pk);
        lemma_sync_remove(
            store,
            prefix,
            m,
            p.key_cols,
            p.pk_cols,
            width,
            key_bytes(row, p.key_cols),
            pk,
        );
    }
}

/// Whether none of the changes `rows`, applied in order, cancels a pending
/// insert of a row of which the store still holds a cell, and each has as
/// many values as the side has columns.
pub open spec fn rows_keep_sync(
    store: StoreModel,
    prefix: Seq<u8>,
    p: StepParams,
    width: nat,
    u: SideModel,
    other: SideModel,
    rows: Seq<(Op, Seq<Datum>)>,
) -> bool
    decreases rows.len(),
{
    if rows.len() == 0 {
        true
    } else {
        rows_keep_sync(store, prefix, p, width, u, other, rows.drop_last()) && rows.last().1.len()
            == width && !change_cancels_stored(
            store,
            prefix,
            step_rows(p, u, other, rows.drop_last()).0,
            p,
            width,
            rows.last().0,
            rows.last().1,
        )
    }
}

/// The store and the side still agree after the changes of a chunk.
pub proof fn lemma_sync_rows(
    store: StoreModel,
    prefix: Seq<u8>,
    p: StepParams,
    width: nat,
    u: SideModel,
    other: SideModel,
    rows: Seq<(Op, Seq<Datum>)>,
)
    requires
        side_ok(u, p.key_cols, p.pk_cols, width),
        keys_coded(u, p.key_cols, p.pk_cols),
        in_sync(store, prefix, u, width, p.key_cols, p.pk_cols),
        rows_keep_sync(store, prefix, p, width, u, other, rows),
    ensures
        side_ok(step_rows(p, u, other, rows).0, p.key_cols, p.pk_cols, width),
        keys_coded(step_rows(p, u, other, rows).0, p.key_cols, p.pk_cols),
        in_sync(store, prefix, step_rows(p, u, other, rows).0, width, p.key_cols, p.pk_cols),
    decreases rows.len(),
{
    if rows.len() > 0 {
        lemma_sync_rows(store, prefix, p, width, u, other, rows.drop_last());
        lemma_sync_step(
            store,
            prefix,
            step_rows(p, u, other, rows.drop_last()).0,
            p,
            width,
            rows.last().0,
            rows.last().1,
        );
    }
}

/// Persistence. A side that starts from what the store holds after a flush
/// is the side that was flushed. The rows that a scan of the store under
/// the prefix of the side holds, once the store has taken the writes of the
/// flush, are put back as the flushed side; so what an operator that starts
/// from the store puts out from then on is what the flushed operator puts
/// out.
///
/// This holds where the store and the side agree cell by cell, which they
/// do at the start and after every insert, removal and flush but for a
/// removal that cancels a pending insert of a row that the store still holds;
/// and of sides that hold a row under each key they have met, since a key
/// without rows leaves no cell in the store.
pub proof fn lemma_persistence(
    store: StoreModel,
    prefix: Seq<u8>,
    m: SideModel,
    kc: Seq<usize>,
    pc: Seq<usize>,
    width: nat,
)
    requires
        0 < width <= u32::MAX,
        keys_sorted(store),
        side_ok(m, kc, pc, width),
        keys_coded(m, kc, pc),
        in_sync(store, prefix, m, width, kc, pc),
        forall|i: int| 0 <= i < m.len() ==> (#[trigger] m[i]).1.rows.len() > 0,
    ensures
        stored_side(
            prefix,
            kc,
            pc,
            width,
            scan_of(store_apply(store, side_flush_ops(prefix, m, width)), prefix),
        ) == Some(side_flushed(m)),
{
    lemma_in_sync_is_synced(store, prefix, m, kc, pc, width);
    lemma_recover_after_flush(store, prefix, m, kc, pc, width);
}

/// The rows of a side of typed rows are typed.
pub proof fn lemma_side_list_typed(prefix: Seq<u8>, m: SideModel, types: Seq<DataType>)
    requires
        side_typed(m, types),
    ensures
        decoded_typed(side_list(prefix, m), types),
    decreases m.len(),
{
    if m.len() > 0 {
        let before = m.drop_last();
        assert(side_typed(before, types)) by {
            assert forall|i: int| 0 <= i < before.len() implies typed_entry(types)(
                #[trigger] before[i],
            ) by {
                assert(before[i] == m[i]);
            }
        }
        lemma_side_list_typed(prefix, before, types);
        let a = side_list(prefix, before);
        let b = entry_list(prefix + m.last().0, m.last().1.rows);
        assert(typed_entry(types)(m[m.len() - 1]));
        let all = side_list(prefix, m);
        assert forall|i: int| 0 <= i < all.len() implies row_typed(
            (#[trigger] all[i]).1,
            types,
        ) by {
            if i < a.len() {
                assert(all[i] == a[i]);
            } else {
                assert(all[i] == b[i - a.len()]);
                assert(typed_row(types)(m.last().1.rows[i - a.len()]));
            }
        }
    }
}

/// Persistence, with the types of the rows: a side of rows of the types of
/// its columns is read back as such.
pub proof fn lemma_persistence_typed(
    store: StoreModel,
    prefix: Seq<u8>,
    m: SideModel,
    kc: Seq<usize>,
    pc: Seq<usize>,
    types: Seq<DataType>,
)
    requires
        0 < types.len() <= u32::MAX,
        keys_sorted(store),
        side_ok(m, kc, pc, types.len()),
        side_typed(m, types),
        keys_coded(m, kc, pc),
        in_sync(store, prefix, m, types.len(), kc, pc),
        no_key_emptied(m),
    ensures
        typed_side(
            prefix,
            kc,
            pc,
            types,
            scan_of(store_apply(store, side_flush_ops(prefix, m, types.len())), prefix),
        ) == Some(side_flushed(m)),
{
    let width = types.len();
    lemma_persistence(store, prefix, m, kc, pc, width);
    lemma_in_sync_is_synced(store, prefix, m, kc, pc, width);
    lemma_decode_side(prefix, m, kc, pc, width);
    lemma_side_list_typed(prefix, m, types);
}

/// The store once it has taken the two batches of a barrier: that of the
/// left side, then that of the right side.
pub open spec fn after_barrier(store: StoreModel, j: HashJoinExecutor) -> StoreModel {
    store_apply(
        store_apply(
            store,
            side_flush_ops(j.left().prefix(), j.left()@, j.left().width()),
        ),
        side_flush_ops(j.right().prefix(), j.right()@, j.right().width()),
    )
}

/// The store and a side of the operator agree, and the keys of the side
/// are what they are made to be.
pub open spec fn side_agrees(store: StoreModel, side: JoinSide) -> bool {
    &&& in_sync(store, side.prefix(), side@, side.width(), side.key_cols(), side.pk_cols())
    &&& keys_coded(side@, side.key_cols(), side.pk_cols())
}

/// The side holds a row under each key it has met.
pub open spec fn no_key_emptied(m: SideModel) -> bool {
    forall|i: int| 0 <= i < m.len() ==> (#[trigger] m[i]).1.rows.len() > 0
}

/// Persistence of the operator. Once the store has taken the two batches
/// of a barrier, an operator that starts from what scans of the store hold
/// under the prefixes of the two sides has the sides of the operator that
/// was flushed.
///
/// This holds where the store agrees with both sides, of sides that have
/// columns and hold a row under each key they have met.
pub proof fn lemma_operator_persistence(j: HashJoinExecutor, store: StoreModel)
    requires
        j.wf(),
        keys_sorted(store),
        side_agrees(store, j.left()),
        side_agrees(store, j.right()),
        no_key_emptied(j.left()@),
        no_key_emptied(j.right()@),
        j.left().width() > 0,
        j.right().width() > 0,
    ensures
        j.stored(SideType::Left, scan_of(after_barrier(store, j), j.left().prefix())) == Some(
            side_flushed(j.left()@),
        ),
        j.stored(SideType::Right, scan_of(after_barrier(store, j), j.right().prefix())) == Some(
            side_flushed(j.right()@),
        ),
{
    let l = j.left();
    let r = j.right();
    j.lemma_wf();
    l.lemma_wf();
    r.lemma_wf();
    let ops_l = side_flush_ops(l.prefix(), l@, l.width());
    let ops_r = side_flush_ops(r.prefix(), r@, r.width());
    let store1 = store_apply(store, ops_l);
    lemma_side_keys(l.prefix(), l@, l.key_cols(), l.pk_cols(), l.width(), Seq::empty());
    lemma_side_keys(r.prefix(), r@, r.key_cols(), r.pk_cols(), r.width(), Seq::empty());
    assert forall|t: int| 0 <= t < ops_l.len() implies !is_prefix(
        r.prefix(),
        (#[trigger] ops_l[t]).0,
    ) by {
        lemma_lookup_at(ops_l, t);
        lemma_side_keys(l.prefix(), l@, l.key_cols(), l.pk_cols(), l.width(), ops_l[t].0);
        assert(!(is_prefix(l.prefix(), ops_l[t].0) && is_prefix(r.prefix(), ops_l[t].0)));
    }
    assert forall|t: int| 0 <= t < ops_r.len() implies !is_prefix(
        l.prefix(),
        (#[trigger] ops_r[t]).0,
    ) by {
        lemma_lookup_at(ops_r, t);
        lemma_side_keys(r.prefix(), r@, r.key_cols(), r.pk_cols(), r.width(), ops_r[t].0);
        assert(!(is_prefix(l.prefix(), ops_r[t].0) && is_prefix(r.prefix(), ops_r[t].0)));
    }
    // the left side: flushed first, and left alone by the batch of the right side
    lemma_persistence_typed(store, l.prefix(), l@, l.key_cols(), l.pk_cols(), l.types());
    lemma_sync_flush(store, l.prefix(), l@, l.key_cols(), l.pk_cols(), l.width());
    lemma_sync_frame(
        store1,
        l.prefix(),
        side_flushed(l@),
        l.key_cols(),
        l.pk_cols(),
        l.width(),
        ops_r,
    );
    // the right side: left alone by the batch of the left side, and flushed then
    lemma_sync_frame(store, r.prefix(), r@, r.key_cols(), r.pk_cols(), r.width(), ops_l);
    lemma_persistence_typed(store1, r.prefix(), r@, r.key_cols(), r.pk_cols(), r.types());
}

/// What an operator makes of a chunk is decided by what its sides hold:
/// two operators of one plan whose sides hold the same answer a chunk alike,
/// and hold the same afterwards.
pub proof fn lemma_same_state_same_output(
    a: HashJoinExecutor,
    a_after: HashJoinExecutor,
    b: HashJoinExecutor,
    b_after: HashJoinExecutor,
    side: SideType,
    chunk: StreamChunk,
    ra: Result<Message, StreamError>,
    rb: Result<Message, StreamError>,
)
    requires
        a.same_plan(&b),
        a.left()@ == b.left()@,
        a.right()@ == b.right()@,
        a.consumes(&a_after, side, chunk, ra),
        b.consumes(&b_after, side, chunk, rb),
    ensures
        ra matches Err(e) ==> rb == Err::<Message, StreamError>(e),
        ra matches Ok(ma) ==> (ma matches Message::Chunk(ca) && (rb matches Ok(Message::Chunk(cb))
            && ca.rows() == cb.rows())),
        a_after.left()@ == b_after.left()@,
        a_after.right()@ == b_after.right()@,
{
}

} // verus!
