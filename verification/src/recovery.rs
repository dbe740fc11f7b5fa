//! Rows back from the cells of the store: what a scan of a keyspace holds is
//! decoded into rows, and the rows are put back under their keys.

use vstd::prelude::*;
use crate::codec::{be32, decode_cell, deserialize_cell, lemma_be32_val32, lemma_val32_be32, read_be32};
use crate::storage::{cells_view, StoreModel};
use crate::types::{Datum, Row};

verus! {

/// The key of a cell without the four bytes of its column index.
pub open spec fn stem_of(key: Seq<u8>) -> Seq<u8> {
    key.subrange(0, key.len() - 4)
}

/// Whether the first `width` cells of `cells` are the cells of one row: their
/// keys are one stem followed by the column indices `0`, `1` and so on, and
/// their values are encoded values.
pub open spec fn group_ok(cells: StoreModel, width: nat) -> bool {
    &&& 0 < width <= u32::MAX
    &&& cells.len() >= width
    &&& cells[0].0.len() >= 4
    &&& forall|i: int|
        0 <= i < width ==> (#[trigger] cells[i]).0 == stem_of(cells[0].0) + be32(i as nat)
            && decode_cell(cells[i].1).is_some()
}

/// The row that the first `width` cells of `cells` hold.
pub open spec fn group_row(cells: StoreModel, width: nat) -> Seq<Datum> {
    Seq::new(width, |i: int| decode_cell(cells[i].1).unwrap())
}

/// The rows that `cells` hold, each with the stem of its keys, in the order
/// of the cells; `None` unless the cells are the cells of rows of `width`
/// columns, row after row.
pub open spec fn decode_groups(cells: StoreModel, width: nat) -> Option<Seq<(Seq<u8>, Seq<Datum>)>>
    decreases cells.len(),
{
    if cells.len() == 0 {
        Some(Seq::empty())
    } else if !group_ok(cells, width) {
        None
    } else {
        match decode_groups(cells.subrange(width as int, cells.len() as int), width) {
            None => None,
            Some(rest) => Some(seq![(stem_of(cells[0].0), group_row(cells, width))] + rest),
        }
    }
}

/// The rows of a decoded scan as sequences of values.
pub open spec fn decoded_view(rows: Seq<(Vec<u8>, Row)>) -> Seq<(Seq<u8>, Seq<Datum>)> {
    Seq::new(rows.len(), |i: int| (rows[i].0@, rows[i].1@))
}

/// Whether `key` is the key of column `i` of the row whose first cell has the key `first`.
fn key_matches(key: &Vec<u8>, first: &Vec<u8>, i: u32) -> (r: bool)
    requires
        first@.len() >= 4,
    ensures
        r == (key@ == stem_of(first@) + be32(i as nat)),
{
    let stem_len = first.len() - 4;
    proof {
        lemma_be32_val32(i as nat);
    }
    if key.len() != first.len() {
        return false;
    }
    let mut k: usize = 0;
    while k < stem_len
        invariant
            k <= stem_len,
            stem_len == first@.len() - 4,
            key@.len() == first@.len(),
            key@.subrange(0, k as int) == first@.subrange(0, k as int),
        decreases stem_len - k,
    {
        if key[k] != first[k] {
            proof {
                if key@ == stem_of(first@) + be32(i as nat) {
                    assert(key@[k as int] == stem_of(first@)[k as int]);
                }
            }
            return false;
        }
        assert(key@.subrange(0, k + 1) =~= key@.subrange(0, k as int).push(key@[k as int]));
        assert(first@.subrange(0, k + 1) =~= first@.subrange(0, k as int).push(first@[k as int]));
        k += 1;
    }
    let idx = read_be32(key, stem_len);
    proof {
        let tail = key@.subrange(stem_len as int, stem_len + 4);
        lemma_val32_be32(tail);
        assert(key@ =~= key@.subrange(0, stem_len as int) + tail);
        if key@ == stem_of(first@) + be32(i as nat) {
            assert(tail =~= be32(i as nat));
        }
    }
    idx == i
}

/// The key `first` without its last four bytes.
fn take_stem(first: &Vec<u8>) -> (stem: Vec<u8>)
    requires
        first@.len() >= 4,
    ensures
        stem@ == stem_of(first@),
{
    let stem_len = first.len() - 4;
    let mut stem: Vec<u8> = Vec::new();
    let mut k: usize = 0;
    while k < stem_len
        invariant
            k <= stem_len,
            stem_len == first@.len() - 4,
            stem@ == first@.subrange(0, k as int),
        decreases stem_len - k,
    {
        stem.push(first[k]);
        assert(stem@ == first@.subrange(0, k + 1));
        k += 1;
    }
    stem
}

/// Decodes the cells of a scan into rows of `width` columns: for each row
/// the stem of its keys and its values. `None` where the cells are not the
/// cells of such rows, row after row.
pub fn decode_cells(cells: &Vec<(Vec<u8>, Vec<u8>)>, width: usize) -> (r: Option<Vec<(Vec<u8>, Row)>>)
    ensures
        match r {
            Some(rows) => decode_groups(cells_view(cells@), width as nat) == Some(
                decoded_view(rows@),
            ),
            None => decode_groups(cells_view(cells@), width as nat).is_none(),
        },
{
    let ghost all = cells_view(cells@);
    let n = cells.len();
    let mut out: Vec<(Vec<u8>, Row)> = Vec::new();
    let mut base: usize = 0;
    proof {
        assert(all.subrange(0, n as int) == all);
        assert(decoded_view(out@) =~= Seq::<(Seq<u8>, Seq<Datum>)>::empty());
        let whole = decode_groups(all, width as nat);
        if whole.is_some() {
            assert(decoded_view(out@) + whole.unwrap() =~= whole.unwrap());
        }
    }
    while base < n
        invariant
            base <= n,
            n == cells@.len(),
            all == cells_view(cells@),
            decode_groups(all, width as nat) == match decode_groups(
                all.subrange(base as int, n as int),
                width as nat,
            ) {
                Some(rest) => Some(decoded_view(out@) + rest),
                None => None,
            },
        decreases n - base,
    {
        let ghost here = all.subrange(base as int, n as int);
        assert(here[0] == all[base as int]);
        if width == 0 || width > u32::MAX as usize || n - base < width || cells[base].0.len() < 4 {
            return None;
        }
        let mut data: Vec<Datum> = Vec::new();
        let mut i: usize = 0;
        while i < width
            invariant
                i <= width,
                0 < width <= n - base,
                width <= u32::MAX,
                n == cells@.len(),
                all == cells_view(cells@),
                here == all.subrange(base as int, n as int),
                here[0].0.len() >= 4,
                decode_groups(here, width as nat).is_none() ==> decode_groups(
                    all,
                    width as nat,
                ).is_none(),
                data@.len() == i,
                forall|k: int|
                    0 <= k < i ==> (#[trigger] here[k]).0 == stem_of(here[0].0) + be32(k as nat)
                        && decode_cell(here[k].1) == Some(data@[k]),
            decreases width - i,
        {
            assert(here[i as int] == all[base + i]);
            assert(here[0] == all[base as int]);
            if !key_matches(&cells[base + i].0, &cells[base].0, i as u32) {
                assert(!group_ok(here, width as nat)) by {
                    assert(here[i as int].0 != stem_of(here[0].0) + be32(i as nat));
                }
                return None;
            }
            match deserialize_cell(&cells[base + i].1) {
                Some(d) => {
                    data.push(d);
                },
                None => {
                    assert(!group_ok(here, width as nat)) by {
                        assert(decode_cell(here[i as int].1).is_none());
                    }
                    return None;
                },
            }
            i += 1;
        }
        let stem = take_stem(&cells[base].0);
        let ghost before = decoded_view(out@);
        out.push((stem, Row(data)));
        proof {
            assert(group_ok(here, width as nat));
            assert(data@ =~= group_row(here, width as nat));
            assert(here.subrange(width as int, here.len() as int) =~= all.subrange(
                base + width,
                n as int,
            ));
            let head = seq![(stem_of(here[0].0), group_row(here, width as nat))];
            assert(decoded_view(out@) =~= before + head);
            let rest = decode_groups(all.subrange(base + width, n as int), width as nat);
            if rest.is_some() {
                assert(before + (head + rest.unwrap()) =~= decoded_view(out@) + rest.unwrap());
            }
        }
        base += width;
    }
    proof {
        assert(all.subrange(n as int, n as int) =~= Seq::<(Seq<u8>, Seq<u8>)>::empty());
        assert(decoded_view(out@) + Seq::<(Seq<u8>, Seq<Datum>)>::empty() =~= decoded_view(out@));
    }
    Some(out)
}

} // verus!
