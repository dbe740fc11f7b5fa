//! The rows of one side under one join key: a copy in memory, a buffer of the
//! mutations since the last flush, and the cells in the store that the flush
//! writes.

use vstd::prelude::*;
use crate::bytes::{append_bytes, bytes_equal, clone_bytes};
use crate::codec::{encode_datums, serialize_row};
use crate::error::StreamError;
use crate::recovery::{decode_cells, decode_groups, decoded_view};
use crate::storage::cells_view;
use crate::sorted_map::{
    del, has_key, keys_sorted, lemma_del_all, lemma_del_sorted, lemma_map_entries,
    lemma_map_entries_put_del, lemma_put_all, lemma_put_sorted, lookup, map_entries, put, SortedMap,
};
use crate::storage::{flush_ops, write_row, Keyspace, WriteBatch};
use crate::types::{indices_within, project, Datum, Row};

verus! {

/// How an entry holds its rows.
#[derive(Clone, Copy, Debug, PartialEq, Eq, Structural)]
pub enum StateEntry {
    /// No rows, and nothing to flush.
    Empty,
    /// All the rows are in memory.
    AllCached,
    /// The rows are in the store; memory holds the mutations since the last
    /// flush, and all the rows once they have been loaded.
    NotAll,
}

/// What an entry holds: its rows and its buffer of mutations, each by
/// increasing encoded primary key, and how far memory can be trusted.
pub struct EntryModel {
    /// The rows in memory, under their encoded primary keys. All the rows of
    /// the key where `loaded` holds.
    pub rows: Seq<(Seq<u8>, Seq<Datum>)>,
    /// The mutations since the last flush: a row to store, or `None` for a tombstone.
    pub pending: Seq<(Seq<u8>, Option<Seq<Datum>>)>,
    /// The entry has held all its rows since it was made or last flushed.
    pub all_cached: bool,
    /// `rows` holds all the rows of the key.
    pub loaded: bool,
}

pub open spec fn row_view() -> spec_fn(Row) -> Seq<Datum> {
    |r: Row| r@
}

pub open spec fn opt_row_view() -> spec_fn(Option<Row>) -> Option<Seq<Datum>> {
    |o: Option<Row>|
        match o {
            Some(r) => Some(r@),
            None => None,
        }
}

pub open spec fn entry_view_fn() -> spec_fn(ManagedJoinState) -> EntryModel {
    |e: ManagedJoinState| e@
}

/// The bytes under which a row is kept: the encoding of its primary key.
pub open spec fn pk_bytes(row: Seq<Datum>, pk_indices: Seq<usize>) -> Seq<u8> {
    encode_datums(project(row, pk_indices))
}

/// The entry without rows that a key gets when it is first met.
pub open spec fn empty_entry() -> EntryModel {
    EntryModel { rows: Seq::empty(), pending: Seq::empty(), all_cached: true, loaded: true }
}

/// The entry after `row` was inserted: it takes the place of a row with the
/// same primary key, in memory and in the buffer.
pub open spec fn entry_insert(e: EntryModel, pk_indices: Seq<usize>, row: Seq<Datum>) -> EntryModel {
    let pk = pk_bytes(row, pk_indices);
    EntryModel { rows: put(e.rows, pk, row), pending: put(e.pending, pk, Some(row)), ..e }
}

/// The entry after the row under `pk` was removed: a pending insert of it is
/// cancelled, and otherwise a tombstone is recorded.
pub open spec fn entry_remove(e: EntryModel, pk: Seq<u8>) -> EntryModel {
    EntryModel {
        rows: del(e.rows, pk),
        pending: if lookup(e.pending, pk) matches Some(Some(_)) {
            del(e.pending, pk)
        } else {
            put(e.pending, pk, None)
        },
        ..e
    }
}

/// The rows of `rows` with the mutations of `pending` applied to them: a
/// pending row takes the place of the row under its key, a tombstone takes
/// the row under its key away.
pub open spec fn overlay(
    rows: Seq<(Seq<u8>, Seq<Datum>)>,
    pending: Seq<(Seq<u8>, Option<Seq<Datum>>)>,
) -> Seq<(Seq<u8>, Seq<Datum>)>
    decreases pending.len(),
{
    if pending.len() == 0 {
        rows
    } else {
        let before = overlay(rows, pending.drop_last());
        match pending.last().1 {
            Some(r) => put(before, pending.last().0, r),
            None => del(before, pending.last().0),
        }
    }
}

/// The rows of a decoded scan under their encoded primary keys; `None`
/// unless the keys of the cells of each row are `prefix` followed by the
/// encoded primary key of the row.
pub open spec fn rows_from(
    prefix: Seq<u8>,
    pk_indices: Seq<usize>,
    decoded: Seq<(Seq<u8>, Seq<Datum>)>,
) -> Option<Seq<(Seq<u8>, Seq<Datum>)>>
    decreases decoded.len(),
{
    if decoded.len() == 0 {
        Some(Seq::empty())
    } else {
        match rows_from(prefix, pk_indices, decoded.drop_last()) {
            None => None,
            Some(rows) => if decoded.last().0 == prefix + pk_bytes(decoded.last().1, pk_indices) {
                Some(put(rows, pk_bytes(decoded.last().1, pk_indices), decoded.last().1))
            } else {
                None
            },
        }
    }
}

/// The rows that the cells of a scan under the prefix of an entry stand for.
pub open spec fn stored_rows(
    prefix: Seq<u8>,
    pk_indices: Seq<usize>,
    width: nat,
    cells: Seq<(Seq<u8>, Seq<u8>)>,
) -> Option<Seq<(Seq<u8>, Seq<Datum>)>> {
    match decode_groups(cells, width) {
        Some(decoded) => rows_from(prefix, pk_indices, decoded),
        None => None,
    }
}

/// The entry after its rows were loaded: the rows of the store with the
/// pending mutations applied to them.
pub open spec fn entry_loaded(e: EntryModel, stored: Seq<(Seq<u8>, Seq<Datum>)>) -> EntryModel {
    EntryModel { rows: overlay(stored, e.pending), loaded: true, ..e }
}

/// The entry with `row` put back under its primary key, as a row that the store holds.
pub open spec fn entry_restore(e: EntryModel, pk_indices: Seq<usize>, row: Seq<Datum>) -> EntryModel {
    EntryModel { rows: put(e.rows, pk_bytes(row, pk_indices), row), ..e }
}

/// The decoded rows have `width` columns each.
pub proof fn lemma_decoded_width(cells: Seq<(Seq<u8>, Seq<u8>)>, width: nat)
    requires
        decode_groups(cells, width).is_some(),
    ensures
        forall|i: int|
            0 <= i < decode_groups(cells, width).unwrap().len() ==> (#[trigger] decode_groups(
                cells,
                width,
            ).unwrap()[i]).1.len() == width,
    decreases cells.len(),
{
    if cells.len() > 0 {
        lemma_decoded_width(cells.subrange(width as int, cells.len() as int), width);
    }
}

/// The entry after a flush: nothing is pending, and it counts as all cached
/// if memory holds all its rows.
pub open spec fn entry_flushed(e: EntryModel) -> EntryModel {
    EntryModel { pending: Seq::empty(), all_cached: e.loaded, ..e }
}

/// The entry after its copy of the rows was dropped from memory.
pub open spec fn entry_evicted(e: EntryModel) -> EntryModel {
    EntryModel { rows: Seq::empty(), all_cached: false, loaded: false, ..e }
}

pub open spec fn entry_kind(e: EntryModel) -> StateEntry {
    if !e.all_cached {
        StateEntry::NotAll
    } else if e.rows.len() == 0 && e.pending.len() == 0 {
        StateEntry::Empty
    } else {
        StateEntry::AllCached
    }
}

/// A row has `width` columns and stands under the encoding of its own primary key.
pub open spec fn row_entry_ok(pk_indices: Seq<usize>, width: nat) -> spec_fn(
    (Seq<u8>, Seq<Datum>),
) -> bool {
    |e: (Seq<u8>, Seq<Datum>)| e.1.len() == width && e.0 == pk_bytes(e.1, pk_indices)
}

/// A pending row has `width` columns and stands under the encoding of its own primary key.
pub open spec fn pending_entry_ok(pk_indices: Seq<usize>, width: nat) -> spec_fn(
    (Seq<u8>, Option<Seq<Datum>>),
) -> bool {
    |e: (Seq<u8>, Option<Seq<Datum>>)|
        e.1 matches Some(r) ==> r.len() == width && e.0 == pk_bytes(r, pk_indices)
}

/// What holds of every entry: rows and buffer are sorted, each row has
/// `width` columns and stands under the encoding of its own primary key.
pub open spec fn entry_ok(e: EntryModel, pk_indices: Seq<usize>, width: nat) -> bool {
    &&& keys_sorted(e.rows)
    &&& keys_sorted(e.pending)
    &&& e.all_cached ==> e.loaded
    &&& forall|i: int|
        0 <= i < e.rows.len() ==> row_entry_ok(pk_indices, width)(#[trigger] e.rows[i])
    &&& forall|i: int|
        0 <= i < e.pending.len() ==> pending_entry_ok(pk_indices, width)(#[trigger] e.pending[i])
}

pub proof fn lemma_entry_insert_ok(e: EntryModel, pk_indices: Seq<usize>, width: nat, row: Seq<Datum>)
    requires
        entry_ok(e, pk_indices, width),
        row.len() == width,
    ensures
        entry_ok(entry_insert(e, pk_indices, row), pk_indices, width),
{
    let pk = pk_bytes(row, pk_indices);
    lemma_put_sorted(e.rows, pk, row);
    lemma_put_sorted(e.pending, pk, Some(row));
    lemma_put_all(e.rows, pk, row, row_entry_ok(pk_indices, width));
    lemma_put_all(e.pending, pk, Some(row), pending_entry_ok(pk_indices, width));
}

pub proof fn lemma_entry_remove_ok(e: EntryModel, pk_indices: Seq<usize>, width: nat, pk: Seq<u8>)
    requires
        entry_ok(e, pk_indices, width),
    ensures
        entry_ok(entry_remove(e, pk), pk_indices, width),
{
    lemma_del_sorted(e.rows, pk);
    lemma_del_sorted(e.pending, pk);
    lemma_put_sorted(e.pending, pk, None);
    lemma_del_all(e.rows, pk, row_entry_ok(pk_indices, width));
    lemma_del_all(e.pending, pk, pending_entry_ok(pk_indices, width));
    lemma_put_all(e.pending, pk, None, pending_entry_ok(pk_indices, width));
}

/// The state of one join key on one side.
pub struct ManagedJoinState {
    rows: SortedMap<Row>,
    pending: SortedMap<Option<Row>>,
    all_cached: bool,
    loaded: bool,
    pk_indices: Vec<usize>,
    width: usize,
    keyspace: Keyspace,
}

impl View for ManagedJoinState {
    type V = EntryModel;

    closed spec fn view(&self) -> EntryModel {
        EntryModel {
            rows: map_entries(self.rows.model(), row_view()),
            pending: map_entries(self.pending.model(), opt_row_view()),
            all_cached: self.all_cached,
            loaded: self.loaded,
        }
    }
}

impl ManagedJoinState {
    /// The columns of the primary key.
    pub closed spec fn pk_cols(&self) -> Seq<usize> {
        self.pk_indices@
    }

    /// The number of columns of a row.
    pub closed spec fn width(&self) -> nat {
        self.width as nat
    }

    /// The prefix of the keys of the entry's cells.
    pub closed spec fn prefix(&self) -> Seq<u8> {
        self.keyspace@
    }

    pub closed spec fn wf(&self) -> bool {
        &&& self.rows.wf()
        &&& self.pending.wf()
        &&& self.width <= u32::MAX
        &&& indices_within(self.pk_indices@, self.width as nat)
        &&& entry_ok(self@, self.pk_indices@, self.width as nat)
    }

    pub proof fn lemma_wf(&self)
        requires
            self.wf(),
        ensures
            entry_ok(self@, self.pk_cols(), self.width()),
            indices_within(self.pk_cols(), self.width()),
            self.width() <= u32::MAX,
    {
    }

    /// The entry of a key that is met for the first time: no rows, in memory or in the store.
    pub fn new(keyspace: Keyspace, pk_indices: Vec<usize>, width: usize) -> (s: Self)
        requires
            width <= u32::MAX,
            indices_within(pk_indices@, width as nat),
        ensures
            s.wf(),
            s@ == empty_entry(),
            s.pk_cols() == pk_indices@,
            s.width() == width,
            s.prefix() == keyspace@,
    {
        let s = ManagedJoinState {
            rows: SortedMap::new(),
            pending: SortedMap::new(),
            all_cached: true,
            loaded: true,
            pk_indices,
            width,
            keyspace,
        };
        proof {
            assert(s@.rows =~= Seq::<(Seq<u8>, Seq<Datum>)>::empty());
            assert(s@.pending =~= Seq::<(Seq<u8>, Option<Seq<Datum>>)>::empty());
        }
        s
    }

    pub fn kind(&self) -> (k: StateEntry)
        requires
            self.wf(),
        ensures
            k == entry_kind(self@),
    {
        if !self.all_cached {
            StateEntry::NotAll
        } else if self.rows.is_empty() && self.pending.is_empty() {
            StateEntry::Empty
        } else {
            StateEntry::AllCached
        }
    }

    /// Whether there is anything to flush.
    pub fn is_dirty(&self) -> (r: bool)
        requires
            self.wf(),
        ensures
            r == (self@.pending.len() > 0),
    {
        !self.pending.is_empty()
    }

    /// Whether memory holds all the rows of the key.
    pub fn is_loaded(&self) -> (r: bool)
        ensures
            r == self@.loaded,
    {
        self.loaded
    }

    /// Records the insertion of `value` under its primary key, in place of a
    /// row with the same primary key.
    pub fn insert(&mut self, value: Row)
        requires
            old(self).wf(),
            value@.len() == old(self).width(),
        ensures
            final(self).wf(),
            final(self)@ == entry_insert(old(self)@, old(self).pk_cols(), value@),
            final(self).pk_cols() == old(self).pk_cols(),
            final(self).width() == old(self).width(),
            final(self).prefix() == old(self).prefix(),
    {
        let pk_row = value.project(&self.pk_indices);
        let pk = serialize_row(&pk_row);
        let copy = value.clone();
        proof {
            lemma_map_entries_put_del(self.rows.model(), row_view(), pk@, value);
            lemma_map_entries_put_del(self.pending.model(), opt_row_view(), pk@, Some(copy));
            lemma_entry_insert_ok(self@, self.pk_indices@, self.width as nat, value@);
        }
        self.rows.insert(clone_bytes(&pk), value);
        self.pending.insert(pk, Some(copy));
    }

    /// Records the removal of the row under the primary key `pk`, and says
    /// whether memory held such a row.
    pub fn remove(&mut self, pk: &Row) -> (was_there: bool)
        requires
            old(self).wf(),
        ensures
            final(self).wf(),
            final(self)@ == entry_remove(old(self)@, encode_datums(pk@)),
            was_there == has_key(old(self)@.rows, encode_datums(pk@)),
            final(self).pk_cols() == old(self).pk_cols(),
            final(self).width() == old(self).width(),
            final(self).prefix() == old(self).prefix(),
    {
        let key = serialize_row(pk);
        proof {
            lemma_map_entries(self.rows.model(), row_view(), key@);
            lemma_map_entries(self.pending.model(), opt_row_view(), key@);
            lemma_map_entries_put_del(self.rows.model(), row_view(), key@, arbitrary());
            lemma_map_entries_put_del(self.pending.model(), opt_row_view(), key@, None);
            lemma_entry_remove_ok(self@, self.pk_indices@, self.width as nat, key@);
        }
        let was_there = self.rows.remove(&key).is_some();
        let cancel = match self.pending.get(&key) {
            Some(Some(_)) => true,
            _ => false,
        };
        if cancel {
            self.pending.remove(&key);
        } else {
            self.pending.insert(key, None);
        }
        was_there
    }

    /// The number of rows in memory.
    pub fn len(&self) -> (n: usize)
        requires
            self.wf(),
        ensures
            n == self@.rows.len(),
    {
        self.rows.len()
    }

    /// The `i`-th row in memory, by increasing primary key.
    pub fn row_at(&self, i: usize) -> (row: &Row)
        requires
            self.wf(),
            i < self@.rows.len(),
        ensures
            row@ == self@.rows[i as int].1,
    {
        self.rows.value_at(i)
    }

    /// Whether the key has no rows. Only an entry that holds all its rows can tell.
    pub fn is_empty(&self) -> (r: bool)
        requires
            self.wf(),
            self@.loaded,
        ensures
            r == (self@.rows.len() == 0),
    {
        self.rows.is_empty()
    }

    /// The rows of the key by increasing primary key, or `None` where they
    /// have to be loaded from the store first.
    pub fn values(&self) -> (r: Option<Vec<Row>>)
        requires
            self.wf(),
        ensures
            r.is_some() == self@.loaded,
            r matches Some(v) ==> v@.len() == self@.rows.len() && forall|i: int|
                0 <= i < v@.len() ==> (#[trigger] v@[i])@ == self@.rows[i].1,
    {
        if !self.loaded {
            return None;
        }
        let mut out: Vec<Row> = Vec::new();
        let n = self.rows.len();
        let mut i: usize = 0;
        while i < n
            invariant
                i <= n,
                self.wf(),
                n == self@.rows.len(),
                out@.len() == i,
                forall|j: int| 0 <= j < i ==> (#[trigger] out@[j])@ == self@.rows[j].1,
            decreases n - i,
        {
            out.push(self.rows.value_at(i).clone());
            i += 1;
        }
        Some(out)
    }

    /// Appends the writes of the pending mutations to `write_batch` and
    /// forgets them.
    pub fn flush(&mut self, write_batch: &mut WriteBatch)
        requires
            old(self).wf(),
        ensures
            final(self).wf(),
            final(self)@ == entry_flushed(old(self)@),
            final(write_batch)@ == old(write_batch)@ + flush_ops(
                old(self).prefix(),
                old(self)@.pending,
                old(self).width(),
            ),
            final(self).pk_cols() == old(self).pk_cols(),
            final(self).width() == old(self).width(),
            final(self).prefix() == old(self).prefix(),
    {
        let ghost pend = self@.pending;
        let ghost pre = self.keyspace@;
        let ghost w = self.width as nat;
        let n = self.pending.len();
        let mut i: usize = 0;
        while i < n
            invariant
                i <= n,
                self.wf(),
                *self == *old(self),
                n == pend.len(),
                pend == self@.pending,
                pre == self.keyspace@,
                w == self.width,
                write_batch@ == old(write_batch)@ + flush_ops(pre, pend.subrange(0, i as int), w),
            decreases n - i,
        {
            let key = self.pending.key_at(i);
            let value = self.pending.value_at(i);
            proof {
                assert(pend[i as int] == (key@, opt_row_view()(*value)));
                assert(pend.subrange(0, i + 1).drop_last() =~= pend.subrange(0, i as int));
            }
            write_row(write_batch, self.keyspace.prefix(), key, value.as_ref(), self.width);
            proof {
                assert(write_batch@ =~= old(write_batch)@ + flush_ops(
                    pre,
                    pend.subrange(0, i + 1),
                    w,
                ));
            }
            i += 1;
        }
        assert(pend.subrange(0, n as int) == pend);
        self.pending.clear();
        self.all_cached = self.loaded;
        proof {
            assert(self@.pending =~= Seq::<(Seq<u8>, Option<Seq<Datum>>)>::empty());
        }
    }

    /// Drops the copy of the rows from memory; the mutations since the last
    /// flush stay. To be called by whoever decides what memory holds.
    pub fn evict(&mut self)
        requires
            old(self).wf(),
        ensures
            final(self).wf(),
            final(self)@ == entry_evicted(old(self)@),
            final(self).pk_cols() == old(self).pk_cols(),
            final(self).width() == old(self).width(),
            final(self).prefix() == old(self).prefix(),
    {
        self.rows.clear();
        self.all_cached = false;
        self.loaded = false;
        proof {
            assert(self@.rows =~= Seq::<(Seq<u8>, Seq<Datum>)>::empty());
        }
    }
}

impl ManagedJoinState {
    /// Puts `value` back under its primary key, as a row that the store
    /// holds: nothing is recorded for the next flush.
    pub fn restore(&mut self, value: Row)
        requires
            old(self).wf(),
            value@.len() == old(self).width(),
        ensures
            final(self).wf(),
            final(self)@ == entry_restore(old(self)@, old(self).pk_cols(), value@),
            final(self).pk_cols() == old(self).pk_cols(),
            final(self).width() == old(self).width(),
            final(self).prefix() == old(self).prefix(),
    {
        let pk_row = value.project(&self.pk_indices);
        let pk = serialize_row(&pk_row);
        proof {
            lemma_map_entries_put_del(self.rows.model(), row_view(), pk@, value);
            lemma_put_sorted(self@.rows, pk@, value@);
            lemma_put_all(
                self@.rows,
                pk@,
                value@,
                row_entry_ok(self.pk_indices@, self.width as nat),
            );
        }
        self.rows.insert(pk, value);
    }

    /// Loads the rows of the entry from `cells`, the cells that a scan of
    /// the store under the prefix of the entry holds, and applies the pending
    /// mutations to them. An entry that holds all its rows is left as it is.
    /// Refused, with the entry as it was, where the cells are not the cells
    /// of rows of the entry.
    pub fn load(&mut self, cells: &Vec<(Vec<u8>, Vec<u8>)>) -> (r: Result<(), StreamError>)
        requires
            old(self).wf(),
        ensures
            final(self).wf(),
            final(self).pk_cols() == old(self).pk_cols(),
            final(self).width() == old(self).width(),
            final(self).prefix() == old(self).prefix(),
            if old(self)@.loaded {
                r.is_ok() && final(self)@ == old(self)@
            } else {
                match stored_rows(
                    old(self).prefix(),
                    old(self).pk_cols(),
                    old(self).width(),
                    cells_view(cells@),
                ) {
                    Some(stored) => r.is_ok() && final(self)@ == entry_loaded(old(self)@, stored),
                    None => r == Err::<(), StreamError>(StreamError::CorruptState) && final(self)@
                        == old(self)@,
                }
            },
    {
        if self.loaded {
            return Ok(());
        }
        let decoded = match decode_cells(cells, self.width) {
            Some(d) => d,
            None => {
                return Err(StreamError::CorruptState);
            },
        };
        let ghost dv = decoded_view(decoded@);
        let ghost pre = self.keyspace@;
        let ghost pk = self.pk_indices@;
        let ghost w = self.width as nat;
        proof {
            lemma_decoded_width(cells_view(cells@), w);
        }
        let mut rows: SortedMap<Row> = SortedMap::new();
        let n = decoded.len();
        let mut j: usize = 0;
        while j < n
            invariant
                j <= n,
                n == decoded@.len(),
                dv == decoded_view(decoded@),
                pre == self.keyspace@,
                pk == self.pk_indices@,
                w == self.width,
                *self == *old(self),
                self.wf(),
                !self.loaded,
                decode_groups(cells_view(cells@), w) == Some(dv),
                forall|k: int| 0 <= k < dv.len() ==> (#[trigger] dv[k]).1.len() == w,
                rows.wf(),
                rows_from(pre, pk, dv.subrange(0, j as int)) == Some(
                    map_entries(rows.model(), row_view()),
                ),
                forall|k: int|
                    0 <= k < rows.model().len() ==> row_entry_ok(pk, w)(
                        #[trigger] map_entries(rows.model(), row_view())[k],
                    ),
            decreases n - j,
        {
            proof {
                assert(dv.subrange(0, j + 1).drop_last() =~= dv.subrange(0, j as int));
                assert(dv.subrange(0, j + 1).last() == dv[j as int]);
                lemma_rows_from_prefix(pre, pk, dv, j + 1);
            }
            let row = decoded[j].1.clone();
            let pk_row = row.project(&self.pk_indices);
            let pkb = serialize_row(&pk_row);
            let mut want = clone_bytes(self.keyspace.prefix());
            append_bytes(&mut want, &pkb);
            if !bytes_equal(&decoded[j].0, &want) {
                proof {
                    assert(rows_from(pre, pk, dv.subrange(0, j + 1)).is_none());
                }
                return Err(StreamError::CorruptState);
            }
            proof {
                let m = map_entries(rows.model(), row_view());
                lemma_map_entries(rows.model(), row_view(), pkb@);
                rows.lemma_wf_sorted();
                lemma_map_entries_put_del(rows.model(), row_view(), pkb@, row);
                lemma_put_all(m, pkb@, row@, row_entry_ok(pk, w));
            }
            rows.insert(pkb, row);
            j += 1;
        }
        proof {
            assert(dv.subrange(0, n as int) == dv);
        }
        let ghost stored = map_entries(rows.model(), row_view());
        let ghost pend = self@.pending;
        let m = self.pending.len();
        let mut k: usize = 0;
        proof {
            rows.lemma_wf_sorted();
            lemma_map_entries(rows.model(), row_view(), Seq::empty());
        }
        while k < m
            invariant
                k <= m,
                m == pend.len(),
                pend == self@.pending,
                *self == *old(self),
                self.wf(),
                pk == self.pk_indices@,
                w == self.width,
                rows.wf(),
                keys_sorted(map_entries(rows.model(), row_view())),
                map_entries(rows.model(), row_view()) == overlay(stored, pend.subrange(0, k as int)),
                forall|q: int|
                    0 <= q < rows.model().len() ==> row_entry_ok(pk, w)(
                        #[trigger] map_entries(rows.model(), row_view())[q],
                    ),
            decreases m - k,
        {
            let key = clone_bytes(self.pending.key_at(k));
            proof {
                assert(pend.subrange(0, k + 1).drop_last() =~= pend.subrange(0, k as int));
                assert(pend.subrange(0, k + 1).last() == pend[k as int]);
                assert(pending_entry_ok(pk, w)(pend[k as int]));
                let cur = map_entries(rows.model(), row_view());
                lemma_map_entries_put_del(rows.model(), row_view(), key@, arbitrary());
                lemma_del_sorted(cur, key@);
                lemma_del_all(cur, key@, row_entry_ok(pk, w));
            }
            match self.pending.value_at(k) {
                Some(r) => {
                    let copy = r.clone();
                    proof {
                        let cur = map_entries(rows.model(), row_view());
                        lemma_map_entries_put_del(rows.model(), row_view(), key@, copy);
                        lemma_put_sorted(cur, key@, copy@);
                        lemma_put_all(cur, key@, copy@, row_entry_ok(pk, w));
                    }
                    rows.insert(key, copy);
                },
                None => {
                    rows.remove(&key);
                },
            }
            k += 1;
        }
        proof {
            assert(pend.subrange(0, m as int) == pend);
        }
        self.rows = rows;
        self.loaded = true;
        Ok(())
    }
}

/// Rows that cannot be put back from the beginning of a decoded scan cannot
/// be put back from the whole of it.
pub proof fn lemma_rows_from_prefix(
    prefix: Seq<u8>,
    pk_indices: Seq<usize>,
    decoded: Seq<(Seq<u8>, Seq<Datum>)>,
    i: int,
)
    requires
        0 <= i <= decoded.len(),
    ensures
        rows_from(prefix, pk_indices, decoded.subrange(0, i)).is_none() ==> rows_from(
            prefix,
            pk_indices,
            decoded,
        ).is_none(),
    decreases decoded.len() - i,
{
    if i < decoded.len() {
        lemma_rows_from_prefix(prefix, pk_indices, decoded, i + 1);
        assert(decoded.subrange(0, i + 1).drop_last() =~= decoded.subrange(0, i));
    } else {
        assert(decoded.subrange(0, i) == decoded);
    }
}

} // verus!
