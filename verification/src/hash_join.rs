//! The streaming hash join.

use vstd::prelude::*;
use crate::barrier_align::{
    align_step, initial_state, permits, AlignedMessage, AlignerState, BarrierAligner,
};
use crate::bytes::{append_bytes, bytes_equal, clone_bytes, is_prefix};
use crate::chunk::{fits, lemma_visible_rows_all, place, row_of, StreamChunk, StreamChunkBuilder};
use crate::codec::{encode_datums, serialize_row};
use crate::error::StreamError;
use crate::executor::{ExecutorInfo, Message, PkIndices};
use crate::managed_state::{
    empty_entry, entry_flushed, entry_insert, entry_ok, entry_remove, entry_restore, entry_view_fn,
    lemma_decoded_width, lemma_entry_insert_ok, lemma_entry_remove_ok, pk_bytes, row_entry_ok,
    EntryModel, ManagedJoinState,
};
use crate::recovery::{decode_cells, decode_groups, decoded_view};
use crate::sorted_map::{
    has_key, keys_sorted, lemma_del_all, lemma_del_sorted, lemma_lookup_at, lemma_map_entries,
    lemma_map_entries_put_del, lemma_put_all, lemma_put_sorted, lemma_rank_bounds, lookup,
    map_entries, put, rank, SortedMap,
};
use crate::storage::{cells_view, flush_ops, Keyspace, WriteBatch, WriteOp};
use crate::types::{
    has_null, indices_within, project, row_typed, DataType, Datum, Field, Op, Row, Schema,
};

verus! {

/// The kind of join.
#[derive(Clone, Copy, Debug, PartialEq, Eq, Structural)]
pub enum JoinType {
    Inner,
    LeftOuter,
    RightOuter,
    FullOuter,
}

/// One of the two inputs of the join.
#[derive(Clone, Copy, Debug, PartialEq, Eq, Structural)]
pub enum SideType {
    Left,
    Right,
}

/// Whether rows of `side_type` without a match are put out, padded with NULL.
pub open spec fn keeps_unmatched(join_type: JoinType, side_type: SideType) -> bool {
    join_type == JoinType::FullOuter || (join_type == JoinType::LeftOuter && side_type
        == SideType::Left) || (join_type == JoinType::RightOuter && side_type == SideType::Right)
}

/// Whether the first row of `side_type` under a key takes the place of the
/// NULL-padded rows that the other side has put out for that key.
pub open spec fn replaces_padded(join_type: JoinType, side_type: SideType) -> bool {
    join_type == JoinType::FullOuter || (join_type == JoinType::LeftOuter && side_type
        == SideType::Right) || (join_type == JoinType::RightOuter && side_type == SideType::Left)
}

pub fn outer_side_keep(join_type: JoinType, side_type: SideType) -> (r: bool)
    ensures
        r == keeps_unmatched(join_type, side_type),
{
    match (join_type, side_type) {
        (JoinType::FullOuter, _) => true,
        (JoinType::LeftOuter, SideType::Left) => true,
        (JoinType::RightOuter, SideType::Right) => true,
        _ => false,
    }
}

pub fn outer_side_null(join_type: JoinType, side_type: SideType) -> (r: bool)
    ensures
        r == replaces_padded(join_type, side_type),
{
    match (join_type, side_type) {
        (JoinType::FullOuter, _) => true,
        (JoinType::LeftOuter, SideType::Right) => true,
        (JoinType::RightOuter, SideType::Left) => true,
        _ => false,
    }
}

/// The columns on which one input is joined.
#[derive(Debug)]
pub struct JoinParams {
    /// Indices of the join columns.
    key_indices: Vec<usize>,
}

impl JoinParams {
    pub closed spec fn key_cols(&self) -> Seq<usize> {
        self.key_indices@
    }

    pub fn new(key_indices: Vec<usize>) -> (p: Self)
        ensures
            p.key_cols() == key_indices@,
    {
        JoinParams { key_indices }
    }
}

/// The state of one side: for each join key that the side has met, under the
/// encoding of the key, the entry of its rows.
pub type SideModel = Seq<(Seq<u8>, EntryModel)>;

pub open spec fn entry_view() -> spec_fn(ManagedJoinState) -> EntryModel {
    entry_view_fn()
}

/// The bytes under which the rows of a join key are kept: the encoding of the key.
pub open spec fn key_bytes(row: Seq<Datum>, key_indices: Seq<usize>) -> Seq<u8> {
    encode_datums(project(row, key_indices))
}

/// Every row of the entry has the join key that encodes to `key`.
pub open spec fn rows_under_key(e: EntryModel, key: Seq<u8>, key_indices: Seq<usize>) -> bool {
    forall|j: int| 0 <= j < e.rows.len() ==> key_bytes((#[trigger] e.rows[j]).1, key_indices) == key
}

/// What holds of each entry of a side: it is sound, it holds all its rows in
/// memory, and they all have its key.
pub open spec fn side_entry_ok(key_indices: Seq<usize>, pk_indices: Seq<usize>, width: nat) -> spec_fn(
    (Seq<u8>, EntryModel),
) -> bool {
    |x: (Seq<u8>, EntryModel)|
        entry_ok(x.1, pk_indices, width) && x.1.loaded && rows_under_key(x.1, x.0, key_indices)
}

/// A row is of the types of the columns of its side.
pub open spec fn typed_row(types: Seq<DataType>) -> spec_fn((Seq<u8>, Seq<Datum>)) -> bool {
    |x: (Seq<u8>, Seq<Datum>)| row_typed(x.1, types)
}

/// The rows of an entry are of the types of the columns of its side.
pub open spec fn typed_entry(types: Seq<DataType>) -> spec_fn((Seq<u8>, EntryModel)) -> bool {
    |x: (Seq<u8>, EntryModel)|
        forall|j: int| 0 <= j < x.1.rows.len() ==> typed_row(types)(#[trigger] x.1.rows[j])
}

/// Every row that the side holds is of the types of its columns.
pub open spec fn side_typed(m: SideModel, types: Seq<DataType>) -> bool {
    forall|i: int| 0 <= i < m.len() ==> typed_entry(types)(#[trigger] m[i])
}

/// What holds of the state of a side.
pub open spec fn side_ok(
    m: SideModel,
    key_indices: Seq<usize>,
    pk_indices: Seq<usize>,
    width: nat,
) -> bool {
    &&& keys_sorted(m)
    &&& forall|i: int|
        0 <= i < m.len() ==> side_entry_ok(key_indices, pk_indices, width)(#[trigger] m[i])
}

/// The entry under `key`, or the entry of a key that is met for the first time.
pub open spec fn entry_or_new(m: SideModel, key: Seq<u8>) -> EntryModel {
    match lookup(m, key) {
        Some(e) => e,
        None => empty_entry(),
    }
}

/// The side after `row` was inserted under `key`; the entry is made if the key is new.
pub open spec fn side_insert(
    m: SideModel,
    key: Seq<u8>,
    pk_indices: Seq<usize>,
    row: Seq<Datum>,
) -> SideModel {
    put(m, key, entry_insert(entry_or_new(m, key), pk_indices, row))
}

/// The side after the row with primary key `pk` was removed under `key`;
/// nothing changes if the side has not met the key.
pub open spec fn side_remove(m: SideModel, key: Seq<u8>, pk: Seq<u8>) -> SideModel {
    match lookup(m, key) {
        Some(e) => put(m, key, entry_remove(e, pk)),
        None => m,
    }
}

/// Whether removing `pk` under `key` takes the last row of the key away.
pub open spec fn removal_empties(m: SideModel, key: Seq<u8>, pk: Seq<u8>) -> bool {
    lookup(m, key) matches Some(e) && has_key(e.rows, pk) && e.rows.len() == 1
}

pub proof fn lemma_side_insert_ok(
    m: SideModel,
    key_indices: Seq<usize>,
    pk_indices: Seq<usize>,
    width: nat,
    row: Seq<Datum>,
)
    requires
        side_ok(m, key_indices, pk_indices, width),
        row.len() == width,
    ensures
        side_ok(
            side_insert(m, key_bytes(row, key_indices), pk_indices, row),
            key_indices,
            pk_indices,
            width,
        ),
{
    let key = key_bytes(row, key_indices);
    let e = entry_or_new(m, key);
    let e1 = entry_insert(e, pk_indices, row);
    lemma_rank_bounds(m, key);
    if has_key(m, key) {
        assert(side_entry_ok(key_indices, pk_indices, width)(m[rank(m, key)]));
    }
    lemma_entry_insert_ok(e, pk_indices, width, row);
    let same_key = |x: (Seq<u8>, Seq<Datum>)| key_bytes(x.1, key_indices) == key;
    assert forall|j: int| 0 <= j < e.rows.len() implies same_key(#[trigger] e.rows[j]) by {}
    lemma_put_all(e.rows, pk_bytes(row, pk_indices), row, same_key);
    assert(rows_under_key(e1, key, key_indices)) by {
        assert forall|j: int| 0 <= j < e1.rows.len() implies key_bytes(
            (#[trigger] e1.rows[j]).1,
            key_indices,
        ) == key by {
            assert(same_key(e1.rows[j]));
        }
    }
    lemma_put_sorted(m, key, e1);
    lemma_put_all(m, key, e1, side_entry_ok(key_indices, pk_indices, width));
}

pub proof fn lemma_side_remove_ok(
    m: SideModel,
    key_indices: Seq<usize>,
    pk_indices: Seq<usize>,
    width: nat,
    key: Seq<u8>,
    pk: Seq<u8>,
)
    requires
        side_ok(m, key_indices, pk_indices, width),
    ensures
        side_ok(side_remove(m, key, pk), key_indices, pk_indices, width),
{
    lemma_rank_bounds(m, key);
    if has_key(m, key) {
        let e = m[rank(m, key)].1;
        let e1 = entry_remove(e, pk);
        assert(side_entry_ok(key_indices, pk_indices, width)(m[rank(m, key)]));
        lemma_entry_remove_ok(e, pk_indices, width, pk);
        let same_key = |x: (Seq<u8>, Seq<Datum>)| key_bytes(x.1, key_indices) == key;
        assert forall|j: int| 0 <= j < e.rows.len() implies same_key(#[trigger] e.rows[j]) by {}
        lemma_del_all(e.rows, pk, same_key);
        assert(rows_under_key(e1, key, key_indices)) by {
            assert forall|j: int| 0 <= j < e1.rows.len() implies key_bytes(
                (#[trigger] e1.rows[j]).1,
                key_indices,
            ) == key by {
                assert(same_key(e1.rows[j]));
            }
        }
        lemma_put_sorted(m, key, e1);
        lemma_put_all(m, key, e1, side_entry_ok(key_indices, pk_indices, width));
    }
}

/// One input of the join: its rows by join key, and how keys are taken from rows.
pub struct JoinSide {
    /// The rows of the side, by encoded join key.
    ht: SortedMap<ManagedJoinState>,
    /// Indices of the join key columns.
    key_indices: Vec<usize>,
    /// The primary key indices of this side, used for the state store.
    pk_indices: Vec<usize>,
    /// The type of each column of the side.
    col_types: Vec<DataType>,
    /// The first of the side's columns among the output columns.
    start_pos: usize,
    /// The side keeps its rows in this keyspace.
    keyspace: Keyspace,
}

impl View for JoinSide {
    type V = SideModel;

    closed spec fn view(&self) -> SideModel {
        map_entries(self.ht.model(), entry_view())
    }
}

impl JoinSide {
    pub closed spec fn key_cols(&self) -> Seq<usize> {
        self.key_indices@
    }

    pub closed spec fn pk_cols(&self) -> Seq<usize> {
        self.pk_indices@
    }

    /// The number of columns of the side.
    pub closed spec fn width(&self) -> nat {
        self.col_types@.len()
    }

    pub closed spec fn start(&self) -> int {
        self.start_pos as int
    }

    pub closed spec fn prefix(&self) -> Seq<u8> {
        self.keyspace@
    }

    /// The types of the columns of the side.
    pub closed spec fn types(&self) -> Seq<DataType> {
        self.col_types@
    }

    /// An entry as the side keeps it: made for the side, under the side's
    /// prefix and its own key, its rows of the types of the side.
    pub closed spec fn holds(&self) -> spec_fn((Seq<u8>, ManagedJoinState)) -> bool {
        |x: (Seq<u8>, ManagedJoinState)|
            x.1.wf() && x.1.pk_cols() == self.pk_indices@ && x.1.width() == self.col_types@.len()
                && x.1.prefix() == self.keyspace@ + x.0 && side_entry_ok(
                self.key_indices@,
                self.pk_indices@,
                self.col_types@.len(),
            )((x.0, x.1@)) && typed_entry(self.col_types@)((x.0, x.1@))
    }

    pub closed spec fn wf(&self) -> bool {
        &&& self.ht.wf()
        &&& self.col_types@.len() <= u32::MAX
        &&& indices_within(self.key_indices@, self.col_types@.len())
        &&& indices_within(self.pk_indices@, self.col_types@.len())
        &&& forall|i: int|
            0 <= i < self.ht.model().len() ==> (self.holds())(#[trigger] self.ht.model()[i])
    }

    pub proof fn lemma_wf(&self)
        requires
            self.wf(),
        ensures
            side_ok(self@, self.key_cols(), self.pk_cols(), self.width()),
            side_typed(self@, self.types()),
            self.types().len() == self.width(),
            indices_within(self.key_cols(), self.width()),
            indices_within(self.pk_cols(), self.width()),
            self.width() <= u32::MAX,
    {
        lemma_map_entries(self.ht.model(), entry_view(), Seq::empty());
        self.ht.lemma_wf_sorted();
        assert forall|i: int| 0 <= i < self@.len() implies side_entry_ok(
            self.key_cols(),
            self.pk_cols(),
            self.width(),
        )(#[trigger] self@[i]) && typed_entry(self.types())(self@[i]) by {
            assert((self.holds())(self.ht.model()[i]));
        }
    }

    /// A side that has met no key.
    pub fn new(
        key_indices: Vec<usize>,
        pk_indices: Vec<usize>,
        col_types: Vec<DataType>,
        start_pos: usize,
        keyspace: Keyspace,
    ) -> (s: Self)
        requires
            col_types@.len() <= u32::MAX,
            indices_within(key_indices@, col_types@.len()),
            indices_within(pk_indices@, col_types@.len()),
        ensures
            s.wf(),
            s@ == Seq::<(Seq<u8>, EntryModel)>::empty(),
            s.key_cols() == key_indices@,
            s.pk_cols() == pk_indices@,
            s.width() == col_types@.len(),
            s.types() == col_types@,
            s.start() == start_pos,
            s.prefix() == keyspace@,
    {
        let s = JoinSide {
            ht: SortedMap::new(),
            key_indices,
            pk_indices,
            col_types,
            start_pos,
            keyspace,
        };
        assert(s@ =~= Seq::<(Seq<u8>, EntryModel)>::empty());
        s
    }

    /// The entry of the join key that encodes to `key`, if the side has met the key.
    pub fn get(&self, key: &Vec<u8>) -> (r: Option<&ManagedJoinState>)
        requires
            self.wf(),
        ensures
            match r {
                Some(e) => lookup(self@, key@) == Some(e@) && e.wf() && e@.loaded && e.width()
                    == self.width(),
                None => lookup(self@, key@).is_none(),
            },
    {
        proof {
            lemma_map_entries(self.ht.model(), entry_view(), key@);
            lemma_rank_bounds(self.ht.model(), key@);
        }
        let r = self.ht.get(key);
        proof {
            if r.is_some() {
                assert((self.holds())(self.ht.model()[rank(self.ht.model(), key@)]));
            }
        }
        r
    }

    fn copy_indices(indices: &Vec<usize>) -> (r: Vec<usize>)
        ensures
            r@ == indices@,
    {
        let mut out: Vec<usize> = Vec::new();
        let mut i: usize = 0;
        while i < indices.len()
            invariant
                i <= indices.len(),
                out@ == indices@.subrange(0, i as int),
            decreases indices.len() - i,
        {
            out.push(indices[i]);
            assert(out@ == indices@.subrange(0, i + 1));
            i += 1;
        }
        assert(indices@.subrange(0, indices@.len() as int) == indices@);
        out
    }

    /// Inserts `row` under its join key, whose encoding is `key`, and says
    /// whether the side met the key for the first time.
    fn insert_row(&mut self, key: Vec<u8>, row: Row) -> (newly: bool)
        requires
            old(self).wf(),
            row_typed(row@, old(self).types()),
            key@ == key_bytes(row@, old(self).key_cols()),
        ensures
            final(self).wf(),
            final(self)@ == side_insert(old(self)@, key@, old(self).pk_cols(), row@),
            newly == !has_key(old(self)@, key@),
            final(self).same_config(old(self)),
    {
        let ghost m0 = self.ht.model();
        let ghost holds = self.holds();
        let ghost types = self.types();
        proof {
            self.lemma_wf();
            lemma_map_entries(m0, entry_view(), key@);
            lemma_rank_bounds(m0, key@);
            if has_key(self@, key@) {
                assert(typed_entry(types)(self@[rank(self@, key@)]));
            }
            lemma_entry_put_typed(entry_or_new(self@, key@), types, row@, self.pk_cols());
            lemma_map_entries(m0, entry_view(), key@);
            lemma_rank_bounds(m0, key@);
            lemma_side_insert_ok(self@, self.key_cols(), self.pk_cols(), self.width(), row@);
        }
        let (i, found) = self.ht.find(&key);
        if found {
            let mut e = ManagedJoinState::new(Keyspace::new(Vec::new()), Vec::new(), 0);
            self.ht.swap_value_at(i, &mut e);
            proof {
                assert(holds(m0[i as int]));
            }
            e.insert(row);
            let ghost e1 = e;
            self.ht.swap_value_at(i, &mut e);
            proof {
                assert(self.ht.model() =~= put(m0, key@, e1));
                lemma_map_entries_put_del(m0, entry_view(), key@, e1);
                let side1 = side_insert(old(self)@, key@, old(self).pk_cols(), row@);
                lemma_lookup_at(side1, i as int);
                assert(side_entry_ok(self.key_cols(), self.pk_cols(), self.width())(side1[i as int]));
                assert(holds((key@, e1)));
                lemma_put_all(m0, key@, e1, holds);
            }
            false
        } else {
            let ks = self.keyspace.with_segment(&key);
            let mut e = ManagedJoinState::new(
                ks,
                Self::copy_indices(&self.pk_indices),
                self.col_types.len(),
            );
            e.insert(row);
            proof {
                lemma_map_entries_put_del(m0, entry_view(), key@, e);
                let side1 = side_insert(old(self)@, key@, old(self).pk_cols(), row@);
                lemma_put_sorted(old(self)@, key@, e@);
                assert(side_entry_ok(self.key_cols(), self.pk_cols(), self.width())(
                    side1[rank(old(self)@, key@)],
                ));
                assert(holds((key@, e)));
                lemma_put_all(m0, key@, e, holds);
            }
            self.ht.insert(key, e);
            true
        }
    }

    /// Removes the row with the primary key `pk` under the join key that
    /// encodes to `key`, and says whether that took the last row of the key away.
    fn remove_row(&mut self, key: &Vec<u8>, pk: &Row) -> (emptied: bool)
        requires
            old(self).wf(),
        ensures
            final(self).wf(),
            final(self)@ == side_remove(old(self)@, key@, encode_datums(pk@)),
            emptied == removal_empties(old(self)@, key@, encode_datums(pk@)),
            final(self).same_config(old(self)),
    {
        let ghost m0 = self.ht.model();
        let ghost holds = self.holds();
        let ghost pkb = encode_datums(pk@);
        proof {
            self.lemma_wf();
            lemma_map_entries(m0, entry_view(), key@);
            lemma_rank_bounds(m0, key@);
            lemma_side_remove_ok(
                self@,
                self.key_cols(),
                self.pk_cols(),
                self.width(),
                key@,
                pkb,
            );
        }
        let (i, found) = self.ht.find(key);
        if found {
            let mut e = ManagedJoinState::new(Keyspace::new(Vec::new()), Vec::new(), 0);
            self.ht.swap_value_at(i, &mut e);
            proof {
                assert(holds(m0[i as int]));
            }
            let ghost e0 = e;
            proof {
                lemma_del_all(e0@.rows, pkb, typed_row(self.types()));
            }
            let was_there = e.remove(pk);
            let emptied = was_there && e.is_empty();
            let ghost e1 = e;
            self.ht.swap_value_at(i, &mut e);
            proof {
                assert(self.ht.model() =~= put(m0, key@, e1));
                lemma_map_entries_put_del(m0, entry_view(), key@, e1);
                let side1 = side_remove(old(self)@, key@, pkb);
                lemma_lookup_at(side1, i as int);
                assert(side_entry_ok(self.key_cols(), self.pk_cols(), self.width())(side1[i as int]));
                assert(holds((key@, e1)));
                lemma_put_all(m0, key@, e1, holds);
                e0.lemma_wf();
                lemma_del_sorted(e0@.rows, pkb);
            }
            emptied
        } else {
            false
        }
    }
}

/// The rows of an entry, by increasing primary key.
pub open spec fn entry_rows(e: EntryModel) -> Seq<Seq<Datum>> {
    Seq::new(e.rows.len(), |j: int| e.rows[j].1)
}

/// The rows of the other side that a row with the join key `key` matches.
/// A key with a NULL in it matches nothing.
pub open spec fn matched_rows(m: SideModel, key: Seq<Datum>) -> Seq<Seq<Datum>> {
    if has_null(key) {
        Seq::empty()
    } else {
        match lookup(m, encode_datums(key)) {
            Some(e) => entry_rows(e),
            None => Seq::empty(),
        }
    }
}

/// What stays the same while one side consumes a chunk.
pub struct StepParams {
    pub join_type: JoinType,
    /// The side that the chunk came from.
    pub side: SideType,
    /// The join key columns of that side.
    pub key_cols: Seq<usize>,
    /// The primary key columns of that side.
    pub pk_cols: Seq<usize>,
    /// The number of output columns.
    pub total: nat,
    /// The output column at which the columns of that side start.
    pub update_start: int,
    /// The output column at which the columns of the other side start.
    pub matched_start: int,
}

/// The ordinary output of a change: the change of `u` joined with each
/// matched row.
pub open spec fn echo(p: StepParams, op: Op, u: Seq<Datum>, matched: Seq<Seq<Datum>>) -> Seq<
    (Op, Seq<Datum>),
> {
    Seq::new(
        matched.len(),
        |i: int| (op, place(p.total, p.update_start, u, p.matched_start, matched[i])),
    )
}

/// The output of the first row under a key where the other side was put out
/// padded: for each matched row, the padded row is deleted and the joined row
/// takes its place.
pub open spec fn swap_in(p: StepParams, u: Seq<Datum>, matched: Seq<Seq<Datum>>) -> Seq<
    (Op, Seq<Datum>),
> {
    Seq::new(
        2 * matched.len(),
        |i: int|
            if i % 2 == 0 {
                (
                    Op::UpdateDelete,
                    place(p.total, p.update_start, Seq::empty(), p.matched_start, matched[i / 2]),
                )
            } else {
                (Op::UpdateInsert, place(p.total, p.update_start, u, p.matched_start, matched[i / 2]))
            },
    )
}

/// The output of the removal of the last row under a key where the other
/// side has to be put out padded again: for each matched row, the joined row
/// is deleted and the padded row takes its place.
pub open spec fn swap_out(p: StepParams, u: Seq<Datum>, matched: Seq<Seq<Datum>>) -> Seq<
    (Op, Seq<Datum>),
> {
    Seq::new(
        2 * matched.len(),
        |i: int|
            if i % 2 == 0 {
                (Op::UpdateDelete, place(p.total, p.update_start, u, p.matched_start, matched[i / 2]))
            } else {
                (
                    Op::UpdateInsert,
                    place(p.total, p.update_start, Seq::empty(), p.matched_start, matched[i / 2]),
                )
            },
    )
}

/// The state of the updating side after one change.
pub open spec fn step_state(p: StepParams, u: SideModel, op: Op, row: Seq<Datum>) -> SideModel {
    if op.adds() {
        side_insert(u, key_bytes(row, p.key_cols), p.pk_cols, row)
    } else {
        side_remove(u, key_bytes(row, p.key_cols), pk_bytes(row, p.pk_cols))
    }
}

/// Whether a change, which has matches, has the padded rows of the other
/// side replaced or restored: the side is one that replaces them, and the
/// change is the insert that makes the side meet the key, or the removal of
/// the last row of the key.
pub open spec fn swaps_padded(p: StepParams, u: SideModel, op: Op, row: Seq<Datum>) -> bool {
    replaces_padded(p.join_type, p.side) && if op.adds() {
        !has_key(u, key_bytes(row, p.key_cols))
    } else {
        removal_empties(u, key_bytes(row, p.key_cols), pk_bytes(row, p.pk_cols))
    }
}

/// The output of one change `(op, row)` of the updating side, whose state is
/// `u`, against the state `m` of the other side.
pub open spec fn step_output(p: StepParams, u: SideModel, m: SideModel, op: Op, row: Seq<Datum>) -> Seq<
    (Op, Seq<Datum>),
> {
    let matched = matched_rows(m, project(row, p.key_cols));
    if matched.len() > 0 {
        if swaps_padded(p, u, op, row) {
            if op.adds() {
                swap_in(p, row, matched)
            } else {
                swap_out(p, row, matched)
            }
        } else {
            echo(p, op, row, matched)
        }
    } else if keeps_unmatched(p.join_type, p.side) {
        seq![(op, place(p.total, p.update_start, row, p.matched_start, Seq::empty()))]
    } else {
        Seq::empty()
    }
}

/// The state of the updating side and the output after the changes `rows`, in order.
pub open spec fn step_rows(p: StepParams, u: SideModel, m: SideModel, rows: Seq<(Op, Seq<Datum>)>) -> (
    SideModel,
    Seq<(Op, Seq<Datum>)>,
)
    decreases rows.len(),
{
    if rows.len() == 0 {
        (u, Seq::empty())
    } else {
        let (u1, out1) = step_rows(p, u, m, rows.drop_last());
        (
            step_state(p, u1, rows.last().0, rows.last().1),
            out1 + step_output(p, u1, m, rows.last().0, rows.last().1),
        )
    }
}

/// Appends the ordinary output for `row` and each row of `entry`.
fn emit_echo(
    builder: &mut StreamChunkBuilder,
    Ghost(p): Ghost<StepParams>,
    op: Op,
    row: &Row,
    entry: &ManagedJoinState,
)
    requires
        old(builder).wf(),
        entry.wf(),
        p.total == old(builder).width(),
        p.update_start == old(builder).update_start(),
        p.matched_start == old(builder).matched_start(),
        fits(p.total, p.update_start, row@.len(), p.matched_start, entry.width()),
    ensures
        final(builder).wf(),
        final(builder).width() == old(builder).width(),
        final(builder).update_start() == old(builder).update_start(),
        final(builder).matched_start() == old(builder).matched_start(),
        final(builder).rows() == old(builder).rows() + echo(p, op, row@, entry_rows(entry@)),
{
    let ghost want = echo(p, op, row@, entry_rows(entry@));
    let n = entry.len();
    let mut j: usize = 0;
    proof {
        entry.lemma_wf();
    }
    while j < n
        invariant
            j <= n,
            n == entry@.rows.len(),
            entry.wf(),
            builder.wf(),
            builder.width() == old(builder).width(),
            builder.update_start() == old(builder).update_start(),
            builder.matched_start() == old(builder).matched_start(),
            p.total == builder.width(),
            p.update_start == builder.update_start(),
            p.matched_start == builder.matched_start(),
            fits(p.total, p.update_start, row@.len(), p.matched_start, entry.width()),
            entry_ok(entry@, entry.pk_cols(), entry.width()),
            want == echo(p, op, row@, entry_rows(entry@)),
            builder.rows() == old(builder).rows() + want.subrange(0, j as int),
        decreases n - j,
    {
        let m = entry.row_at(j);
        proof {
            assert(row_entry_ok(entry.pk_cols(), entry.width())(
                entry@.rows[j as int],
            ));
        }
        let r = builder.append_row(op, row, m);
        assert(r.is_ok());
        assert(builder.rows() =~= old(builder).rows() + want.subrange(0, j + 1));
        j += 1;
    }
    assert(want.subrange(0, n as int) == want);
}

/// Appends, for each row of `entry`, the deletion of one row and the
/// insertion of another in its place: of the padded row and the joined row
/// where `joined_first` is false, the other way round where it is true.
fn emit_swap(
    builder: &mut StreamChunkBuilder,
    Ghost(p): Ghost<StepParams>,
    joined_first: bool,
    row: &Row,
    entry: &ManagedJoinState,
)
    requires
        old(builder).wf(),
        entry.wf(),
        p.total == old(builder).width(),
        p.update_start == old(builder).update_start(),
        p.matched_start == old(builder).matched_start(),
        fits(p.total, p.update_start, row@.len(), p.matched_start, entry.width()),
    ensures
        final(builder).wf(),
        final(builder).width() == old(builder).width(),
        final(builder).update_start() == old(builder).update_start(),
        final(builder).matched_start() == old(builder).matched_start(),
        final(builder).rows() == old(builder).rows() + if joined_first {
            swap_out(p, row@, entry_rows(entry@))
        } else {
            swap_in(p, row@, entry_rows(entry@))
        },
{
    let ghost want = if joined_first {
        swap_out(p, row@, entry_rows(entry@))
    } else {
        swap_in(p, row@, entry_rows(entry@))
    };
    let n = entry.len();
    let mut j: usize = 0;
    proof {
        entry.lemma_wf();
    }
    while j < n
        invariant
            j <= n,
            n == entry@.rows.len(),
            entry.wf(),
            builder.wf(),
            builder.width() == old(builder).width(),
            builder.update_start() == old(builder).update_start(),
            builder.matched_start() == old(builder).matched_start(),
            p.total == builder.width(),
            p.update_start == builder.update_start(),
            p.matched_start == builder.matched_start(),
            fits(p.total, p.update_start, row@.len(), p.matched_start, entry.width()),
            entry_ok(entry@, entry.pk_cols(), entry.width()),
            want == if joined_first {
                swap_out(p, row@, entry_rows(entry@))
            } else {
                swap_in(p, row@, entry_rows(entry@))
            },
            builder.rows() == old(builder).rows() + want.subrange(0, 2 * j),
        decreases n - j,
    {
        let m = entry.row_at(j);
        proof {
            assert(row_entry_ok(entry.pk_cols(), entry.width())(
                entry@.rows[j as int],
            ));
        }
        if joined_first {
            let r1 = builder.append_row(Op::UpdateDelete, row, m);
            assert(r1.is_ok());
            let r2 = builder.append_row_matched(Op::UpdateInsert, m);
            assert(r2.is_ok());
        } else {
            let r1 = builder.append_row_matched(Op::UpdateDelete, m);
            assert(r1.is_ok());
            let r2 = builder.append_row(Op::UpdateInsert, row, m);
            assert(r2.is_ok());
        }
        proof {
            let k = 2 * j as int;
            assert(k % 2 == 0 && k / 2 == j && (k + 1) % 2 == 1 && (k + 1) / 2 == j);
            assert(builder.rows() =~= old(builder).rows() + want.subrange(0, 2 * (j + 1)));
        }
        j += 1;
    }
    assert(want.subrange(0, 2 * n) == want);
}

/// Applies one change of side `side`: updates the state of that side and
/// appends the output of the change.
fn join_row(
    join_type: JoinType,
    side: SideType,
    side_update: &mut JoinSide,
    side_match: &JoinSide,
    builder: &mut StreamChunkBuilder,
    op: Op,
    row: Row,
) -> (p: Ghost<StepParams>)
    requires
        old(side_update).wf(),
        side_match.wf(),
        old(builder).wf(),
        row_typed(row@, old(side_update).types()),
        old(builder).width() == old(side_update).width() + side_match.width(),
        old(builder).update_start() == old(side_update).start(),
        old(builder).matched_start() == side_match.start(),
        fits(
            old(builder).width(),
            old(side_update).start(),
            old(side_update).width(),
            side_match.start(),
            side_match.width(),
        ),
    ensures
        p@ == params_of(join_type, side, *old(side_update), *side_match),
        final(side_update).wf(),
        final(side_update).same_config(old(side_update)),
        final(builder).wf(),
        final(builder).width() == old(builder).width(),
        final(builder).update_start() == old(builder).update_start(),
        final(builder).matched_start() == old(builder).matched_start(),
        final(side_update)@ == step_state(p@, old(side_update)@, op, row@),
        final(builder).rows() == old(builder).rows() + step_output(
            p@,
            old(side_update)@,
            side_match@,
            op,
            row@,
        ),
{
    let ghost p = params_of(join_type, side, *side_update, *side_match);
    let ghost u0 = side_update@;
    let ghost rows0 = builder.rows();
    proof {
        side_update.lemma_wf();
    }
    let key_row = row.project(&side_update.key_indices);
    let key = serialize_row(&key_row);
    let matched: Option<&ManagedJoinState> = if key_row.contains_null() {
        None
    } else {
        side_match.get(&key)
    };
    let has_match = match matched {
        Some(e) => e.len() > 0,
        None => false,
    };
    let adds = op.is_insert();
    let swap = if adds {
        let newly = side_update.insert_row(key, row.clone());
        newly && outer_side_null(join_type, side)
    } else {
        let pk = row.project(&side_update.pk_indices);
        let emptied = side_update.remove_row(&key, &pk);
        emptied && outer_side_null(join_type, side)
    };
    assert(swap == swaps_padded(p, u0, op, row@));
    assert(side_update@ == step_state(p, u0, op, row@));
    match matched {
        Some(e) => {
            if has_match {
                if swap {
                    emit_swap(builder, Ghost(p), !adds, &row, e);
                } else {
                    emit_echo(builder, Ghost(p), op, &row, e);
                }
            } else if outer_side_keep(join_type, side) {
                let r = builder.append_row_update(op, &row);
                assert(r.is_ok());
                assert(builder.rows() =~= rows0 + step_output(p, u0, side_match@, op, row@));
            } else {
                assert(builder.rows() =~= rows0 + step_output(p, u0, side_match@, op, row@));
            }
        },
        None => {
            if outer_side_keep(join_type, side) {
                let r = builder.append_row_update(op, &row);
                assert(r.is_ok());
                assert(builder.rows() =~= rows0 + step_output(p, u0, side_match@, op, row@));
            } else {
                assert(builder.rows() =~= rows0 + step_output(p, u0, side_match@, op, row@));
            }
        },
    }
    Ghost(p)
}

/// Every change is a change of a row of the types.
pub open spec fn rows_typed(rows: Seq<(Op, Seq<Datum>)>, types: Seq<DataType>) -> bool {
    forall|i: int| 0 <= i < rows.len() ==> row_typed((#[trigger] rows[i]).1, types)
}

/// Whether every row of a chunk without hidden rows is of the types.
fn chunk_conforms(chunk: &StreamChunk, types: &Vec<DataType>) -> (r: bool)
    requires
        chunk.valid(),
        chunk.visibility.is_none(),
    ensures
        r == rows_typed(chunk.rows(), types@),
{
    let n = chunk.capacity();
    proof {
        lemma_visible_rows_all(chunk.ops@, chunk.cols(), n as int);
    }
    let mut i: usize = 0;
    while i < n
        invariant
            i <= n,
            n == chunk.ops@.len(),
            chunk.valid(),
            chunk.rows() == Seq::new(n as nat, |k: int| (chunk.ops@[k], row_of(chunk.cols(), k))),
            forall|k: int| 0 <= k < i ==> row_typed((#[trigger] chunk.rows()[k]).1, types@),
        decreases n - i,
    {
        let row = chunk.row_at(i);
        if !row.conforms(types) {
            assert(!row_typed(chunk.rows()[i as int].1, types@));
            return false;
        }
        i += 1;
    }
    true
}

/// The parameters of a step in which `side_update` takes a chunk and
/// `side_match` is matched against.
pub open spec fn params_of(
    join_type: JoinType,
    side: SideType,
    side_update: JoinSide,
    side_match: JoinSide,
) -> StepParams {
    StepParams {
        join_type,
        side,
        key_cols: side_update.key_cols(),
        pk_cols: side_update.pk_cols(),
        total: side_update.width() + side_match.width(),
        update_start: side_update.start(),
        matched_start: side_match.start(),
    }
}

/// Applies the changes of a chunk without hidden rows to `side_update`, and
/// returns the chunk of their output.
fn join_chunk(
    join_type: JoinType,
    side: SideType,
    side_update: &mut JoinSide,
    side_match: &JoinSide,
    data_types: &Vec<DataType>,
    chunk: &StreamChunk,
) -> (out: StreamChunk)
    requires
        old(side_update).wf(),
        side_match.wf(),
        chunk.valid(),
        chunk.visibility.is_none(),
        rows_typed(chunk.rows(), old(side_update).types()),
        data_types@.len() == old(side_update).width() + side_match.width(),
        fits(
            data_types@.len(),
            old(side_update).start(),
            old(side_update).width(),
            side_match.start(),
            side_match.width(),
        ),
    ensures
        final(side_update).wf(),
        final(side_update).same_config(old(side_update)),
        out.valid(),
        out.visibility.is_none(),
        out.columns@.len() == data_types@.len(),
        (final(side_update)@, out.rows()) == step_rows(
            params_of(join_type, side, *old(side_update), *side_match),
            old(side_update)@,
            side_match@,
            chunk.rows(),
        ),
{
    let ghost p = params_of(join_type, side, *side_update, *side_match);
    let ghost u0 = side_update@;
    let ghost rows = chunk.rows();
    let n = chunk.capacity();
    proof {
        lemma_visible_rows_all(chunk.ops@, chunk.cols(), n as int);
    }
    let mut builder = StreamChunkBuilder::new(
        n,
        data_types,
        side_update.start_pos,
        side_match.start_pos,
    );
    let mut i: usize = 0;
    while i < n
        invariant
            i <= n,
            n == chunk.ops@.len(),
            chunk.valid(),
            rows == chunk.rows(),
            rows == Seq::new(n as nat, |k: int| (chunk.ops@[k], row_of(chunk.cols(), k))),
            rows_typed(rows, side_update.types()),
            side_update.wf(),
            side_match.wf(),
            side_update.same_config(old(side_update)),
            p == params_of(join_type, side, *side_update, *side_match),
            builder.wf(),
            builder.width() == data_types@.len(),
            builder.width() == side_update.width() + side_match.width(),
            builder.update_start() == side_update.start(),
            builder.matched_start() == side_match.start(),
            fits(
                builder.width(),
                side_update.start(),
                side_update.width(),
                side_match.start(),
                side_match.width(),
            ),
            (side_update@, builder.rows()) == step_rows(p, u0, side_match@, rows.subrange(0, i as int)),
        decreases n - i,
    {
        let row = chunk.row_at(i);
        let op = chunk.ops[i];
        proof {
            assert(rows.subrange(0, i + 1).drop_last() =~= rows.subrange(0, i as int));
            assert(rows.subrange(0, i + 1).last() == (op, row@));
            assert(row_typed(rows[i as int].1, side_update.types()));
        }
        let _ = join_row(join_type, side, side_update, side_match, &mut builder, op, row);
        i += 1;
    }
    assert(rows.subrange(0, n as int) == rows);
    builder.finish()
}

/// The writes of a flush of a side: those of its entries, by increasing key.
pub open spec fn side_flush_ops(prefix: Seq<u8>, m: SideModel, width: nat) -> Seq<WriteOp>
    decreases m.len(),
{
    if m.len() == 0 {
        Seq::empty()
    } else {
        side_flush_ops(prefix, m.drop_last(), width) + flush_ops(
            prefix + m.last().0,
            m.last().1.pending,
            width,
        )
    }
}

pub open spec fn flushed_fn() -> spec_fn(EntryModel) -> EntryModel {
    |e: EntryModel| entry_flushed(e)
}

/// The side after a flush: every entry is flushed.
pub open spec fn side_flushed(m: SideModel) -> SideModel {
    map_entries(m, flushed_fn())
}

impl JoinSide {
    /// Writes the pending mutations of every entry into one batch and forgets them.
    pub fn flush(&mut self) -> (batch: WriteBatch)
        requires
            old(self).wf(),
        ensures
            final(self).wf(),
            final(self)@ == side_flushed(old(self)@),
            batch@ == side_flush_ops(old(self).prefix(), old(self)@, old(self).width()),
            final(self).same_config(old(self)),
    {
        let ghost m0 = self.ht.model();
        let ghost v0 = self@;
        let ghost holds = self.holds();
        let ghost pre = self.prefix();
        let ghost w = self.width();
        let mut batch = WriteBatch::new();
        let n = self.ht.len();
        let mut spare = ManagedJoinState::new(Keyspace::new(Vec::new()), Vec::new(), 0);
        let mut i: usize = 0;
        while i < n
            invariant
                i <= n,
                n == m0.len(),
                v0 == map_entries(m0, entry_view()),
                self.ht.wf(),
                self.ht.model().len() == n,
                holds == self.holds(),
                pre == self.prefix(),
                w == self.width(),
                self.same_config(old(self)),
                self.col_types@.len() <= u32::MAX,
                indices_within(self.key_indices@, self.col_types@.len()),
                indices_within(self.pk_indices@, self.col_types@.len()),
                forall|k: int| 0 <= k < n ==> holds(#[trigger] self.ht.model()[k]),
                forall|k: int| 0 <= k < n ==> (#[trigger] self.ht.model()[k]).0 == m0[k].0,
                forall|k: int|
                    0 <= k < i ==> (#[trigger] self.ht.model()[k]).1@ == entry_flushed(m0[k].1@),
                forall|k: int| i <= k < n ==> (#[trigger] self.ht.model()[k]) == m0[k],
                batch@ == side_flush_ops(pre, v0.subrange(0, i as int), w),
            decreases n - i,
        {
            let ghost m1 = self.ht.model();
            assert(holds(m1[i as int]));
            self.ht.swap_value_at(i, &mut spare);
            spare.flush(&mut batch);
            let ghost e1 = spare;
            self.ht.swap_value_at(i, &mut spare);
            proof {
                let m2 = self.ht.model();
                assert(m2 =~= m1.update(i as int, (m1[i as int].0, e1)));
                assert(holds((m1[i as int].0, e1)));
                assert forall|k: int| 0 <= k < n implies holds(#[trigger] m2[k]) by {
                    if k != i {
                        assert(m2[k] == m1[k]);
                    }
                }
                assert(v0.subrange(0, i + 1).drop_last() =~= v0.subrange(0, i as int));
                assert(v0.subrange(0, i + 1).last() == (m0[i as int].0, m0[i as int].1@));
            }
            i += 1;
        }
        proof {
            assert(v0.subrange(0, n as int) == v0);
            assert(self@ =~= side_flushed(v0));
        }
        batch
    }
}

/// Whether every index names one of `width` columns.
fn all_within(indices: &Vec<usize>, width: usize) -> (r: bool)
    ensures
        r == indices_within(indices@, width as nat),
{
    let mut i: usize = 0;
    while i < indices.len()
        invariant
            i <= indices.len(),
            forall|j: int| 0 <= j < i ==> #[trigger] indices@[j] < width,
        decreases indices.len() - i,
    {
        if indices[i] >= width {
            return false;
        }
        i += 1;
    }
    true
}

/// The types of the fields of a schema.
pub open spec fn types_in(fields: Seq<Field>) -> Seq<DataType> {
    Seq::new(fields.len(), |i: int| fields[i].data_type)
}

/// The types of the fields of a schema.
fn types_of(schema: &Schema) -> (r: Vec<DataType>)
    ensures
        r@ == types_in(schema@),
{
    let mut out: Vec<DataType> = Vec::new();
    let mut i: usize = 0;
    while i < schema.fields.len()
        invariant
            i <= schema.fields.len(),
            out@.len() == i,
            forall|j: int| 0 <= j < i ==> #[trigger] out@[j] == schema@[j].data_type,
        decreases schema.fields.len() - i,
    {
        out.push(schema.fields[i].data_type);
        i += 1;
    }
    assert(out@ =~= types_in(schema@));
    out
}

/// What the join hands on for one message: the message, and the batches that
/// the store has to take before the message goes on.
#[derive(Debug)]
pub struct JoinOutput {
    pub message: Message,
    /// Empty for a chunk. For a barrier the batch of the left side and that of
    /// the right side, in this order.
    pub writes: Vec<WriteBatch>,
}

/// `HashJoinExecutor` takes two input streams and runs an equal hash join on
/// them. The output columns are the left columns followed by the right columns.
pub struct HashJoinExecutor {
    /// Combines the two inputs and aligns their barriers.
    aligner: BarrierAligner,
    join_type: JoinType,
    /// The data types of the output columns.
    new_column_datatypes: Vec<DataType>,
    /// The schema of the output.
    schema: Schema,
    /// The primary key indices of the output.
    pk_indices: PkIndices,
    /// The left side.
    side_l: JoinSide,
    /// The right side.
    side_r: JoinSide,
}

impl HashJoinExecutor {
    pub closed spec fn kind(&self) -> JoinType {
        self.join_type
    }

    /// The state of the left side.
    pub closed spec fn left(&self) -> JoinSide {
        self.side_l
    }

    /// The state of the right side.
    pub closed spec fn right(&self) -> JoinSide {
        self.side_r
    }

    pub closed spec fn aligner(&self) -> AlignerState {
        self.aligner@
    }

    pub closed spec fn output_schema(&self) -> Seq<Field> {
        self.schema@
    }

    pub closed spec fn output_pk(&self) -> Seq<usize> {
        self.pk_indices@
    }

    /// The sides are sound, and the left columns are followed by the right
    /// columns in the output.
    pub closed spec fn wf(&self) -> bool {
        &&& self.side_l.wf()
        &&& self.side_r.wf()
        &&& self.side_l.start() == 0
        &&& self.side_r.start() == self.side_l.width()
        &&& self.new_column_datatypes@.len() == self.side_l.width() + self.side_r.width()
        &&& self.schema@.len() == self.side_l.width() + self.side_r.width()
        &&& types_in(self.schema@) == self.side_l.types() + self.side_r.types()
        &&& exists|base: Seq<u8>|
            self.side_l.prefix() == #[trigger] (base + seq![0x6cu8]) && self.side_r.prefix() == base
                + seq![0x72u8]
    }

    pub proof fn lemma_wf(&self)
        requires
            self.wf(),
        ensures
            self.left().wf(),
            self.right().wf(),
            self.left().start() == 0,
            self.right().start() == self.left().width(),
            self.output_schema().len() == self.left().width() + self.right().width(),
            types_in(self.output_schema()) == self.left().types() + self.right().types(),
            forall|k: Seq<u8>|
                !(#[trigger] is_prefix(self.left().prefix(), k) && is_prefix(
                    self.right().prefix(),
                    k,
                )),
    {
        let base = choose|base: Seq<u8>|
            self.side_l.prefix() == #[trigger] (base + seq![0x6cu8]) && self.side_r.prefix() == base
                + seq![0x72u8];
        let n = base.len() as int;
        assert forall|k: Seq<u8>|
            !(#[trigger] is_prefix(self.left().prefix(), k) && is_prefix(
                self.right().prefix(),
                k,
            )) by {
            if is_prefix(self.left().prefix(), k) && is_prefix(self.right().prefix(), k) {
                assert(k.subrange(0, n + 1)[n] == (base + seq![0x6cu8])[n]);
                assert(k.subrange(0, n + 1)[n] == (base + seq![0x72u8])[n]);
            }
        }
    }

    /// A join of the two inputs that `input_l` and `input_r` describe, on the
    /// columns of `params_l` and `params_r`. The state of the left side is kept
    /// under the segment `l` of `keyspace`, that of the right side under `r`.
    /// Refused where a key column or a primary key column is no column of its
    /// input, or an input has more columns than a cell index can count.
    pub fn new(
        join_type: JoinType,
        input_l: ExecutorInfo,
        input_r: ExecutorInfo,
        params_l: JoinParams,
        params_r: JoinParams,
        pk_indices: PkIndices,
        keyspace: Keyspace,
    ) -> (r: Result<Self, StreamError>)
        ensures
            r.is_ok() == plan_ok(
                input_l.schema@.len(),
                input_l.pk_indices@,
                params_l.key_cols(),
                input_r.schema@.len(),
                input_r.pk_indices@,
                params_r.key_cols(),
            ),
            r matches Err(e) ==> e == StreamError::InvalidPlan,
            r matches Ok(j) ==> {
                &&& j.wf()
                &&& j.kind() == join_type
                &&& j.aligner() == initial_state()
                &&& j.output_schema() == input_l.schema@ + input_r.schema@
                &&& j.output_pk() == pk_indices@
                &&& j.left()@ == Seq::<(Seq<u8>, EntryModel)>::empty()
                &&& j.right()@ == Seq::<(Seq<u8>, EntryModel)>::empty()
                &&& j.left().key_cols() == params_l.key_cols()
                &&& j.right().key_cols() == params_r.key_cols()
                &&& j.left().pk_cols() == input_l.pk_indices@
                &&& j.right().pk_cols() == input_r.pk_indices@
                &&& j.left().width() == input_l.schema@.len()
                &&& j.right().width() == input_r.schema@.len()
                &&& j.left().types() == types_in(input_l.schema@)
                &&& j.right().types() == types_in(input_r.schema@)
                &&& j.left().prefix() == keyspace@ + seq![0x6cu8]
                &&& j.right().prefix() == keyspace@ + seq![0x72u8]
            },
    {
        let wl = input_l.schema.len();
        let wr = input_r.schema.len();
        if wl > u32::MAX as usize || wr > u32::MAX as usize || wl > usize::MAX - wr {
            return Err(StreamError::InvalidPlan);
        }
        if !all_within(&params_l.key_indices, wl) || !all_within(&input_l.pk_indices, wl)
            || !all_within(&params_r.key_indices, wr) || !all_within(&input_r.pk_indices, wr) {
            return Err(StreamError::InvalidPlan);
        }
        let col_l = types_of(&input_l.schema);
        let col_r = types_of(&input_r.schema);
        let mut schema_fields: Vec<Field> = Vec::new();
        let mut new_column_datatypes: Vec<DataType> = Vec::new();
        let mut i: usize = 0;
        while i < wl
            invariant
                i <= wl,
                wl == input_l.schema@.len(),
                schema_fields@ == input_l.schema@.subrange(0, i as int),
                new_column_datatypes@.len() == i,
            decreases wl - i,
        {
            schema_fields.push(input_l.schema.fields[i]);
            new_column_datatypes.push(input_l.schema.fields[i].data_type);
            assert(schema_fields@ == input_l.schema@.subrange(0, i + 1));
            i += 1;
        }
        let mut i: usize = 0;
        while i < wr
            invariant
                i <= wr,
                wl == input_l.schema@.len(),
                wr == input_r.schema@.len(),
                schema_fields@ == input_l.schema@ + input_r.schema@.subrange(0, i as int),
                new_column_datatypes@.len() == wl + i,
            decreases wr - i,
        {
            schema_fields.push(input_r.schema.fields[i]);
            new_column_datatypes.push(input_r.schema.fields[i].data_type);
            assert(schema_fields@ =~= input_l.schema@ + input_r.schema@.subrange(0, i + 1));
            i += 1;
        }
        assert(input_r.schema@.subrange(0, wr as int) == input_r.schema@);
        let mut seg_l: Vec<u8> = Vec::new();
        seg_l.push(0x6cu8);
        let mut seg_r: Vec<u8> = Vec::new();
        seg_r.push(0x72u8);
        assert(seg_l@ =~= seq![0x6cu8]);
        assert(seg_r@ =~= seq![0x72u8]);
        let ks_l = keyspace.with_segment(&seg_l);
        let ks_r = keyspace.with_segment(&seg_r);
        assert(ks_l@ == keyspace@ + seq![0x6cu8]);
        assert(types_in(schema_fields@) =~= col_l@ + col_r@);
        Ok(
            HashJoinExecutor {
                aligner: BarrierAligner::new(),
                join_type,
                new_column_datatypes,
                schema: Schema { fields: schema_fields },
                side_l: JoinSide::new(params_l.key_indices, input_l.pk_indices, col_l, 0, ks_l),
                side_r: JoinSide::new(params_r.key_indices, input_r.pk_indices, col_r, wl, ks_r),
                pk_indices,
            },
        )
    }

    /// The schema of the output: the left columns, then the right columns.
    pub fn schema(&self) -> (s: &Schema)
        ensures
            s@ == self.output_schema(),
    {
        &self.schema
    }

    /// The primary key indices of the output.
    pub fn pk_indices(&self) -> (p: &Vec<usize>)
        ensures
            p@ == self.output_pk(),
    {
        &self.pk_indices
    }

    /// Whether input `side` may be read now: not while it waits for the barrier
    /// of the other input.
    pub fn may_read(&self, side: SideType) -> (r: bool)
        ensures
            r == permits(self.aligner(), side),
    {
        self.aligner.may_read(side)
    }
}

/// Whether the columns that a plan names are columns of its inputs, and the
/// inputs are no wider than a cell index can count.
pub open spec fn plan_ok(
    width_l: nat,
    pk_l: Seq<usize>,
    key_l: Seq<usize>,
    width_r: nat,
    pk_r: Seq<usize>,
    key_r: Seq<usize>,
) -> bool {
    &&& width_l <= u32::MAX
    &&& width_r <= u32::MAX
    &&& width_l + width_r <= usize::MAX
    &&& indices_within(key_l, width_l)
    &&& indices_within(pk_l, width_l)
    &&& indices_within(key_r, width_r)
    &&& indices_within(pk_r, width_r)
}

impl JoinSide {
    /// The two sides differ at most in the rows they hold.
    pub open spec fn same_config(&self, other: &JoinSide) -> bool {
        &&& self.key_cols() == other.key_cols()
        &&& self.pk_cols() == other.pk_cols()
        &&& self.width() == other.width()
        &&& self.types() == other.types()
        &&& self.start() == other.start()
        &&& self.prefix() == other.prefix()
    }
}

/// A row of the types of a side put into an entry of rows of these types
/// leaves an entry of rows of these types.
pub proof fn lemma_entry_put_typed(
    e: EntryModel,
    types: Seq<DataType>,
    row: Seq<Datum>,
    pk_indices: Seq<usize>,
)
    requires
        row_typed(row, types),
        forall|j: int| 0 <= j < e.rows.len() ==> typed_row(types)(#[trigger] e.rows[j]),
    ensures
        forall|j: int|
            0 <= j < put(e.rows, pk_bytes(row, pk_indices), row).len() ==> typed_row(types)(
                #[trigger] put(e.rows, pk_bytes(row, pk_indices), row)[j],
            ),
{
    lemma_put_all(e.rows, pk_bytes(row, pk_indices), row, typed_row(types));
}

impl HashJoinExecutor {
    /// The side that takes the changes of input `side`.
    pub open spec fn update_side(&self, side: SideType) -> JoinSide {
        match side {
            SideType::Left => self.left(),
            SideType::Right => self.right(),
        }
    }

    /// The side that the changes of input `side` are matched against.
    pub open spec fn match_side(&self, side: SideType) -> JoinSide {
        match side {
            SideType::Left => self.right(),
            SideType::Right => self.left(),
        }
    }

    /// What stays the same while input `side` is consumed.
    pub open spec fn params(&self, side: SideType) -> StepParams {
        params_of(self.kind(), side, self.update_side(side), self.match_side(side))
    }

    /// The two differ at most in the rows of their sides and in where their aligner stands.
    pub open spec fn same_plan(&self, other: &HashJoinExecutor) -> bool {
        &&& self.kind() == other.kind()
        &&& self.output_schema() == other.output_schema()
        &&& self.output_pk() == other.output_pk()
        &&& self.left().same_config(&other.left())
        &&& self.right().same_config(&other.right())
    }

    /// `after` and `r` are what the operator in state `self` makes of a chunk
    /// of input `side`. A chunk that is not valid, has not the columns of the
    /// input, or has a visible value that is not of the type of its column, is
    /// refused and changes nothing. Otherwise the hidden rows are dropped, the
    /// others are applied in order to the side of the input, and the output is
    /// one chunk without hidden rows.
    pub open spec fn consumes(
        &self,
        after: &HashJoinExecutor,
        side: SideType,
        chunk: StreamChunk,
        r: Result<Message, StreamError>,
    ) -> bool {
        &&& after.match_side(side) == self.match_side(side)
        &&& if !chunk.valid() {
            r == Err::<Message, StreamError>(StreamError::MalformedChunk) && after.update_side(side)
                == self.update_side(side)
        } else if chunk.columns@.len() != self.update_side(side).width() {
            r == Err::<Message, StreamError>(StreamError::WidthMismatch) && after.update_side(side)
                == self.update_side(side)
        } else if !rows_typed(chunk.rows(), self.update_side(side).types()) {
            r == Err::<Message, StreamError>(StreamError::TypeMismatch) && after.update_side(side)
                == self.update_side(side)
        } else {
            r matches Ok(Message::Chunk(c)) && {
                &&& c.valid()
                &&& c.visibility.is_none()
                &&& c.columns@.len() == self.output_schema().len()
                &&& (after.update_side(side)@, c.rows()) == step_rows(
                    self.params(side),
                    self.update_side(side)@,
                    self.match_side(side)@,
                    chunk.rows(),
                )
            }
        }
    }

    /// `after` and `r` are what the operator in state `self` answers to a
    /// chunk of input `side`: the chunk of its output, with nothing for the
    /// store to take, or the error that refuses the chunk.
    pub open spec fn answers(
        &self,
        after: &HashJoinExecutor,
        side: SideType,
        chunk: StreamChunk,
        r: Result<Option<JoinOutput>, StreamError>,
    ) -> bool {
        match r {
            Ok(Some(o)) => self.consumes(after, side, chunk, Ok(o.message)) && o.writes@.len() == 0,
            Ok(None) => false,
            Err(e) => self.consumes(after, side, chunk, Err(e)),
        }
    }

    /// `after` and `writes` are what a barrier makes of the operator in state
    /// `self`: the pending mutations of each side in a batch of its own, and
    /// nothing left pending.
    pub open spec fn flushes(&self, after: &HashJoinExecutor, writes: Seq<WriteBatch>) -> bool {
        &&& writes.len() == 2
        &&& writes[0]@ == side_flush_ops(self.left().prefix(), self.left()@, self.left().width())
        &&& writes[1]@ == side_flush_ops(self.right().prefix(), self.right()@, self.right().width())
        &&& after.left()@ == side_flushed(self.left()@)
        &&& after.right()@ == side_flushed(self.right()@)
    }

    /// Writes the pending mutations of both sides, each into a batch of its
    /// own: the left one, then the right one.
    pub fn flush_data(&mut self) -> (writes: Vec<WriteBatch>)
        requires
            old(self).wf(),
        ensures
            final(self).wf(),
            final(self).same_plan(old(self)),
            final(self).aligner() == old(self).aligner(),
            old(self).flushes(final(self), writes@),
    {
        let mut writes: Vec<WriteBatch> = Vec::new();
        let batch_l = self.side_l.flush();
        writes.push(batch_l);
        let batch_r = self.side_r.flush();
        writes.push(batch_r);
        writes
    }

    fn consume_chunk_left(&mut self, chunk: StreamChunk) -> (r: Result<Message, StreamError>)
        requires
            old(self).wf(),
        ensures
            final(self).wf(),
            final(self).same_plan(old(self)),
            final(self).aligner() == old(self).aligner(),
            old(self).consumes(final(self), SideType::Left, chunk, r),
    {
        self.eq_join_oneside(SideType::Left, chunk)
    }

    fn consume_chunk_right(&mut self, chunk: StreamChunk) -> (r: Result<Message, StreamError>)
        requires
            old(self).wf(),
        ensures
            final(self).wf(),
            final(self).same_plan(old(self)),
            final(self).aligner() == old(self).aligner(),
            old(self).consumes(final(self), SideType::Right, chunk, r),
    {
        self.eq_join_oneside(SideType::Right, chunk)
    }

    /// Joins the changes of a chunk of input `side` with the rows of the other side.
    fn eq_join_oneside(&mut self, side: SideType, chunk: StreamChunk) -> (r: Result<
        Message,
        StreamError,
    >)
        requires
            old(self).wf(),
        ensures
            final(self).wf(),
            final(self).same_plan(old(self)),
            final(self).aligner() == old(self).aligner(),
            old(self).consumes(final(self), side, chunk, r),
    {
        let compacted = match chunk.compact() {
            Ok(c) => c,
            Err(e) => {
                return Err(e);
            },
        };
        match side {
            SideType::Left => {
                if compacted.columns.len() != self.side_l.col_types.len() {
                    return Err(StreamError::WidthMismatch);
                }
                if !chunk_conforms(&compacted, &self.side_l.col_types) {
                    return Err(StreamError::TypeMismatch);
                }
                let out = join_chunk(
                    self.join_type,
                    side,
                    &mut self.side_l,
                    &self.side_r,
                    &self.new_column_datatypes,
                    &compacted,
                );
                Ok(Message::Chunk(out))
            },
            SideType::Right => {
                if compacted.columns.len() != self.side_r.col_types.len() {
                    return Err(StreamError::WidthMismatch);
                }
                if !chunk_conforms(&compacted, &self.side_r.col_types) {
                    return Err(StreamError::TypeMismatch);
                }
                let out = join_chunk(
                    self.join_type,
                    side,
                    &mut self.side_r,
                    &self.side_l,
                    &self.new_column_datatypes,
                    &compacted,
                );
                Ok(Message::Chunk(out))
            },
        }
    }

    /// Takes the next message of input `side` and returns what the join hands
    /// on for it: `None` for a barrier that has to wait for the other input;
    /// for a chunk the chunk of its output; for a barrier that both inputs
    /// have delivered that barrier, with the batches of a flush of both sides.
    /// An error of the input is handed on as it is.
    pub fn next(&mut self, side: SideType, msg: Result<Message, StreamError>) -> (r: Result<
        Option<JoinOutput>,
        StreamError,
    >)
        requires
            old(self).wf(),
        ensures
            final(self).wf(),
            final(self).same_plan(old(self)),
            final(self).aligner() == align_step(old(self).aligner(), side, msg).1,
            match align_step(old(self).aligner(), side, msg).0 {
                Err(e) => r == Err::<Option<JoinOutput>, StreamError>(e) && final(self).left()
                    == old(self).left() && final(self).right() == old(self).right(),
                Ok(None) => r == Ok::<Option<JoinOutput>, StreamError>(None) && final(self).left()
                    == old(self).left() && final(self).right() == old(self).right(),
                Ok(Some(AlignedMessage::Left(Err(e)))) => r == Err::<
                    Option<JoinOutput>,
                    StreamError,
                >(e) && final(self).left() == old(self).left() && final(self).right()
                    == old(self).right(),
                Ok(Some(AlignedMessage::Right(Err(e)))) => r == Err::<
                    Option<JoinOutput>,
                    StreamError,
                >(e) && final(self).left() == old(self).left() && final(self).right()
                    == old(self).right(),
                Ok(Some(AlignedMessage::Left(Ok(chunk)))) => old(self).answers(
                    final(self),
                    SideType::Left,
                    chunk,
                    r,
                ),
                Ok(Some(AlignedMessage::Right(Ok(chunk)))) => old(self).answers(
                    final(self),
                    SideType::Right,
                    chunk,
                    r,
                ),
                Ok(Some(AlignedMessage::Barrier(b))) => r matches Ok(Some(o)) && o.message
                    == Message::Barrier(b) && old(self).flushes(final(self), o.writes@),
            },
    {
        let aligned = match self.aligner.next(side, msg) {
            Ok(Some(m)) => m,
            Ok(None) => {
                return Ok(None);
            },
            Err(e) => {
                return Err(e);
            },
        };
        match aligned {
            AlignedMessage::Left(message) => match message {
                Ok(chunk) => match self.consume_chunk_left(chunk) {
                    Ok(m) => Ok(Some(JoinOutput { message: m, writes: Vec::new() })),
                    Err(e) => Err(e),
                },
                Err(e) => Err(e),
            },
            AlignedMessage::Right(message) => match message {
                Ok(chunk) => match self.consume_chunk_right(chunk) {
                    Ok(m) => Ok(Some(JoinOutput { message: m, writes: Vec::new() })),
                    Err(e) => Err(e),
                },
                Err(e) => Err(e),
            },
            AlignedMessage::Barrier(barrier) => {
                let writes = self.flush_data();
                Ok(Some(JoinOutput { message: Message::Barrier(barrier), writes }))
            },
        }
    }
}

/// The side with `row` put back under its join key, which encodes to `key`,
/// as a row that the store holds.
pub open spec fn side_restore(
    m: SideModel,
    key: Seq<u8>,
    pk_indices: Seq<usize>,
    row: Seq<Datum>,
) -> SideModel {
    put(m, key, entry_restore(entry_or_new(m, key), pk_indices, row))
}

/// The side that holds the rows of a decoded scan; `None` unless the keys of
/// the cells of each row are `prefix` followed by the encoded join key and
/// the encoded primary key of the row.
pub open spec fn side_from(
    prefix: Seq<u8>,
    key_indices: Seq<usize>,
    pk_indices: Seq<usize>,
    decoded: Seq<(Seq<u8>, Seq<Datum>)>,
) -> Option<SideModel>
    decreases decoded.len(),
{
    if decoded.len() == 0 {
        Some(Seq::empty())
    } else {
        match side_from(prefix, key_indices, pk_indices, decoded.drop_last()) {
            None => None,
            Some(m) => {
                let row = decoded.last().1;
                if decoded.last().0 == prefix + key_bytes(row, key_indices) + pk_bytes(
                    row,
                    pk_indices,
                ) {
                    Some(side_restore(m, key_bytes(row, key_indices), pk_indices, row))
                } else {
                    None
                }
            },
        }
    }
}

/// The side that the cells of a scan under the prefix of a side stand for.
pub open spec fn stored_side(
    prefix: Seq<u8>,
    key_indices: Seq<usize>,
    pk_indices: Seq<usize>,
    width: nat,
    cells: Seq<(Seq<u8>, Seq<u8>)>,
) -> Option<SideModel> {
    match decode_groups(cells, width) {
        Some(decoded) => side_from(prefix, key_indices, pk_indices, decoded),
        None => None,
    }
}

/// Every row of a decoded scan is of the types.
pub open spec fn decoded_typed(decoded: Seq<(Seq<u8>, Seq<Datum>)>, types: Seq<DataType>) -> bool {
    forall|i: int| 0 <= i < decoded.len() ==> row_typed((#[trigger] decoded[i]).1, types)
}

/// The side that the cells of a scan under the prefix of a side stand for,
/// if they are the cells of rows of the types of the side.
pub open spec fn typed_side(
    prefix: Seq<u8>,
    key_indices: Seq<usize>,
    pk_indices: Seq<usize>,
    types: Seq<DataType>,
    cells: Seq<(Seq<u8>, Seq<u8>)>,
) -> Option<SideModel> {
    match decode_groups(cells, types.len()) {
        Some(decoded) => if decoded_typed(decoded, types) {
            side_from(prefix, key_indices, pk_indices, decoded)
        } else {
            None
        },
        None => None,
    }
}

pub proof fn lemma_side_restore_ok(
    m: SideModel,
    key_indices: Seq<usize>,
    pk_indices: Seq<usize>,
    width: nat,
    row: Seq<Datum>,
)
    requires
        side_ok(m, key_indices, pk_indices, width),
        row.len() == width,
    ensures
        side_ok(
            side_restore(m, key_bytes(row, key_indices), pk_indices, row),
            key_indices,
            pk_indices,
            width,
        ),
{
    let key = key_bytes(row, key_indices);
    let e = entry_or_new(m, key);
    let e1 = entry_restore(e, pk_indices, row);
    lemma_rank_bounds(m, key);
    if has_key(m, key) {
        assert(side_entry_ok(key_indices, pk_indices, width)(m[rank(m, key)]));
    }
    lemma_put_sorted(e.rows, pk_bytes(row, pk_indices), row);
    lemma_put_all(e.rows, pk_bytes(row, pk_indices), row, row_entry_ok(pk_indices, width));
    let same_key = |x: (Seq<u8>, Seq<Datum>)| key_bytes(x.1, key_indices) == key;
    assert forall|j: int| 0 <= j < e.rows.len() implies same_key(#[trigger] e.rows[j]) by {}
    lemma_put_all(e.rows, pk_bytes(row, pk_indices), row, same_key);
    assert(rows_under_key(e1, key, key_indices)) by {
        assert forall|j: int| 0 <= j < e1.rows.len() implies key_bytes(
            (#[trigger] e1.rows[j]).1,
            key_indices,
        ) == key by {
            assert(same_key(e1.rows[j]));
        }
    }
    lemma_put_sorted(m, key, e1);
    lemma_put_all(m, key, e1, side_entry_ok(key_indices, pk_indices, width));
}

/// What cannot be put back from the beginning of a decoded scan cannot be
/// put back from the whole of it.
pub proof fn lemma_side_from_prefix(
    prefix: Seq<u8>,
    key_indices: Seq<usize>,
    pk_indices: Seq<usize>,
    decoded: Seq<(Seq<u8>, Seq<Datum>)>,
    i: int,
)
    requires
        0 <= i <= decoded.len(),
    ensures
        side_from(prefix, key_indices, pk_indices, decoded.subrange(0, i)).is_none() ==> side_from(
            prefix,
            key_indices,
            pk_indices,
            decoded,
        ).is_none(),
    decreases decoded.len() - i,
{
    if i < decoded.len() {
        lemma_side_from_prefix(prefix, key_indices, pk_indices, decoded, i + 1);
        assert(decoded.subrange(0, i + 1).drop_last() =~= decoded.subrange(0, i));
    } else {
        assert(decoded.subrange(0, i) == decoded);
    }
}

impl JoinSide {
    /// Puts `row` back under its join key, whose encoding is `key`, as a row
    /// that the store holds.
    fn restore_row(&mut self, key: Vec<u8>, row: Row)
        requires
            old(self).wf(),
            row_typed(row@, old(self).types()),
            key@ == key_bytes(row@, old(self).key_cols()),
        ensures
            final(self).wf(),
            final(self)@ == side_restore(old(self)@, key@, old(self).pk_cols(), row@),
            final(self).same_config(old(self)),
    {
        let ghost m0 = self.ht.model();
        let ghost holds = self.holds();
        proof {
            self.lemma_wf();
            lemma_map_entries(m0, entry_view(), key@);
            lemma_rank_bounds(m0, key@);
            lemma_side_restore_ok(self@, self.key_cols(), self.pk_cols(), self.width(), row@);
            if has_key(self@, key@) {
                assert(typed_entry(self.types())(self@[rank(self@, key@)]));
            }
            lemma_entry_put_typed(entry_or_new(self@, key@), self.types(), row@, self.pk_cols());
        }
        let (i, found) = self.ht.find(&key);
        if found {
            let mut e = ManagedJoinState::new(Keyspace::new(Vec::new()), Vec::new(), 0);
            self.ht.swap_value_at(i, &mut e);
            proof {
                assert(holds(m0[i as int]));
            }
            e.restore(row);
            let ghost e1 = e;
            self.ht.swap_value_at(i, &mut e);
            proof {
                assert(self.ht.model() =~= put(m0, key@, e1));
                lemma_map_entries_put_del(m0, entry_view(), key@, e1);
                let side1 = side_restore(old(self)@, key@, old(self).pk_cols(), row@);
                lemma_lookup_at(side1, i as int);
                assert(side_entry_ok(self.key_cols(), self.pk_cols(), self.width())(side1[i as int]));
                assert(holds((key@, e1)));
                lemma_put_all(m0, key@, e1, holds);
            }
        } else {
            let ks = self.keyspace.with_segment(&key);
            let mut e = ManagedJoinState::new(
                ks,
                Self::copy_indices(&self.pk_indices),
                self.col_types.len(),
            );
            e.restore(row);
            proof {
                lemma_map_entries_put_del(m0, entry_view(), key@, e);
                let side1 = side_restore(old(self)@, key@, old(self).pk_cols(), row@);
                lemma_put_sorted(old(self)@, key@, e@);
                assert(side_entry_ok(self.key_cols(), self.pk_cols(), self.width())(
                    side1[rank(old(self)@, key@)],
                ));
                assert(holds((key@, e)));
                lemma_put_all(m0, key@, e, holds);
            }
            self.ht.insert(key, e);
        }
    }

    /// Puts back the rows of `cells`, the cells that a scan of the store
    /// under the prefix of the side holds, into a side that has met no key.
    /// Refused, with the side as it was, where the side holds entries, or
    /// the cells are not the cells of rows of the side, of the types of its
    /// columns.
    pub fn recover(&mut self, cells: &Vec<(Vec<u8>, Vec<u8>)>) -> (r: Result<(), StreamError>)
        requires
            old(self).wf(),
        ensures
            final(self).wf(),
            final(self).same_config(old(self)),
            if old(self)@.len() > 0 {
                r == Err::<(), StreamError>(StreamError::NotFresh) && final(self)@ == old(self)@
            } else {
                match typed_side(
                    old(self).prefix(),
                    old(self).key_cols(),
                    old(self).pk_cols(),
                    old(self).types(),
                    cells_view(cells@),
                ) {
                    Some(m) => r.is_ok() && final(self)@ == m,
                    None => r == Err::<(), StreamError>(StreamError::CorruptState) && final(self)@
                        == old(self)@,
                }
            },
    {
        if self.ht.len() > 0 {
            return Err(StreamError::NotFresh);
        }
        let decoded = match decode_cells(cells, self.col_types.len()) {
            Some(d) => d,
            None => {
                return Err(StreamError::CorruptState);
            },
        };
        let ghost dv = decoded_view(decoded@);
        let ghost pre = self.prefix();
        let ghost kc = self.key_cols();
        let ghost pc = self.pk_cols();
        let ghost w = self.width();
        let ghost types = self.types();
        proof {
            lemma_decoded_width(cells_view(cells@), w);
            assert(self@ =~= Seq::<(Seq<u8>, EntryModel)>::empty());
        }
        let mut fresh = JoinSide::new(
            Self::copy_indices(&self.key_indices),
            Self::copy_indices(&self.pk_indices),
            Self::copy_types(&self.col_types),
            self.start_pos,
            self.keyspace.clone(),
        );
        let n = decoded.len();
        let mut j: usize = 0;
        while j < n
            invariant
                j <= n,
                n == decoded@.len(),
                dv == decoded_view(decoded@),
                *self == *old(self),
                self.wf(),
                self@.len() == 0,
                fresh.wf(),
                fresh.same_config(self),
                pre == self.prefix(),
                kc == self.key_cols(),
                pc == self.pk_cols(),
                w == self.width(),
                types == self.types(),
                types.len() == w,
                forall|k: int| 0 <= k < dv.len() ==> (#[trigger] dv[k]).1.len() == w,
                forall|k: int| 0 <= k < j ==> row_typed((#[trigger] dv[k]).1, types),
                decode_groups(cells_view(cells@), w) == Some(dv),
                side_from(pre, kc, pc, dv.subrange(0, j as int)) == Some(fresh@),
            decreases n - j,
        {
            proof {
                assert(dv.subrange(0, j + 1).drop_last() =~= dv.subrange(0, j as int));
                assert(dv.subrange(0, j + 1).last() == dv[j as int]);
                lemma_side_from_prefix(pre, kc, pc, dv, j + 1);
                fresh.lemma_wf();
            }
            let row = decoded[j].1.clone();
            if !row.conforms(&fresh.col_types) {
                assert(!row_typed(dv[j as int].1, types));
                return Err(StreamError::CorruptState);
            }
            let key_row = row.project(&fresh.key_indices);
            let key = serialize_row(&key_row);
            let pk_row = row.project(&fresh.pk_indices);
            let pkb = serialize_row(&pk_row);
            let mut want = clone_bytes(fresh.keyspace.prefix());
            append_bytes(&mut want, &key);
            append_bytes(&mut want, &pkb);
            if !bytes_equal(&decoded[j].0, &want) {
                proof {
                    assert(side_from(pre, kc, pc, dv.subrange(0, j + 1)).is_none());
                }
                return Err(StreamError::CorruptState);
            }
            fresh.restore_row(key, row);
            j += 1;
        }
        proof {
            assert(dv.subrange(0, n as int) == dv);
        }
        self.ht = fresh.ht;
        Ok(())
    }

    fn copy_types(types: &Vec<DataType>) -> (r: Vec<DataType>)
        ensures
            r@ == types@,
    {
        let mut out: Vec<DataType> = Vec::new();
        let mut i: usize = 0;
        while i < types.len()
            invariant
                i <= types.len(),
                out@ == types@.subrange(0, i as int),
            decreases types.len() - i,
        {
            out.push(types[i]);
            assert(out@ == types@.subrange(0, i + 1));
            i += 1;
        }
        assert(types@.subrange(0, types@.len() as int) == types@);
        out
    }
}

impl HashJoinExecutor {
    /// Puts back the rows of both sides of an operator that has consumed
    /// nothing yet, from the cells that scans of the store under the prefixes
    /// of its sides hold.
    pub fn recover(
        &mut self,
        cells_l: &Vec<(Vec<u8>, Vec<u8>)>,
        cells_r: &Vec<(Vec<u8>, Vec<u8>)>,
    ) -> (r: Result<(), StreamError>)
        requires
            old(self).wf(),
        ensures
            final(self).wf(),
            final(self).same_plan(old(self)),
            final(self).aligner() == old(self).aligner(),
            r.is_ok() == (old(self).left()@.len() == 0 && old(self).right()@.len() == 0
                && old(self).stored(SideType::Left, cells_view(cells_l@)).is_some() && old(
                self,
            ).stored(SideType::Right, cells_view(cells_r@)).is_some()),
            r.is_ok() ==> final(self).left()@ == old(self).stored(
                SideType::Left,
                cells_view(cells_l@),
            ).unwrap() && final(self).right()@ == old(self).stored(
                SideType::Right,
                cells_view(cells_r@),
            ).unwrap(),
            r.is_err() ==> final(self).left()@ == old(self).left()@ && final(self).right()@ == old(
                self,
            ).right()@,
            r matches Err(e) ==> e == if old(self).left()@.len() > 0 || old(self).right()@.len()
                > 0 {
                StreamError::NotFresh
            } else {
                StreamError::CorruptState
            },
    {
        if self.side_l.ht.len() > 0 || self.side_r.ht.len() > 0 {
            return Err(StreamError::NotFresh);
        }
        let ghost right0 = self.side_r@;
        assert(right0 =~= Seq::<(Seq<u8>, EntryModel)>::empty());
        match self.side_r.recover(cells_r) {
            Ok(()) => {},
            Err(e) => {
                return Err(e);
            },
        }
        match self.side_l.recover(cells_l) {
            Ok(()) => Ok(()),
            Err(e) => {
                // the right side goes back to what it was: a side without entries
                self.side_r.ht = SortedMap::new();
                assert(self.side_r@ =~= right0);
                Err(e)
            },
        }
    }

    /// The state of `side` that the cells of a scan under its prefix stand
    /// for, if they are the cells of rows of the types of the side.
    pub open spec fn stored(&self, side: SideType, cells: Seq<(Seq<u8>, Seq<u8>)>) -> Option<
        SideModel,
    > {
        typed_side(
            self.update_side(side).prefix(),
            self.update_side(side).key_cols(),
            self.update_side(side).pk_cols(),
            self.update_side(side).types(),
            cells,
        )
    }
}

} // verus!
