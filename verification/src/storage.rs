//! Keyspaces, write batches, and the layout of a row in the store: one
//! key-value pair for each of its columns.

use vstd::prelude::*;
use crate::bytes::{append_bytes, bytes_lt, clone_bytes, is_prefix, starts_with};
use crate::sorted_map::{
    del, has_key, keys_sorted, lemma_del_sorted, lemma_has_key_iff, lemma_lookup_at,
    lemma_lookup_del, lemma_lookup_put, lemma_map_entries, lemma_map_entries_put_del,
    lemma_put_sorted, lemma_rank_bounds, lookup, map_entries, put, rank, SortedMap,
};
use crate::codec::{be32, be64, encode_datum, serialize_cell, serialize_cell_idx};
use crate::types::{Datum, Row};

verus! {

/// A range of the store: the keys that start with a prefix.
#[derive(Debug)]
pub struct Keyspace {
    prefix: Vec<u8>,
}

impl View for Keyspace {
    type V = Seq<u8>;

    /// The prefix.
    closed spec fn view(&self) -> Seq<u8> {
        self.prefix@
    }
}

impl Clone for Keyspace {
    fn clone(&self) -> (r: Self)
        ensures
            r@ == self@,
    {
        Keyspace { prefix: clone_bytes(&self.prefix) }
    }
}

impl Keyspace {
    /// The keyspace of the keys that start with `prefix`.
    pub fn new(prefix: Vec<u8>) -> (ks: Self)
        ensures
            ks@ == prefix@,
    {
        Keyspace { prefix }
    }

    /// The keyspace of one executor: the byte `e` and the eight bytes of its id.
    pub fn executor_root(executor_id: u64) -> (ks: Self)
        ensures
            ks@ == seq![0x65u8] + be64(executor_id as nat),
    {
        let mut prefix: Vec<u8> = Vec::new();
        prefix.push(0x65u8);
        let hi = serialize_cell_idx((executor_id / 4294967296) as u32);
        let lo = serialize_cell_idx((executor_id % 4294967296) as u32);
        append_bytes(&mut prefix, &hi);
        append_bytes(&mut prefix, &lo);
        assert(prefix@ =~= seq![0x65u8] + be64(executor_id as nat));
        Keyspace { prefix }
    }

    /// The keyspace of one table: the byte `t` and the four bytes of its id.
    pub fn table_root(table_id: u32) -> (ks: Self)
        ensures
            ks@ == seq![0x74u8] + be32(table_id as nat),
    {
        let mut prefix: Vec<u8> = Vec::new();
        prefix.push(0x74u8);
        let id = serialize_cell_idx(table_id);
        append_bytes(&mut prefix, &id);
        assert(prefix@ =~= seq![0x74u8] + be32(table_id as nat));
        Keyspace { prefix }
    }

    /// The child keyspace under one more segment.
    pub fn with_segment(&self, segment: &Vec<u8>) -> (ks: Self)
        ensures
            ks@ == self@ + segment@,
    {
        let mut prefix = clone_bytes(&self.prefix);
        append_bytes(&mut prefix, segment);
        Keyspace { prefix }
    }

    pub fn prefix(&self) -> (p: &Vec<u8>)
        ensures
            p@ == self@,
    {
        &self.prefix
    }
}

/// One write of a batch: a value to put under a key, or `None` to delete the key.
pub type WriteOp = (Seq<u8>, Option<Seq<u8>>);

/// What a store holds: its cells by increasing key, each key once.
pub type StoreModel = Seq<(Seq<u8>, Seq<u8>)>;

/// The store after the writes of `ops`, in order.
pub open spec fn store_apply(store: StoreModel, ops: Seq<WriteOp>) -> StoreModel
    decreases ops.len(),
{
    if ops.len() == 0 {
        store
    } else {
        let before = store_apply(store, ops.drop_last());
        match ops.last().1 {
            Some(v) => put(before, ops.last().0, v),
            None => del(before, ops.last().0),
        }
    }
}

/// The cells of the store whose keys start with `prefix`, by increasing key.
pub open spec fn scan_of(store: StoreModel, prefix: Seq<u8>) -> StoreModel
    decreases store.len(),
{
    if store.len() == 0 {
        Seq::empty()
    } else {
        let before = scan_of(store.drop_last(), prefix);
        if is_prefix(prefix, store.last().0) {
            before.push(store.last())
        } else {
            before
        }
    }
}

/// What a scan holds is the cells of the store under the prefix, by
/// increasing key.
pub proof fn lemma_scan(store: StoreModel, prefix: Seq<u8>)
    requires
        keys_sorted(store),
    ensures
        keys_sorted(scan_of(store, prefix)),
        forall|t: int|
            0 <= t < scan_of(store, prefix).len() ==> is_prefix(
                prefix,
                (#[trigger] scan_of(store, prefix)[t]).0,
            ) && store.contains(scan_of(store, prefix)[t]),
        forall|u: int|
            0 <= u < store.len() && is_prefix(prefix, (#[trigger] store[u]).0) ==> scan_of(
                store,
                prefix,
            ).contains(store[u]),
    decreases store.len(),
{
    let all = scan_of(store, prefix);
    if store.len() > 0 {
        let before = store.drop_last();
        let n = before.len() as int;
        assert(keys_sorted(before)) by {
            assert forall|i: int, j: int| 0 <= i < j < before.len() implies bytes_lt(
                #[trigger] before[i].0,
                #[trigger] before[j].0,
            ) by {
                assert(before[i] == store[i] && before[j] == store[j]);
            }
        }
        lemma_scan(before, prefix);
        let a = scan_of(before, prefix);
        assert forall|t: int| 0 <= t < a.len() implies store.contains(#[trigger] a[t])
            && bytes_lt(a[t].0, store[n].0) by {
            let u = choose|u: int| 0 <= u < before.len() && before[u] == a[t];
            assert(store[u] == a[t]);
        }
        assert forall|t: int| 0 <= t < all.len() implies is_prefix(prefix, (#[trigger] all[t]).0)
            && store.contains(all[t]) by {
            if t < a.len() {
                assert(all[t] == a[t]);
            } else {
                assert(all[t] == store[n]);
            }
        }
        assert forall|i: int, j: int| 0 <= i < j < all.len() implies bytes_lt(
            #[trigger] all[i].0,
            #[trigger] all[j].0,
        ) by {
            if j < a.len() {
                assert(all[i] == a[i] && all[j] == a[j]);
            } else {
                assert(all[i] == a[i] && all[j] == store[n]);
            }
        }
        assert forall|u: int|
            0 <= u < store.len() && is_prefix(prefix, (#[trigger] store[u]).0) implies all.contains(
            store[u],
        ) by {
            if u < n {
                assert(before[u] == store[u]);
                let t = choose|t: int| 0 <= t < a.len() && a[t] == before[u];
                assert(all[t] == store[u]);
            } else {
                assert(all[all.len() - 1] == store[u]);
            }
        }
    }
}

/// What is found in a scan: under a key that starts with the prefix what
/// the store holds under it, under any other key nothing.
pub proof fn lemma_scan_lookup(store: StoreModel, prefix: Seq<u8>, k: Seq<u8>)
    requires
        keys_sorted(store),
    ensures
        lookup(scan_of(store, prefix), k) == if is_prefix(prefix, k) {
            lookup(store, k)
        } else {
            None
        },
{
    let all = scan_of(store, prefix);
    lemma_scan(store, prefix);
    lemma_has_key_iff(all, k);
    lemma_has_key_iff(store, k);
    if has_key(all, k) {
        let t = rank(all, k);
        let u = choose|u: int| 0 <= u < store.len() && store[u] == all[t];
        lemma_lookup_at(store, u);
    }
    if is_prefix(prefix, k) && has_key(store, k) {
        let u = rank(store, k);
        let t = choose|t: int| 0 <= t < all.len() && all[t] == store[u];
        lemma_lookup_at(all, t);
    }
}

/// What the store holds under a key after it has taken writes that are
/// sorted by key: what the write under that key says, or what it held where
/// no write has that key.
pub proof fn lemma_apply_lookup(store: StoreModel, ops: Seq<WriteOp>, k: Seq<u8>)
    requires
        keys_sorted(store),
        keys_sorted(ops),
    ensures
        keys_sorted(store_apply(store, ops)),
        lookup(store_apply(store, ops), k) == match lookup(ops, k) {
            Some(v) => v,
            None => lookup(store, k),
        },
    decreases ops.len(),
{
    lemma_store_apply_sorted(store, ops);
    if ops.len() == 0 {
        lemma_rank_bounds(ops, k);
    } else {
        let before = ops.drop_last();
        let n = before.len() as int;
        assert(keys_sorted(before)) by {
            assert forall|i: int, j: int| 0 <= i < j < before.len() implies bytes_lt(
                #[trigger] before[i].0,
                #[trigger] before[j].0,
            ) by {
                assert(before[i] == ops[i] && before[j] == ops[j]);
            }
        }
        lemma_apply_lookup(store, before, k);
        let mid = store_apply(store, before);
        lemma_lookup_at(ops, n);
        assert(before =~= del(ops, ops[n].0)) by {
            assert(ops.remove(n) =~= before);
        }
        lemma_lookup_del(ops, ops[n].0, k);
        match ops[n].1 {
            Some(v) => {
                lemma_lookup_put(mid, ops[n].0, v, k);
            },
            None => {
                lemma_lookup_del(mid, ops[n].0, k);
            },
        }
    }
}

/// Writes under other keys leave what the store holds under a key.
pub proof fn lemma_apply_frame(store: StoreModel, ops: Seq<WriteOp>, k: Seq<u8>)
    requires
        keys_sorted(store),
        forall|t: int| 0 <= t < ops.len() ==> (#[trigger] ops[t]).0 != k,
    ensures
        keys_sorted(store_apply(store, ops)),
        lookup(store_apply(store, ops), k) == lookup(store, k),
    decreases ops.len(),
{
    lemma_store_apply_sorted(store, ops);
    if ops.len() > 0 {
        let before = ops.drop_last();
        let n = before.len() as int;
        assert forall|t: int| 0 <= t < before.len() implies (#[trigger] before[t]).0 != k by {
            assert(before[t] == ops[t]);
        }
        lemma_apply_frame(store, before, k);
        let mid = store_apply(store, before);
        assert(ops[n].0 != k);
        match ops[n].1 {
            Some(v) => {
                lemma_lookup_put(mid, ops[n].0, v, k);
            },
            None => {
                lemma_lookup_del(mid, ops[n].0, k);
            },
        }
    }
}

/// What the store holds under the key of a write, after it has taken
/// writes of which no two have the same key: what that write says.
pub proof fn lemma_apply_write(store: StoreModel, ops: Seq<WriteOp>, t: int)
    requires
        keys_sorted(store),
        0 <= t < ops.len(),
        forall|u: int| t < u < ops.len() ==> (#[trigger] ops[u]).0 != ops[t].0,
    ensures
        lookup(store_apply(store, ops), ops[t].0) == ops[t].1,
    decreases ops.len(),
{
    let before = ops.drop_last();
    let n = before.len() as int;
    let mid = store_apply(store, before);
    lemma_store_apply_sorted(store, before);
    if t < n {
        assert(before[t] == ops[t]);
        assert forall|u: int| t < u < before.len() implies (#[trigger] before[u]).0
            != before[t].0 by {
            assert(before[u] == ops[u]);
        }
        lemma_apply_write(store, before, t);
    }
    match ops[n].1 {
        Some(v) => {
            lemma_lookup_put(mid, ops[n].0, v, ops[t].0);
        },
        None => {
            lemma_lookup_del(mid, ops[n].0, ops[t].0);
        },
    }
}

pub open spec fn bytes_view() -> spec_fn(Vec<u8>) -> Seq<u8> {
    |v: Vec<u8>| v@
}

pub proof fn lemma_store_apply_sorted(store: StoreModel, ops: Seq<WriteOp>)
    requires
        keys_sorted(store),
    ensures
        keys_sorted(store_apply(store, ops)),
    decreases ops.len(),
{
    if ops.len() > 0 {
        lemma_store_apply_sorted(store, ops.drop_last());
        let before = store_apply(store, ops.drop_last());
        match ops.last().1 {
            Some(v) => lemma_put_sorted(before, ops.last().0, v),
            None => lemma_del_sorted(before, ops.last().0),
        }
    }
}

/// Writes that the store takes all at once.
#[derive(Debug)]
pub struct WriteBatch {
    pub ops: Vec<(Vec<u8>, Option<Vec<u8>>)>,
}

impl View for WriteBatch {
    type V = Seq<WriteOp>;

    open spec fn view(&self) -> Seq<WriteOp> {
        Seq::new(
            self.ops@.len(),
            |i: int|
                (
                    self.ops@[i].0@,
                    match self.ops@[i].1 {
                        Some(v) => Some(v@),
                        None => None,
                    },
                ),
        )
    }
}

impl WriteBatch {
    pub fn new() -> (b: Self)
        ensures
            b@ == Seq::<WriteOp>::empty(),
    {
        let b = WriteBatch { ops: Vec::new() };
        assert(b@ =~= Seq::<WriteOp>::empty());
        b
    }

    /// The number of writes.
    pub fn len(&self) -> (n: usize)
        ensures
            n == self@.len(),
    {
        self.ops.len()
    }

    pub fn put(&mut self, key: Vec<u8>, value: Vec<u8>)
        ensures
            final(self)@ == old(self)@.push((key@, Some(value@))),
    {
        self.ops.push((key, Some(value)));
        assert(self@ =~= old(self)@.push((key@, Some(value@))));
    }

    pub fn delete(&mut self, key: Vec<u8>)
        ensures
            final(self)@ == old(self)@.push((key@, None)),
    {
        self.ops.push((key, None));
        assert(self@ =~= old(self)@.push((key@, None)));
    }
}

/// The key of the cell of column `i` of the row whose primary key encodes to
/// `pk`, in the keyspace `prefix`.
pub open spec fn cell_key(prefix: Seq<u8>, pk: Seq<u8>, i: int) -> Seq<u8> {
    prefix + pk + be32(i as nat)
}

/// The writes that store a row of `width` columns, or that delete it where
/// `row` is `None`: one for each column, by increasing column.
pub open spec fn row_ops(prefix: Seq<u8>, pk: Seq<u8>, row: Option<Seq<Datum>>, width: nat) -> Seq<
    WriteOp,
> {
    Seq::new(
        width,
        |i: int|
            (
                cell_key(prefix, pk, i),
                match row {
                    Some(r) => Some(encode_datum(r[i])),
                    None => None,
                },
            ),
    )
}

/// The writes of a buffer of mutations, entry by entry.
pub open spec fn flush_ops(
    prefix: Seq<u8>,
    pending: Seq<(Seq<u8>, Option<Seq<Datum>>)>,
    width: nat,
) -> Seq<WriteOp>
    decreases pending.len(),
{
    if pending.len() == 0 {
        Seq::empty()
    } else {
        flush_ops(prefix, pending.drop_last(), width) + row_ops(
            prefix,
            pending.last().0,
            pending.last().1,
            width,
        )
    }
}

/// Appends to `batch` the writes that store `row` under the primary key bytes
/// `pk`, or that delete its cells where `row` is `None`.
pub fn write_row(
    batch: &mut WriteBatch,
    prefix: &Vec<u8>,
    pk: &Vec<u8>,
    row: Option<&Row>,
    width: usize,
)
    requires
        width <= u32::MAX,
        row matches Some(r) ==> r@.len() >= width,
    ensures
        final(batch)@ == old(batch)@ + row_ops(
            prefix@,
            pk@,
            match row {
                Some(r) => Some(r@),
                None => None,
            },
            width as nat,
        ),
{
    let ghost spec_row: Option<Seq<Datum>> = match row {
        Some(r) => Some(r@),
        None => None,
    };
    let ghost want = row_ops(prefix@, pk@, spec_row, width as nat);
    let mut i: usize = 0;
    while i < width
        invariant
            i <= width,
            width <= u32::MAX,
            row matches Some(r) ==> r@.len() >= width,
            spec_row == match row {
                Some(r) => Some(r@),
                None => None,
            },
            want == row_ops(prefix@, pk@, spec_row, width as nat),
            batch@ == old(batch)@ + want.subrange(0, i as int),
        decreases width - i,
    {
        let mut key = clone_bytes(prefix);
        append_bytes(&mut key, pk);
        let idx = serialize_cell_idx(i as u32);
        append_bytes(&mut key, &idx);
        assert(key@ == cell_key(prefix@, pk@, i as int));
        match row {
            Some(r) => {
                let value = serialize_cell(&r.0[i]);
                batch.put(key, value);
            },
            None => {
                batch.delete(key);
            },
        }
        assert(batch@ =~= old(batch)@ + want.subrange(0, i + 1));
        i += 1;
    }
    assert(want.subrange(0, width as int) == want);
}

/// A store in memory. It takes write batches and answers scans, and keeps
/// the epoch of the last batch it took.
pub struct MemoryStateStore {
    cells: SortedMap<Vec<u8>>,
    epoch: u64,
}

impl View for MemoryStateStore {
    type V = StoreModel;

    closed spec fn view(&self) -> StoreModel {
        map_entries(self.cells.model(), bytes_view())
    }
}

impl MemoryStateStore {
    pub closed spec fn wf(&self) -> bool {
        self.cells.wf()
    }

    /// The epoch of the last batch that the store took.
    pub closed spec fn last_epoch(&self) -> u64 {
        self.epoch
    }

    pub proof fn lemma_wf(&self)
        requires
            self.wf(),
        ensures
            keys_sorted(self@),
    {
        lemma_map_entries(self.cells.model(), bytes_view(), Seq::empty());
        self.cells.lemma_wf_sorted();
    }

    /// A store that holds nothing and has taken no batch: its last epoch is `0`.
    pub fn new() -> (s: Self)
        ensures
            s.wf(),
            s@ == Seq::<(Seq<u8>, Seq<u8>)>::empty(),
            s.last_epoch() == 0,
    {
        let s = MemoryStateStore { cells: SortedMap::new(), epoch: 0 };
        assert(s@ =~= Seq::<(Seq<u8>, Seq<u8>)>::empty());
        s
    }

    /// Takes the writes of `batch`, all of them, in their order.
    pub fn ingest(&mut self, batch: &WriteBatch, epoch: u64)
        requires
            old(self).wf(),
        ensures
            final(self).wf(),
            final(self)@ == store_apply(old(self)@, batch@),
            final(self).last_epoch() == epoch,
    {
        let n = batch.ops.len();
        let mut i: usize = 0;
        while i < n
            invariant
                i <= n,
                n == batch.ops@.len(),
                self.wf(),
                self@ == store_apply(old(self)@, batch@.subrange(0, i as int)),
            decreases n - i,
        {
            let key = clone_bytes(&batch.ops[i].0);
            proof {
                assert(batch@.subrange(0, i + 1).drop_last() =~= batch@.subrange(0, i as int));
                lemma_map_entries_put_del(
                    self.cells.model(),
                    bytes_view(),
                    key@,
                    arbitrary::<Vec<u8>>(),
                );
            }
            match &batch.ops[i].1 {
                Some(v) => {
                    let value = clone_bytes(v);
                    proof {
                        lemma_map_entries_put_del(self.cells.model(), bytes_view(), key@, value);
                    }
                    self.cells.insert(key, value);
                },
                None => {
                    self.cells.remove(&key);
                },
            }
            i += 1;
        }
        assert(batch@.subrange(0, n as int) == batch@);
        self.epoch = epoch;
    }

    /// The cells whose keys start with `prefix`, by increasing key: all of
    /// them, or the first `limit` of them.
    pub fn scan(&self, prefix: &Vec<u8>, limit: Option<usize>) -> (out: Vec<(Vec<u8>, Vec<u8>)>)
        requires
            self.wf(),
        ensures
            cells_view(out@) == match limit {
                Some(n) => if n < scan_of(self@, prefix@).len() {
                    scan_of(self@, prefix@).subrange(0, n as int)
                } else {
                    scan_of(self@, prefix@)
                },
                None => scan_of(self@, prefix@),
            },
    {
        let mut out: Vec<(Vec<u8>, Vec<u8>)> = Vec::new();
        let n = self.cells.len();
        let cap: usize = match limit {
            Some(k) => k,
            None => usize::MAX,
        };
        let ghost all = self@;
        let mut i: usize = 0;
        while i < n && out.len() < cap
            invariant
                i <= n,
                self.wf(),
                all == self@,
                n == all.len(),
                out@.len() <= i,
                out@.len() <= cap,
                cells_view(out@) == scan_of(all.subrange(0, i as int), prefix@),
            decreases n - i,
        {
            let key = self.cells.key_at(i);
            proof {
                assert(all.subrange(0, i + 1).drop_last() =~= all.subrange(0, i as int));
                assert(all.subrange(0, i + 1).last() == all[i as int]);
            }
            if starts_with(key, prefix) {
                let value = self.cells.value_at(i);
                let ghost before = cells_view(out@);
                out.push((clone_bytes(key), clone_bytes(value)));
                assert(cells_view(out@) =~= before.push(all[i as int]));
            }
            i += 1;
        }
        proof {
            lemma_scan_prefix(all, prefix@, i as int);
            if i == n {
                assert(all.subrange(0, n as int) == all);
            }
            let whole = scan_of(all, prefix@);
            assert(whole.subrange(0, whole.len() as int) =~= whole);
        }
        out
    }
}

/// The cells of a scan as sequences of bytes.
pub open spec fn cells_view(cells: Seq<(Vec<u8>, Vec<u8>)>) -> StoreModel {
    Seq::new(cells.len(), |i: int| (cells[i].0@, cells[i].1@))
}

/// The scan of the first cells of a store is the beginning of the scan of the store.
pub proof fn lemma_scan_prefix(store: StoreModel, prefix: Seq<u8>, i: int)
    requires
        0 <= i <= store.len(),
    ensures
        scan_of(store.subrange(0, i), prefix).len() <= scan_of(store, prefix).len(),
        scan_of(store.subrange(0, i), prefix) == scan_of(store, prefix).subrange(
            0,
            scan_of(store.subrange(0, i), prefix).len() as int,
        ),
    decreases store.len() - i,
{
    if i == store.len() {
        assert(store.subrange(0, i) == store);
        assert(scan_of(store, prefix).subrange(0, scan_of(store, prefix).len() as int) =~= scan_of(
            store,
            prefix,
        ));
    } else {
        lemma_scan_prefix(store, prefix, i + 1);
        assert(store.subrange(0, i + 1).drop_last() =~= store.subrange(0, i));
        let a = scan_of(store.subrange(0, i), prefix);
        let b = scan_of(store.subrange(0, i + 1), prefix);
        let c = scan_of(store, prefix);
        assert(a =~= c.subrange(0, a.len() as int)) by {
            assert(b == c.subrange(0, b.len() as int));
            assert forall|k: int| 0 <= k < a.len() implies a[k] == c[k] by {
                assert(a[k] == b[k]);
                assert(b[k] == c.subrange(0, b.len() as int)[k]);
            }
        }
    }
}

} // verus!
