//! A map from byte-string keys to values, kept in key order: the in-memory
//! image of a range of an ordered key-value store. Its model is the sequence of
//! its entries by increasing key, so walking it is deterministic.

use vstd::prelude::*;
use crate::bytes::{bytes_equal, bytes_less, bytes_lt, lemma_lt_asymmetric, lemma_lt_total, lemma_lt_transitive};

verus! {

/// The keys of `s` strictly increase.
pub open spec fn keys_sorted<T>(s: Seq<(Seq<u8>, T)>) -> bool {
    forall|i: int, j: int| 0 <= i < j < s.len() ==> bytes_lt(#[trigger] s[i].0, #[trigger] s[j].0)
}

/// The number of entries of a sorted `s` whose key comes before `k`: where `k`
/// stands, or would be put.
pub open spec fn rank<T>(s: Seq<(Seq<u8>, T)>, k: Seq<u8>) -> int
    decreases s.len(),
{
    if s.len() == 0 {
        0
    } else if bytes_lt(s.last().0, k) {
        s.len() as int
    } else {
        rank(s.drop_last(), k)
    }
}

pub open spec fn has_key<T>(s: Seq<(Seq<u8>, T)>, k: Seq<u8>) -> bool {
    rank(s, k) < s.len() && s[rank(s, k)].0 == k
}

/// The value under `k`, if there is one.
pub open spec fn lookup<T>(s: Seq<(Seq<u8>, T)>, k: Seq<u8>) -> Option<T> {
    if has_key(s, k) {
        Some(s[rank(s, k)].1)
    } else {
        None
    }
}

/// `s` with `v` under `k`, in place of an earlier value under `k` if there was one.
pub open spec fn put<T>(s: Seq<(Seq<u8>, T)>, k: Seq<u8>, v: T) -> Seq<(Seq<u8>, T)> {
    if has_key(s, k) {
        s.update(rank(s, k), (k, v))
    } else {
        s.insert(rank(s, k), (k, v))
    }
}

/// `s` without the entry under `k`.
pub open spec fn del<T>(s: Seq<(Seq<u8>, T)>, k: Seq<u8>) -> Seq<(Seq<u8>, T)> {
    if has_key(s, k) {
        s.remove(rank(s, k))
    } else {
        s
    }
}

/// The entries of `s` with each value replaced by its image under `f`.
pub open spec fn map_entries<T, U>(s: Seq<(Seq<u8>, T)>, f: spec_fn(T) -> U) -> Seq<(Seq<u8>, U)> {
    Seq::new(s.len(), |i: int| (s[i].0, f(s[i].1)))
}

pub proof fn lemma_rank_bounds<T>(s: Seq<(Seq<u8>, T)>, k: Seq<u8>)
    ensures
        0 <= rank(s, k) <= s.len(),
    decreases s.len(),
{
    if s.len() > 0 && !bytes_lt(s.last().0, k) {
        lemma_rank_bounds(s.drop_last(), k);
    }
}

/// In a sorted sequence the entries before `rank` have keys before `k`, and no other has.
pub proof fn lemma_rank_splits<T>(s: Seq<(Seq<u8>, T)>, k: Seq<u8>)
    requires
        keys_sorted(s),
    ensures
        0 <= rank(s, k) <= s.len(),
        forall|j: int| 0 <= j < rank(s, k) ==> bytes_lt(#[trigger] s[j].0, k),
        forall|j: int| rank(s, k) <= j < s.len() ==> !bytes_lt(#[trigger] s[j].0, k),
    decreases s.len(),
{
    if s.len() == 0 {
    } else if bytes_lt(s.last().0, k) {
        assert forall|j: int| 0 <= j < s.len() implies bytes_lt(#[trigger] s[j].0, k) by {
            if j < s.len() - 1 {
                lemma_lt_transitive(s[j].0, s.last().0, k);
            }
        }
    } else {
        let t = s.drop_last();
        assert(keys_sorted(t)) by {
            assert forall|i: int, j: int| 0 <= i < j < t.len() implies bytes_lt(
                #[trigger] t[i].0,
                #[trigger] t[j].0,
            ) by {
                assert(t[i] == s[i] && t[j] == s[j]);
            }
        }
        lemma_rank_splits(t, k);
        assert forall|j: int| 0 <= j < rank(s, k) implies bytes_lt(#[trigger] s[j].0, k) by {
            assert(t[j] == s[j]);
        }
        assert forall|j: int| rank(s, k) <= j < s.len() implies !bytes_lt(
            #[trigger] s[j].0,
            k,
        ) by {
            if j < s.len() - 1 {
                assert(t[j] == s[j]);
            }
        }
    }
}

/// The only index that splits a sorted sequence at `k` is `rank`.
pub proof fn lemma_rank_unique<T>(s: Seq<(Seq<u8>, T)>, k: Seq<u8>, i: int)
    requires
        keys_sorted(s),
        0 <= i <= s.len(),
        forall|j: int| 0 <= j < i ==> bytes_lt(#[trigger] s[j].0, k),
        forall|j: int| i <= j < s.len() ==> !bytes_lt(#[trigger] s[j].0, k),
    ensures
        rank(s, k) == i,
{
    lemma_rank_splits(s, k);
    let r = rank(s, k);
    if r < i {
        assert(bytes_lt(s[r].0, k));
    } else if i < r {
        assert(bytes_lt(s[i].0, k));
    }
}

/// In a sorted sequence an entry is found under its key.
pub proof fn lemma_lookup_at<T>(s: Seq<(Seq<u8>, T)>, i: int)
    requires
        keys_sorted(s),
        0 <= i < s.len(),
    ensures
        rank(s, s[i].0) == i,
        has_key(s, s[i].0),
        lookup(s, s[i].0) == Some(s[i].1),
{
    let k = s[i].0;
    assert forall|j: int| i <= j < s.len() implies !bytes_lt(#[trigger] s[j].0, k) by {
        if j > i {
            lemma_lt_asymmetric(k, s[j].0);
        } else if bytes_lt(k, k) {
            lemma_lt_asymmetric(k, k);
        }
    }
    lemma_rank_unique(s, k, i);
}

/// A key is in a sorted sequence exactly if some entry holds it.
pub proof fn lemma_has_key_iff<T>(s: Seq<(Seq<u8>, T)>, k: Seq<u8>)
    requires
        keys_sorted(s),
    ensures
        has_key(s, k) <==> exists|i: int| 0 <= i < s.len() && #[trigger] s[i].0 == k,
        0 <= rank(s, k) <= s.len(),
{
    lemma_rank_bounds(s, k);
    if has_key(s, k) {
        assert(s[rank(s, k)].0 == k);
    }
    if exists|i: int| 0 <= i < s.len() && #[trigger] s[i].0 == k {
        let i = choose|i: int| 0 <= i < s.len() && #[trigger] s[i].0 == k;
        lemma_lookup_at(s, i);
    }
}

pub proof fn lemma_put_sorted<T>(s: Seq<(Seq<u8>, T)>, k: Seq<u8>, v: T)
    requires
        keys_sorted(s),
    ensures
        keys_sorted(put(s, k, v)),
        rank(put(s, k, v), k) == rank(s, k),
        put(s, k, v)[rank(s, k)] == (k, v),
        put(s, k, v).len() == if has_key(s, k) { s.len() } else { s.len() + 1 },
{
    lemma_rank_splits(s, k);
    let r = rank(s, k);
    let t = put(s, k, v);
    if has_key(s, k) {
        assert forall|i: int, j: int| 0 <= i < j < t.len() implies bytes_lt(
            #[trigger] t[i].0,
            #[trigger] t[j].0,
        ) by {
            assert(t[i].0 == s[i].0 && t[j].0 == s[j].0);
        }
    } else {
        assert forall|i: int, j: int| 0 <= i < j < t.len() implies bytes_lt(
            #[trigger] t[i].0,
            #[trigger] t[j].0,
        ) by {
            if j < r {
                assert(t[i] == s[i] && t[j] == s[j]);
            } else if j == r {
                assert(t[i] == s[i]);
            } else if i < r {
                assert(t[i] == s[i] && t[j] == s[j - 1]);
            } else if i == r {
                assert(t[j] == s[j - 1]);
                lemma_lt_total(s[j - 1].0, k);
            } else {
                assert(t[i] == s[i - 1] && t[j] == s[j - 1]);
            }
        }
    }
    lemma_lookup_at(t, r);
}

pub proof fn lemma_del_sorted<T>(s: Seq<(Seq<u8>, T)>, k: Seq<u8>)
    requires
        keys_sorted(s),
    ensures
        keys_sorted(del(s, k)),
        !has_key(del(s, k), k),
        del(s, k).len() == if has_key(s, k) { s.len() - 1 } else { s.len() as int },
{
    let t = del(s, k);
    let r = rank(s, k);
    lemma_rank_bounds(s, k);
    if has_key(s, k) {
        assert forall|i: int, j: int| 0 <= i < j < t.len() implies bytes_lt(
            #[trigger] t[i].0,
            #[trigger] t[j].0,
        ) by {
            assert(t[i] == if i < r { s[i] } else { s[i + 1] });
            assert(t[j] == if j < r { s[j] } else { s[j + 1] });
        }
        lemma_has_key_iff(t, k);
        if has_key(t, k) {
            let i = choose|i: int| 0 <= i < t.len() && #[trigger] t[i].0 == k;
            let i0 = if i < r { i } else { i + 1 };
            assert(t[i] == s[i0]);
            lemma_lookup_at(s, i0);
        }
    }
}

/// What is found in `put(s, k, v)`: `v` under `k`, and elsewhere what `s` held.
pub proof fn lemma_lookup_put<T>(s: Seq<(Seq<u8>, T)>, k: Seq<u8>, v: T, q: Seq<u8>)
    requires
        keys_sorted(s),
    ensures
        lookup(put(s, k, v), q) == if q == k { Some(v) } else { lookup(s, q) },
{
    let t = put(s, k, v);
    let r = rank(s, k);
    lemma_put_sorted(s, k, v);
    lemma_rank_bounds(s, k);
    if q != k {
        lemma_has_key_iff(s, q);
        lemma_has_key_iff(t, q);
        if has_key(s, q) {
            let i = rank(s, q);
            let i1 = if has_key(s, k) || i < r { i } else { i + 1 };
            assert(t[i1] == s[i]);
            lemma_lookup_at(t, i1);
        } else if has_key(t, q) {
            let i = rank(t, q);
            assert(i != r);
            let i0 = if has_key(s, k) || i < r { i } else { i - 1 };
            assert(t[i] == s[i0]);
            assert(s[i0].0 == q);
        }
    }
}

/// What is found in `del(s, k)`: nothing under `k`, and elsewhere what `s` held.
pub proof fn lemma_lookup_del<T>(s: Seq<(Seq<u8>, T)>, k: Seq<u8>, q: Seq<u8>)
    requires
        keys_sorted(s),
    ensures
        lookup(del(s, k), q) == if q == k { None } else { lookup(s, q) },
{
    let t = del(s, k);
    let r = rank(s, k);
    lemma_del_sorted(s, k);
    lemma_rank_bounds(s, k);
    if q != k && has_key(s, k) {
        lemma_has_key_iff(s, q);
        lemma_has_key_iff(t, q);
        if has_key(s, q) {
            let i = rank(s, q);
            let i1 = if i < r { i } else { i - 1 };
            assert(t[i1] == s[i]);
            lemma_lookup_at(t, i1);
        } else if has_key(t, q) {
            let i = rank(t, q);
            let i0 = if i < r { i } else { i + 1 };
            assert(t[i] == s[i0]);
            assert(s[i0].0 == q);
        }
    }
}

/// Two sorted sequences in which every key finds the same are the same sequence.
pub proof fn lemma_sorted_unique<T>(a: Seq<(Seq<u8>, T)>, b: Seq<(Seq<u8>, T)>)
    requires
        keys_sorted(a),
        keys_sorted(b),
        forall|k: Seq<u8>| lookup(a, k) == lookup(b, k),
    ensures
        a == b,
    decreases a.len(),
{
    if a.len() == 0 {
        if b.len() > 0 {
            lemma_lookup_at(b, 0);
            assert(lookup(a, b[0].0) == lookup(b, b[0].0));
        }
        assert(a =~= b);
    } else if b.len() == 0 {
        lemma_lookup_at(a, 0);
        assert(lookup(a, a[0].0) == lookup(b, a[0].0));
    } else {
        let la = a.len() - 1;
        let lb = b.len() - 1;
        lemma_lookup_at(a, la);
        lemma_lookup_at(b, lb);
        assert(lookup(a, a[la].0) == lookup(b, a[la].0));
        assert(lookup(a, b[lb].0) == lookup(b, b[lb].0));
        let ia = rank(a, b[lb].0);
        let ib = rank(b, a[la].0);
        lemma_rank_bounds(a, b[lb].0);
        lemma_rank_bounds(b, a[la].0);
        assert(has_key(b, a[la].0) && has_key(a, b[lb].0));
        if ib < lb {
            assert(bytes_lt(b[ib].0, b[lb].0));
            lemma_lt_asymmetric(b[ib].0, b[lb].0);
        }
        if ia < la {
            assert(bytes_lt(a[ia].0, a[la].0));
            lemma_lt_asymmetric(a[ia].0, a[la].0);
        }
        assert(a[la] == b[lb]);
        let k = a[la].0;
        let a1 = a.drop_last();
        let b1 = b.drop_last();
        assert(a1 == del(a, k)) by {
            assert(a.remove(la) =~= a1);
        }
        assert(b1 == del(b, k)) by {
            assert(b.remove(lb) =~= b1);
        }
        lemma_del_sorted(a, k);
        lemma_del_sorted(b, k);
        assert forall|q: Seq<u8>| lookup(a1, q) == lookup(b1, q) by {
            lemma_lookup_del(a, k, q);
            lemma_lookup_del(b, k, q);
        }
        lemma_sorted_unique(a1, b1);
        assert(a =~= a1.push(a[la]));
        assert(b =~= b1.push(b[lb]));
    }
}

/// Mapping the values of a sequence keeps its keys, so its order and every rank.
pub proof fn lemma_map_entries<T, U>(s: Seq<(Seq<u8>, T)>, f: spec_fn(T) -> U, k: Seq<u8>)
    ensures
        keys_sorted(s) <==> keys_sorted(map_entries(s, f)),
        rank(map_entries(s, f), k) == rank(s, k),
        has_key(map_entries(s, f), k) == has_key(s, k),
        lookup(map_entries(s, f), k) == match lookup(s, k) {
            Some(v) => Some(f(v)),
            None => None,
        },
    decreases s.len(),
{
    let m = map_entries(s, f);
    if keys_sorted(s) {
        assert forall|i: int, j: int| 0 <= i < j < m.len() implies bytes_lt(
            #[trigger] m[i].0,
            #[trigger] m[j].0,
        ) by {
            assert(m[i].0 == s[i].0 && m[j].0 == s[j].0);
        }
    }
    if keys_sorted(m) {
        assert forall|i: int, j: int| 0 <= i < j < s.len() implies bytes_lt(
            #[trigger] s[i].0,
            #[trigger] s[j].0,
        ) by {
            assert(m[i].0 == s[i].0 && m[j].0 == s[j].0);
        }
    }
    lemma_rank_bounds(s, k);
    if s.len() > 0 {
        assert(m.last().0 == s.last().0);
        assert(m.drop_last() =~= map_entries(s.drop_last(), f));
        lemma_map_entries(s.drop_last(), f, k);
    }
}

/// Mapping the values commutes with `put` and `del`.
pub proof fn lemma_map_entries_put_del<T, U>(
    s: Seq<(Seq<u8>, T)>,
    f: spec_fn(T) -> U,
    k: Seq<u8>,
    v: T,
)
    ensures
        map_entries(put(s, k, v), f) == put(map_entries(s, f), k, f(v)),
        map_entries(del(s, k), f) == del(map_entries(s, f), k),
{
    lemma_map_entries(s, f, k);
    lemma_rank_bounds(s, k);
    assert(map_entries(put(s, k, v), f) =~= put(map_entries(s, f), k, f(v)));
    assert(map_entries(del(s, k), f) =~= del(map_entries(s, f), k));
}

/// What holds of every entry of `s` and of `(k, v)` holds of every entry of `put(s, k, v)`.
pub proof fn lemma_put_all<T>(
    s: Seq<(Seq<u8>, T)>,
    k: Seq<u8>,
    v: T,
    p: spec_fn((Seq<u8>, T)) -> bool,
)
    requires
        forall|i: int| 0 <= i < s.len() ==> p(#[trigger] s[i]),
        p((k, v)),
    ensures
        forall|i: int| 0 <= i < put(s, k, v).len() ==> p(#[trigger] put(s, k, v)[i]),
{
    lemma_rank_bounds(s, k);
    let r = rank(s, k);
    let t = put(s, k, v);
    assert forall|i: int| 0 <= i < t.len() implies p(#[trigger] t[i]) by {
        if i != r {
            let i0 = if has_key(s, k) || i < r { i } else { i - 1 };
            assert(t[i] == s[i0]);
        }
    }
}

/// What holds of every entry of `s` holds of every entry of `del(s, k)`.
pub proof fn lemma_del_all<T>(s: Seq<(Seq<u8>, T)>, k: Seq<u8>, p: spec_fn((Seq<u8>, T)) -> bool)
    requires
        forall|i: int| 0 <= i < s.len() ==> p(#[trigger] s[i]),
    ensures
        forall|i: int| 0 <= i < del(s, k).len() ==> p(#[trigger] del(s, k)[i]),
{
    lemma_rank_bounds(s, k);
    let r = rank(s, k);
    let t = del(s, k);
    assert forall|i: int| 0 <= i < t.len() implies p(#[trigger] t[i]) by {
        let i0 = if !has_key(s, k) || i < r { i } else { i + 1 };
        assert(t[i] == s[i0]);
    }
}

/// A map from byte strings to values of `V`, walked by increasing key.
#[derive(Debug)]
pub struct SortedMap<V> {
    keys: Vec<Vec<u8>>,
    vals: Vec<V>,
}

impl<V> SortedMap<V> {
    /// The entries, by increasing key.
    pub closed spec fn model(&self) -> Seq<(Seq<u8>, V)> {
        Seq::new(self.keys@.len(), |i: int| (self.keys@[i]@, self.vals@[i]))
    }

    /// The representation invariant; with it the model is sorted.
    pub closed spec fn wf(&self) -> bool {
        self.keys@.len() == self.vals@.len() && keys_sorted(self.model())
    }

    pub proof fn lemma_wf_sorted(&self)
        requires
            self.wf(),
        ensures
            keys_sorted(self.model()),
    {
    }

    pub fn new() -> (m: Self)
        ensures
            m.wf(),
            m.model() == Seq::<(Seq<u8>, V)>::empty(),
    {
        let m = SortedMap { keys: Vec::new(), vals: Vec::new() };
        assert(m.model() =~= Seq::<(Seq<u8>, V)>::empty());
        m
    }

    pub fn len(&self) -> (n: usize)
        requires
            self.wf(),
        ensures
            n == self.model().len(),
    {
        self.keys.len()
    }

    pub fn is_empty(&self) -> (r: bool)
        requires
            self.wf(),
        ensures
            r == (self.model().len() == 0),
    {
        self.keys.len() == 0
    }

    /// Where `key` stands or would be put, and whether it is there.
    pub fn find(&self, key: &Vec<u8>) -> (r: (usize, bool))
        requires
            self.wf(),
        ensures
            r.0 == rank(self.model(), key@),
            r.1 == has_key(self.model(), key@),
            r.0 <= self.model().len(),
    {
        let ghost s = self.model();
        let mut i: usize = 0;
        while i < self.keys.len() && bytes_less(&self.keys[i], key)
            invariant
                i <= self.keys.len(),
                s == self.model(),
                s.len() == self.keys.len(),
                forall|j: int| 0 <= j < i ==> bytes_lt(#[trigger] s[j].0, key@),
            decreases self.keys.len() - i,
        {
            i += 1;
        }
        proof {
            if i < s.len() {
                assert(!bytes_lt(s[i as int].0, key@));
                assert forall|j: int| i <= j < s.len() implies !bytes_lt(
                    #[trigger] s[j].0,
                    key@,
                ) by {
                    if j > i && bytes_lt(s[j].0, key@) {
                        lemma_lt_transitive(s[i as int].0, s[j].0, key@);
                    }
                }
            }
            lemma_rank_unique(s, key@, i as int);
        }
        let found = i < self.keys.len() && bytes_equal(&self.keys[i], key);
        (i, found)
    }

    pub fn contains_key(&self, key: &Vec<u8>) -> (r: bool)
        requires
            self.wf(),
        ensures
            r == has_key(self.model(), key@),
    {
        self.find(key).1
    }

    /// The value under `key`, if there is one.
    pub fn get(&self, key: &Vec<u8>) -> (r: Option<&V>)
        requires
            self.wf(),
        ensures
            match r {
                Some(v) => lookup(self.model(), key@) == Some(*v),
                None => lookup(self.model(), key@).is_none(),
            },
    {
        let (i, found) = self.find(key);
        if found {
            Some(&self.vals[i])
        } else {
            None
        }
    }

    /// The key of the `i`-th entry.
    pub fn key_at(&self, i: usize) -> (k: &Vec<u8>)
        requires
            self.wf(),
            i < self.model().len(),
        ensures
            k@ == self.model()[i as int].0,
    {
        &self.keys[i]
    }

    /// The value of the `i`-th entry.
    pub fn value_at(&self, i: usize) -> (v: &V)
        requires
            self.wf(),
            i < self.model().len(),
        ensures
            *v == self.model()[i as int].1,
    {
        &self.vals[i]
    }

    /// Exchanges the value of the `i`-th entry with `value`.
    pub fn swap_value_at(&mut self, i: usize, value: &mut V)
        requires
            old(self).wf(),
            i < old(self).model().len(),
        ensures
            final(self).wf(),
            final(self).model() == old(self).model().update(
                i as int,
                (old(self).model()[i as int].0, *old(value)),
            ),
            *final(value) == old(self).model()[i as int].1,
    {
        let ghost s = self.model();
        std::mem::swap(&mut self.vals[i], value);
        proof {
            let t = self.model();
            assert(t =~= s.update(i as int, (s[i as int].0, *old(value))));
            assert forall|a: int, b: int| 0 <= a < b < t.len() implies bytes_lt(
                #[trigger] t[a].0,
                #[trigger] t[b].0,
            ) by {
                assert(t[a].0 == s[a].0 && t[b].0 == s[b].0);
            }
        }
    }

    /// Replaces the value of the `i`-th entry.
        /// Puts `value` under `key`, in place of an earlier value if there was one.
    pub fn insert(&mut self, key: Vec<u8>, value: V)
        requires
            old(self).wf(),
        ensures
            final(self).wf(),
            final(self).model() == put(old(self).model(), key@, value),
    {
        let ghost s = self.model();
        let (i, found) = self.find(&key);
        if found {
            self.vals[i] = value;
        } else {
            self.keys.insert(i, key);
            self.vals.insert(i, value);
        }
        proof {
            assert(self.model() =~= put(s, key@, value));
            lemma_put_sorted(s, key@, value);
        }
    }

    /// Takes out the entry under `key` and returns its value, if there was one.
    pub fn remove(&mut self, key: &Vec<u8>) -> (r: Option<V>)
        requires
            old(self).wf(),
        ensures
            final(self).wf(),
            final(self).model() == del(old(self).model(), key@),
            r == lookup(old(self).model(), key@),
    {
        let ghost s = self.model();
        let (i, found) = self.find(key);
        if found {
            self.keys.remove(i);
            let v = self.vals.remove(i);
            proof {
                assert(self.model() =~= del(s, key@));
                lemma_del_sorted(s, key@);
            }
            Some(v)
        } else {
            None
        }
    }

    /// Takes out every entry.
    pub fn clear(&mut self)
        ensures
            final(self).wf(),
            final(self).model() == Seq::<(Seq<u8>, V)>::empty(),
    {
        self.keys.clear();
        self.vals.clear();
        assert(self.model() =~= Seq::<(Seq<u8>, V)>::empty());
    }
}

} // verus!
