//! What a barrier can ask of the actors it passes, and the collections that it
//! names them with. Both collections are walked in ascending order.

use vstd::prelude::*;
use crate::bytes::append_bytes;
use crate::codec::{
    be32, be64, lemma_be32_val32, lemma_be64_val64, lemma_val32_be32, lemma_val64_be64, read_be32,
    read_be64, serialize_cell_idx, serialize_u64, val32, val64,
};
use crate::sorted_map::{
    has_key, lemma_has_key_iff, lemma_lookup_at, lemma_lookup_put, lemma_put_all, lemma_rank_bounds,
    lookup, put, SortedMap,
};

verus! {

pub type ActorId = u32;

pub type DispatcherId = u64;

/// Where an actor can be reached.
#[derive(Debug)]
pub struct HostAddress {
    pub host: String,
    pub port: i32,
}

/// An actor and where it can be reached.
#[derive(Debug)]
pub struct ActorInfo {
    pub actor_id: ActorId,
    pub host: Option<HostAddress>,
}

impl Clone for ActorInfo {
    fn clone(&self) -> (r: Self)
        ensures
            r == *self,
    {
        ActorInfo {
            actor_id: self.actor_id,
            host: match &self.host {
                Some(h) => Some(HostAddress { host: h.host.clone(), port: h.port }),
                None => None,
            },
        }
    }
}

/// A copy of the actors of `infos`.
pub fn clone_infos(infos: &Vec<ActorInfo>) -> (r: Vec<ActorInfo>)
    ensures
        r@ == infos@,
{
    let mut out: Vec<ActorInfo> = Vec::new();
    let mut i: usize = 0;
    while i < infos.len()
        invariant
            i <= infos.len(),
            out@ == infos@.subrange(0, i as int),
        decreases infos.len() - i,
    {
        out.push(infos[i].clone());
        assert(out@ == infos@.subrange(0, i + 1));
        i += 1;
    }
    assert(infos@.subrange(0, infos@.len() as int) == infos@);
    out
}

pub open spec fn key_len(n: nat) -> spec_fn((Seq<u8>, ())) -> bool {
    |e: (Seq<u8>, ())| e.0.len() == n
}

/// A set of actors.
#[derive(Debug)]
pub struct ActorSet {
    ids: SortedMap<()>,
}

impl View for ActorSet {
    type V = Set<ActorId>;

    closed spec fn view(&self) -> Set<ActorId> {
        Set::new(|a: ActorId| has_key(self.ids.model(), be32(a as nat)))
    }
}

impl ActorSet {
    pub closed spec fn wf(&self) -> bool {
        &&& self.ids.wf()
        &&& forall|i: int|
            0 <= i < self.ids.model().len() ==> key_len(4)(#[trigger] self.ids.model()[i])
    }

    /// The actors of the set in ascending order, each once.
    pub closed spec fn elements(&self) -> Seq<ActorId> {
        Seq::new(self.ids.model().len(), |i: int| val32(self.ids.model()[i].0) as u32)
    }

    /// The elements are the members, each once.
    pub proof fn lemma_elements(&self, a: ActorId)
        requires
            self.wf(),
        ensures
            self.elements().contains(a) <==> self@.contains(a),
            forall|i: int, j: int|
                0 <= i < j < self.elements().len() ==> self.elements()[i] != self.elements()[j],
    {
        let m = self.ids.model();
        let el = self.elements();
        self.ids.lemma_wf_sorted();
        lemma_has_key_iff(m, be32(a as nat));
        lemma_be32_val32(a as nat);
        assert forall|i: int| 0 <= i < m.len() implies be32(el[i] as nat) == (#[trigger] m[i]).0 by {
            assert(key_len(4)(m[i]));
            lemma_val32_be32(m[i].0);
        }
        if el.contains(a) {
            let i = choose|i: int| 0 <= i < el.len() && el[i] == a;
            assert(m[i].0 == be32(a as nat));
        }
        if self@.contains(a) {
            let i = choose|i: int| 0 <= i < m.len() && #[trigger] m[i].0 == be32(a as nat);
            assert(el[i] == a);
        }
        assert forall|i: int, j: int| 0 <= i < j < el.len() implies el[i] != el[j] by {
            lemma_lookup_at(m, i);
            lemma_lookup_at(m, j);
            assert(be32(el[i] as nat) == m[i].0);
            assert(be32(el[j] as nat) == m[j].0);
        }
    }

    /// The empty set.
    pub fn new() -> (s: Self)
        ensures
            s.wf(),
            s@ == Set::<ActorId>::empty(),
            s.elements() == Seq::<ActorId>::empty(),
    {
        let s = ActorSet { ids: SortedMap::new() };
        proof {
            assert forall|a: ActorId| !s@.contains(a) by {
                lemma_rank_bounds(s.ids.model(), be32(a as nat));
            }
            assert(s@ =~= Set::<ActorId>::empty());
            assert(s.elements() =~= Seq::<ActorId>::empty());
        }
        s
    }

    pub fn len(&self) -> (n: usize)
        requires
            self.wf(),
        ensures
            n == self.elements().len(),
    {
        self.ids.len()
    }

    pub fn contains(&self, actor: ActorId) -> (r: bool)
        requires
            self.wf(),
        ensures
            r == self@.contains(actor),
    {
        let key = serialize_cell_idx(actor);
        self.ids.contains_key(&key)
    }

    pub fn insert(&mut self, actor: ActorId)
        requires
            old(self).wf(),
        ensures
            final(self).wf(),
            final(self)@ == old(self)@.insert(actor),
    {
        let key = serialize_cell_idx(actor);
        proof {
            let m = self.ids.model();
            self.ids.lemma_wf_sorted();
            lemma_put_all(m, key@, (), key_len(4));
            assert forall|b: ActorId|
                has_key(put(m, key@, ()), be32(b as nat)) == (b == actor || has_key(
                    m,
                    be32(b as nat),
                )) by {
                lemma_lookup_put(m, key@, (), be32(b as nat));
                lemma_be32_val32(b as nat);
                lemma_be32_val32(actor as nat);
            }
        }
        self.ids.insert(key, ());
        assert(self@ =~= old(self)@.insert(actor));
    }

    /// The set of the actors of `actors`.
    pub fn from_vec(actors: &Vec<ActorId>) -> (s: Self)
        ensures
            s.wf(),
            s@ == actors@.to_set(),
    {
        let mut s = ActorSet::new();
        let mut i: usize = 0;
        while i < actors.len()
            invariant
                i <= actors.len(),
                s.wf(),
                s@ == actors@.subrange(0, i as int).to_set(),
            decreases actors.len() - i,
        {
            s.insert(actors[i]);
            proof {
                let a = actors@.subrange(0, i as int);
                let b = actors@.subrange(0, i + 1);
                assert(b =~= a.push(actors@[i as int]));
                assert forall|x: ActorId| b.to_set().contains(x) == a.to_set().insert(
                    actors@[i as int],
                ).contains(x) by {
                    if b.contains(x) {
                        let k = choose|k: int| 0 <= k < b.len() && b[k] == x;
                        if k < i {
                            assert(a[k] == x);
                        }
                    }
                    if a.contains(x) {
                        let k = choose|k: int| 0 <= k < a.len() && a[k] == x;
                        assert(b[k] == x);
                    }
                    assert(b[i as int] == actors@[i as int]);
                }
                assert(b.to_set() =~= a.to_set().insert(actors@[i as int]));
            }
            i += 1;
        }
        assert(actors@.subrange(0, actors@.len() as int) == actors@);
        s
    }

    /// The actors of the set in ascending order.
    pub fn to_vec(&self) -> (out: Vec<ActorId>)
        requires
            self.wf(),
        ensures
            out@ == self.elements(),
    {
        let mut out: Vec<ActorId> = Vec::new();
        let n = self.ids.len();
        let mut i: usize = 0;
        while i < n
            invariant
                i <= n,
                self.wf(),
                n == self.ids.model().len(),
                out@ == self.elements().subrange(0, i as int),
            decreases n - i,
        {
            let key = self.ids.key_at(i);
            proof {
                assert(key_len(4)(self.ids.model()[i as int]));
                assert(key@.subrange(0, 4) == key@);
            }
            out.push(read_be32(key, 0));
            assert(out@ =~= self.elements().subrange(0, i + 1));
            i += 1;
        }
        assert(self.elements().subrange(0, n as int) == self.elements());
        out
    }
}

/// The key of a dispatcher: the actor it belongs to and its own id.
pub open spec fn dispatcher_key(actor: ActorId, dispatcher: DispatcherId) -> Seq<u8> {
    be32(actor as nat) + be64(dispatcher as nat)
}

pub open spec fn dispatcher_key_ok() -> spec_fn((Seq<u8>, Vec<ActorInfo>)) -> bool {
    |e: (Seq<u8>, Vec<ActorInfo>)| e.0.len() == 12
}

/// The dispatcher that a key of twelve bytes names, with the actors under it.
pub open spec fn dispatcher_entry(e: (Seq<u8>, Vec<ActorInfo>)) -> (
    ActorId,
    DispatcherId,
    Seq<ActorInfo>,
) {
    (val32(e.0.subrange(0, 4)) as u32, val64(e.0.subrange(4, 12)) as u64, e.1@)
}

proof fn lemma_dispatcher_key(actor: ActorId, dispatcher: DispatcherId)
    ensures
        dispatcher_key(actor, dispatcher).len() == 12,
        val32(dispatcher_key(actor, dispatcher).subrange(0, 4)) == actor,
        val64(dispatcher_key(actor, dispatcher).subrange(4, 12)) == dispatcher,
{
    let k = dispatcher_key(actor, dispatcher);
    lemma_be32_val32(actor as nat);
    lemma_be64_val64(dispatcher as nat);
    assert(k.subrange(0, 4) =~= be32(actor as nat));
    assert(k.subrange(4, 12) =~= be64(dispatcher as nat));
}

proof fn lemma_key_of_entry(k: Seq<u8>)
    requires
        k.len() == 12,
    ensures
        k == dispatcher_key(val32(k.subrange(0, 4)) as u32, val64(k.subrange(4, 12)) as u64),
{
    lemma_val32_be32(k.subrange(0, 4));
    lemma_val64_be64(k.subrange(4, 12));
    assert(k =~= k.subrange(0, 4) + k.subrange(4, 12));
}

/// The actors that each of a set of dispatchers sends to.
#[derive(Debug)]
pub struct DispatcherMap {
    entries: SortedMap<Vec<ActorInfo>>,
}

impl View for DispatcherMap {
    type V = Map<(ActorId, DispatcherId), Seq<ActorInfo>>;

    closed spec fn view(&self) -> Map<(ActorId, DispatcherId), Seq<ActorInfo>> {
        Map::new(
            |k: (ActorId, DispatcherId)| has_key(self.entries.model(), dispatcher_key(k.0, k.1)),
            |k: (ActorId, DispatcherId)|
                lookup(self.entries.model(), dispatcher_key(k.0, k.1)).unwrap()@,
        )
    }
}

impl DispatcherMap {
    pub closed spec fn wf(&self) -> bool {
        &&& self.entries.wf()
        &&& forall|i: int|
            0 <= i < self.entries.model().len() ==> dispatcher_key_ok()(
                #[trigger] self.entries.model()[i],
            )
    }

    /// The dispatchers with their actors, by ascending actor and dispatcher, each once.
    pub closed spec fn elements(&self) -> Seq<(ActorId, DispatcherId, Seq<ActorInfo>)> {
        Seq::new(self.entries.model().len(), |i: int| dispatcher_entry(self.entries.model()[i]))
    }

    /// The elements are the pairs of the map.
    pub proof fn lemma_elements(&self, actor: ActorId, dispatcher: DispatcherId)
        requires
            self.wf(),
        ensures
            self@.dom().contains((actor, dispatcher)) <==> exists|i: int|
                0 <= i < self.elements().len() && (#[trigger] self.elements()[i]).0 == actor
                    && self.elements()[i].1 == dispatcher,
            forall|i: int|
                0 <= i < self.elements().len() ==> self@.dom().contains(
                    ((#[trigger] self.elements()[i]).0, self.elements()[i].1),
                ) && self@[(self.elements()[i].0, self.elements()[i].1)] == self.elements()[i].2,
    {
        let m = self.entries.model();
        let el = self.elements();
        let key = dispatcher_key(actor, dispatcher);
        self.entries.lemma_wf_sorted();
        lemma_has_key_iff(m, key);
        lemma_dispatcher_key(actor, dispatcher);
        assert forall|i: int| 0 <= i < el.len() implies self@.dom().contains(
            ((#[trigger] el[i]).0, el[i].1),
        ) && self@[(el[i].0, el[i].1)] == el[i].2 by {
            assert(dispatcher_key_ok()(m[i]));
            lemma_key_of_entry(m[i].0);
            lemma_lookup_at(m, i);
        }
        if self@.dom().contains((actor, dispatcher)) {
            let i = choose|i: int| 0 <= i < m.len() && #[trigger] m[i].0 == key;
            assert(el[i].0 == actor && el[i].1 == dispatcher);
        }
        if exists|i: int| 0 <= i < el.len() && (#[trigger] el[i]).0 == actor && el[i].1 == dispatcher {
            let i = choose|i: int|
                0 <= i < el.len() && (#[trigger] el[i]).0 == actor && el[i].1 == dispatcher;
            assert(self@.dom().contains((el[i].0, el[i].1)));
        }
    }

    /// The map without dispatchers.
    pub fn new() -> (s: Self)
        ensures
            s.wf(),
            s@ == Map::<(ActorId, DispatcherId), Seq<ActorInfo>>::empty(),
            s.elements() == Seq::<(ActorId, DispatcherId, Seq<ActorInfo>)>::empty(),
    {
        let s = DispatcherMap { entries: SortedMap::new() };
        proof {
            assert forall|k: (ActorId, DispatcherId)| !s@.dom().contains(k) by {
                lemma_rank_bounds(s.entries.model(), dispatcher_key(k.0, k.1));
            }
            assert(s@ =~= Map::<(ActorId, DispatcherId), Seq<ActorInfo>>::empty());
            assert(s.elements() =~= Seq::<(ActorId, DispatcherId, Seq<ActorInfo>)>::empty());
        }
        s
    }

    /// The number of dispatchers.
    pub fn len(&self) -> (n: usize)
        requires
            self.wf(),
        ensures
            n == self.elements().len(),
    {
        self.entries.len()
    }

    /// Puts `infos` under the dispatcher, in place of what was under it.
    pub fn insert(&mut self, actor: ActorId, dispatcher: DispatcherId, infos: Vec<ActorInfo>)
        requires
            old(self).wf(),
        ensures
            final(self).wf(),
            final(self)@ == old(self)@.insert((actor, dispatcher), infos@),
    {
        let mut key = serialize_cell_idx(actor);
        let tail = serialize_u64(dispatcher);
        append_bytes(&mut key, &tail);
        proof {
            let m = self.entries.model();
            self.entries.lemma_wf_sorted();
            lemma_dispatcher_key(actor, dispatcher);
            lemma_put_all(m, key@, infos, dispatcher_key_ok());
            assert forall|k: (ActorId, DispatcherId)|
                lookup(put(m, key@, infos), dispatcher_key(k.0, k.1)) == if k == (
                    actor,
                    dispatcher,
                ) {
                    Some(infos)
                } else {
                    lookup(m, dispatcher_key(k.0, k.1))
                } by {
                lemma_lookup_put(m, key@, infos, dispatcher_key(k.0, k.1));
                lemma_dispatcher_key(k.0, k.1);
            }
        }
        self.entries.insert(key, infos);
        assert(self@ =~= old(self)@.insert((actor, dispatcher), infos@));
    }

    /// The dispatcher at position `i` of the elements.
    pub fn entry_at(&self, i: usize) -> (e: (ActorId, DispatcherId, &Vec<ActorInfo>))
        requires
            self.wf(),
            i < self.elements().len(),
        ensures
            (e.0, e.1, e.2@) == self.elements()[i as int],
    {
        let key = self.entries.key_at(i);
        proof {
            assert(dispatcher_key_ok()(self.entries.model()[i as int]));
        }
        (read_be32(key, 0), read_be64(key, 4), self.entries.value_at(i))
    }
}

/// What a barrier asks of the actors it passes.
#[derive(Debug)]
pub enum Mutation {
    /// The actors of the set stop.
    Stop(ActorSet),
    /// The dispatchers send to the actors given, in place of those they sent to.
    UpdateOutputs(DispatcherMap),
    /// The dispatchers send to the actors given as well.
    AddOutput(DispatcherMap),
}

impl Mutation {
    pub open spec fn wf(&self) -> bool {
        match self {
            Mutation::Stop(actors) => actors.wf(),
            Mutation::UpdateOutputs(map) => map.wf(),
            Mutation::AddOutput(map) => map.wf(),
        }
    }

    /// Return true if the mutation is stop.
    ///
    /// Note that this does not mean we will stop the current actor.
    pub fn is_stop(&self) -> (r: bool)
        ensures
            r == (self is Stop),
    {
        matches!(self, Mutation::Stop(_))
    }
}

} // verus!
