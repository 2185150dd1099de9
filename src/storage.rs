//! Sparse-set component storage.
//!
//! A `SparseSet<T>` maps entity ids to values of `T`. The values live in a
//! dense vector (no holes), `entities` records which id owns each dense slot,
//! and `sparse` maps an id back to its dense slot.

use vstd::prelude::*;
use crate::directory::split_mut;

verus! {

/// Component storage with O(1) insert, lookup and swap-remove.
pub struct SparseSet<T> {
    pub(crate) sparse: Vec<Option<usize>>,
    pub(crate) dense: Vec<T>,
    pub(crate) entities: Vec<u32>,
}

impl<T> View for SparseSet<T> {
    type V = Map<u32, T>;

    /// The stored values, by entity id.
    open spec fn view(&self) -> Map<u32, T> {
        Map::new(
            |id: u32| self.spec_slot(id) is Some,
            |id: u32| self.values()[self.spec_slot(id)->0 as int],
        )
    }
}

impl<T> SparseSet<T> {
    /// The dense slot recorded for `id`, if any.
    pub open(crate) spec fn spec_slot(&self, id: u32) -> Option<usize> {
        if (id as int) < self.sparse@.len() {
            self.sparse@[id as int]
        } else {
            None
        }
    }

    /// Entity ids in dense order.
    pub open(crate) spec fn ids(&self) -> Seq<u32> {
        self.entities@
    }

    /// Stored values in dense order.
    pub open(crate) spec fn values(&self) -> Seq<T> {
        self.dense@
    }

    /// The sparse and dense sides agree: every dense slot is owned by exactly
    /// the id whose sparse entry points at it.
    pub open(crate) spec fn wf(&self) -> bool {
        &&& self.entities@.len() == self.dense@.len()
        &&& forall|k: int|
            0 <= k < self.entities@.len() ==> {
                &&& self.spec_slot(#[trigger] self.entities@[k]) is Some
                &&& self.spec_slot(self.entities@[k])->0 as int == k
            }
        &&& forall|i: int|
            0 <= i < self.sparse@.len() && (#[trigger] self.sparse@[i]) is Some ==> {
                &&& (self.sparse@[i]->0 as int) < self.entities@.len()
                &&& self.entities@[self.sparse@[i]->0 as int] as int == i
            }
    }

    /// Creates an empty storage.
    pub fn new() -> (r: Self)
        ensures
            r.wf(),
            r@ == Map::<u32, T>::empty(),
            r.ids() == Seq::<u32>::empty(),
    {
        let r = SparseSet { sparse: Vec::new(), dense: Vec::new(), entities: Vec::new() };
        assert(r@ =~= Map::<u32, T>::empty());
        r
    }

    fn slot(&self, entity_id: u32) -> (r: Option<usize>)
        ensures
            r == self.spec_slot(entity_id),
    {
        let id = entity_id as usize;
        if id >= self.sparse.len() {
            None
        } else {
            self.sparse[id]
        }
    }

    /// Inserts `value` for `entity_id`, replacing the value it had.
    ///
    /// A new id is appended at the end of the dense order; a present id keeps
    /// its place.
    pub fn insert(&mut self, entity_id: u32, value: T)
        requires
            old(self).wf(),
        ensures
            final(self).wf(),
            final(self)@ == old(self)@.insert(entity_id, value),
            old(self)@.contains_key(entity_id) ==> final(self).ids() == old(self).ids(),
            !old(self)@.contains_key(entity_id) ==> final(self).ids() == old(self).ids().push(
                entity_id,
            ),
    {
        let id = entity_id as usize;
        while self.sparse.len() <= id
            invariant
                self.wf(),
                self@ == old(self)@,
                self.ids() == old(self).ids(),
                self.dense@ == old(self).dense@,
            decreases id + 1 - self.sparse.len(),
        {
            self.sparse.push(None);
            assert(self@ =~= old(self)@);
        }
        match self.sparse[id] {
            Some(dense_idx) => {
                self.dense.set(dense_idx, value);
                assert(self@ =~= old(self)@.insert(entity_id, value));
            },
            None => {
                let dense_idx = self.dense.len();
                self.sparse.set(id, Some(dense_idx));
                self.dense.push(value);
                self.entities.push(entity_id);
                assert(self@ =~= old(self)@.insert(entity_id, value));
            },
        }
    }

    /// The value stored for `entity_id`, if any.
    pub fn get(&self, entity_id: u32) -> (r: Option<&T>)
        requires
            self.wf(),
        ensures
            r is Some <==> self@.contains_key(entity_id),
            r is Some ==> *r->0 == self@[entity_id],
    {
        match self.slot(entity_id) {
            Some(dense_idx) => Some(&self.dense[dense_idx]),
            None => None,
        }
    }

    /// A mutable reference to the value stored for `entity_id`, if any.
    pub fn get_mut(&mut self, entity_id: u32) -> (r: Option<&mut T>)
        requires
            old(self).wf(),
        ensures
            r is Some <==> old(self)@.contains_key(entity_id),
            r is Some ==> {
                &&& *r->0 == old(self)@[entity_id]
                &&& final(self)@ == old(self)@.insert(entity_id, *final(r->0))
                &&& final(self).wf()
                &&& final(self).ids() == old(self).ids()
            },
            r is None ==> *final(self) == *old(self),
    {
        match self.slot(entity_id) {
            Some(dense_idx) => {
                Some(&mut self.dense[dense_idx])
            },
            None => None,
        }
    }

    /// Removes and returns the value stored for `entity_id`.
    ///
    /// The last dense slot moves into the freed one, so the dense order of
    /// the other ids may change.
    pub fn remove(&mut self, entity_id: u32) -> (r: Option<T>)
        requires
            old(self).wf(),
        ensures
            final(self).wf(),
            r is Some <==> old(self)@.contains_key(entity_id),
            r is Some ==> r->0 == old(self)@[entity_id],
            final(self)@ == old(self)@.remove(entity_id),
            old(self).spec_slot(entity_id) matches Some(k) ==> final(self).ids() == old(
                self,
            ).ids().update(k as int, old(self).ids().last()).drop_last(),
            r is None ==> *final(self) == *old(self),
    {
        let id = entity_id as usize;
        let dense_idx = match self.slot(entity_id) {
            Some(k) => k,
            None => {
                return None;
            },
        };
        self.sparse.set(id, None);
        let last_pos = self.entities.len() - 1;
        let last_entity = self.entities[last_pos];
        if dense_idx < last_pos {
            self.entities.set(dense_idx, last_entity);
            self.sparse.set(last_entity as usize, Some(dense_idx));
        }
        self.entities.pop();
        let value = self.dense.swap_remove(dense_idx);
        assert(self@ =~= old(self)@.remove(entity_id));
        Some(value)
    }

    /// Whether a value is stored for `entity_id`.
    pub fn contains(&self, entity_id: u32) -> (r: bool)
        requires
            self.wf(),
        ensures
            r == self@.contains_key(entity_id),
    {
        self.slot(entity_id).is_some()
    }

    /// The `(entity id, value)` pairs in dense order.
    pub fn iter(&self) -> (r: Vec<(u32, &T)>)
        requires
            self.wf(),
        ensures
            r@.len() == self.ids().len(),
            forall|k: int|
                0 <= k < r@.len() ==> (#[trigger] r@[k]).0 == self.ids()[k] && *r@[k].1
                    == self.values()[k],
    {
        let mut r: Vec<(u32, &T)> = Vec::new();
        let mut k: usize = 0;
        while k < self.dense.len()
            invariant
                self.wf(),
                k <= self.dense@.len(),
                r@.len() == k,
                forall|j: int|
                    0 <= j < k ==> (#[trigger] r@[j]).0 == self.ids()[j] && *r@[j].1
                        == self.values()[j],
            decreases self.dense@.len() - k,
        {
            r.push((self.entities[k], &self.dense[k]));
            k = k + 1;
        }
        r
    }

    /// The `(entity id, value)` pairs in dense order, with mutable access to
    /// the values.
    pub fn iter_mut(&mut self) -> (r: Vec<(u32, &mut T)>)
        requires
            old(self).wf(),
        ensures
            r@.len() == old(self).ids().len(),
            forall|k: int|
                0 <= k < r@.len() ==> (#[trigger] r@[k]).0 == old(self).ids()[k] && *r@[k].1
                    == old(self).values()[k],
            final(self).wf(),
            final(self).ids() == old(self).ids(),
            final(self).values() == r@.map_values(|p: (u32, &mut T)| *final(p.1)),
    {
        let ghost fin = final(self).values();
        let SparseSet { sparse, dense, entities } = self;
        let refs = split_mut(dense.as_mut_slice());
        let ghost orig = refs@;
        let n = entities.len();
        let mut refs = refs;
        let mut rev: Vec<(u32, &mut T)> = Vec::new();
        while refs.len() > 0
            invariant
                n == entities@.len(),
                refs@.len() + rev@.len() == n,
                orig.len() == n,
                forall|p: int| 0 <= p < refs@.len() ==> refs@[p] == orig[p],
                forall|p: int|
                    0 <= p < rev@.len() ==> (#[trigger] rev@[p]).0 == entities@[n - 1 - p] && *rev@[p].1 == *orig[n - 1 - p] && *final(rev@[p].1) == *final(orig[n - 1 - p]),
            decreases refs@.len(),
        {
            let x = refs.pop().unwrap();
            let k = refs.len();
            rev.push((entities[k], x));
        }
        let mut out: Vec<(u32, &mut T)> = Vec::new();
        while rev.len() > 0
            invariant
                n == entities@.len(),
                out@.len() + rev@.len() == n,
                orig.len() == n,
                forall|p: int|
                    0 <= p < rev@.len() ==> (#[trigger] rev@[p]).0 == entities@[n - 1 - p] && *rev@[p].1 == *orig[n - 1 - p] && *final(rev@[p].1) == *final(orig[n - 1 - p]),
                forall|p: int|
                    0 <= p < out@.len() ==> (#[trigger] out@[p]).0 == entities@[p] && *out@[p].1 == *orig[p] && *final(out@[p].1) == *final(orig[p]),
            decreases rev@.len(),
        {
            let x = rev.pop().unwrap();
            out.push(x);
        }
        proof {
            assert(fin =~= out@.map_values(|p: (u32, &mut T)| *final(p.1)));
        }
        out
    }

    /// The entity ids in dense order, matching the order of the values.
    pub fn entities(&self) -> (r: &[u32])
        ensures
            r@ == self.ids(),
    {
        self.entities.as_slice()
    }

    /// The number of stored values.
    pub fn len(&self) -> (r: usize)
        requires
            self.wf(),
        ensures
            r == self.ids().len(),
            r == self@.len(),
    {
        proof {
            self.lemma_len();
        }
        self.dense.len()
    }

    /// Whether nothing is stored.
    pub fn is_empty(&self) -> (r: bool)
        requires
            self.wf(),
        ensures
            r == (self@.len() == 0),
            r == (self.ids().len() == 0),
    {
        proof {
            self.lemma_len();
        }
        self.dense.len() == 0
    }

    /// The ids in dense order are exactly the keys of the map, each once.
    pub proof fn lemma_ids(&self)
        requires
            self.wf(),
        ensures
            self.ids().no_duplicates(),
            self.ids().to_set() == self@.dom(),
            forall|k: int| 0 <= k < self.ids().len() ==> self@[#[trigger] self.ids()[k]] == self.values()[k],
    {
        assert forall|a: int, b: int|
            0 <= a < self.ids().len() && 0 <= b < self.ids().len() && a != b implies self.ids()[a]
            != self.ids()[b] by {
            assert(self.spec_slot(self.entities@[a])->0 as int == a);
            assert(self.spec_slot(self.entities@[b])->0 as int == b);
        }
        assert forall|k: int| 0 <= k < self.ids().len() implies self@[#[trigger] self.ids()[k]]
            == self.values()[k] by {
            assert(self.spec_slot(self.entities@[k])->0 as int == k);
        }
        assert forall|id: u32| self@.dom().contains(id) implies self.ids().to_set().contains(id) by {
            let k = self.spec_slot(id)->0 as int;
            assert(self.sparse@[id as int] is Some);
            assert(self.ids()[k] == id);
        }
        assert(self.ids().to_set() =~= self@.dom());
    }

    /// The map holds one entry per dense slot.
    pub proof fn lemma_len(&self)
        requires
            self.wf(),
        ensures
            self@.len() == self.ids().len(),
            self@.dom().finite(),
    {
        self.lemma_ids();
        self.ids().unique_seq_to_set();
    }
}

impl<T> Default for SparseSet<T> {
    fn default() -> (r: Self)
        ensures
            r.wf(),
            r@ == Map::<u32, T>::empty(),
    {
        SparseSet::new()
    }
}

/// What any component storage offers without naming its component type:
/// membership, removal and the list of ids.
pub trait Storage {
    /// The ids with a stored value.
    spec fn stored(&self) -> Set<u32>;

    /// Internal consistency.
    spec fn valid(&self) -> bool;

    /// Removes the value of `entity_id`; returns whether there was one.
    fn remove(&mut self, entity_id: u32) -> (r: bool)
        requires
            old(self).valid(),
        ensures
            final(self).valid(),
            r == old(self).stored().contains(entity_id),
            final(self).stored() == old(self).stored().remove(entity_id);

    /// Whether `entity_id` has a stored value.
    fn contains(&self, entity_id: u32) -> (r: bool)
        requires
            self.valid(),
        ensures
            r == self.stored().contains(entity_id);

    /// The ids with a stored value, each once.
    fn entity_ids(&self) -> (r: &[u32])
        requires
            self.valid(),
        ensures
            r@.no_duplicates(),
            r@.to_set() == self.stored();
}

impl<T> Storage for SparseSet<T> {
    open spec fn stored(&self) -> Set<u32> {
        self@.dom()
    }

    open spec fn valid(&self) -> bool {
        self.wf()
    }

    fn remove(&mut self, entity_id: u32) -> (r: bool) {
        let removed = SparseSet::remove(self, entity_id);
        proof {
            assert(final(self)@.dom() =~= old(self)@.dom().remove(entity_id));
        }
        removed.is_some()
    }

    fn contains(&self, entity_id: u32) -> (r: bool) {
        SparseSet::contains(self, entity_id)
    }

    fn entity_ids(&self) -> (r: &[u32]) {
        proof {
            self.lemma_ids();
        }
        self.entities()
    }
}

} // verus!
