//! The storage directory: one sparse set per component-type key.
//!
//! Component types are named by `u32` keys that the caller assigns, one per
//! type. The directory creates a storage the first time a key is used and
//! never holds two storages under one key.

use vstd::prelude::*;
use crate::storage::SparseSet;

verus! {

/// Every storage of `m` with entity `id` taken out.
pub open spec fn without_entity<C>(m: Map<u32, Map<u32, C>>, id: u32) -> Map<u32, Map<u32, C>> {
    Map::new(|key: u32| m.contains_key(key), |key: u32| m[key].remove(id))
}

/// `a` and `b` have storages under the same keys, and each storage holds
/// values for the same entity ids.
pub open spec fn same_shape<C>(a: Map<u32, Map<u32, C>>, b: Map<u32, Map<u32, C>>) -> bool {
    &&& a.dom() == b.dom()
    &&& forall|key: u32| #[trigger] a.contains_key(key) ==> a[key].dom() == b[key].dom()
}

/// `m` with the value of entity `id` under `keys[j]` replaced by `vals[j]`,
/// for each `j`.
pub open spec fn with_row<C>(m: Map<u32, Map<u32, C>>, keys: Seq<u32>, id: u32, vals: Seq<C>) -> Map<
    u32,
    Map<u32, C>,
> {
    Map::new(
        |key: u32| m.contains_key(key),
        |key: u32|
            if keys.contains(key) {
                m[key].insert(id, vals[keys.index_of(key)])
            } else {
                m[key]
            },
    )
}

/// Splits `s` into one mutable reference per element.
pub(crate) fn split_mut<'a, T>(s: &'a mut [T]) -> (r: Vec<&'a mut T>)
    ensures
        r@.len() == old(s)@.len(),
        forall|i: int| 0 <= i < r@.len() ==> *r@[i] == old(s)@[i],
        final(s)@ == r@.map_values(|x: &mut T| *final(x)),
{
    let ghost fin = final(s)@;
    let ghost start = old(s)@;
    let mut out: Vec<&'a mut T> = Vec::new();
    let mut rest: &'a mut [T] = s;
    let ghost n = start.len();
    while rest.len() > 0
        invariant
            out@.len() + rest@.len() == n,
            forall|i: int| 0 <= i < out@.len() ==> *out@[i] == start[i],
            forall|i: int| 0 <= i < rest@.len() ==> rest@[i] == start[out@.len() + i],
            fin == out@.map_values(|x: &mut T| *final(x)) + final(rest)@,
        decreases rest@.len(),
    {
        let (head, tail) = rest.split_at_mut(1);
        let h = head.first_mut().unwrap();
        out.push(h);
        rest = tail;
    }
    out
}

/// Sparse sets of components, one per component-type key.
pub struct StorageDirectory<C> {
    pub(crate) keys: Vec<u32>,
    pub(crate) sets: Vec<SparseSet<C>>,
}

impl<C> View for StorageDirectory<C> {
    type V = Map<u32, Map<u32, C>>;

    /// For each key with a storage, the values stored there by entity id.
    open spec fn view(&self) -> Map<u32, Map<u32, C>> {
        Map::new(
            |key: u32| self.key_seq().contains(key),
            |key: u32| self.set_seq()[self.key_seq().index_of(key)]@,
        )
    }
}

impl<C> StorageDirectory<C> {
    pub open(crate) spec fn key_seq(&self) -> Seq<u32> {
        self.keys@
    }

    pub open(crate) spec fn set_seq(&self) -> Seq<SparseSet<C>> {
        self.sets@
    }

    /// Keys are unique, one storage per key, every storage well formed.
    pub open(crate) spec fn wf(&self) -> bool {
        &&& self.keys@.len() == self.sets@.len()
        &&& self.keys@.no_duplicates()
        &&& forall|i: int| 0 <= i < self.sets@.len() ==> (#[trigger] self.sets@[i]).wf()
    }

    /// The entity ids stored under `key`, in dense order (none without a
    /// storage).
    pub open(crate) spec fn ids_of(&self, key: u32) -> Seq<u32> {
        if self.keys@.contains(key) {
            self.sets@[self.keys@.index_of(key)].ids()
        } else {
            Seq::empty()
        }
    }

    /// The storage for `key` (empty when the key has none yet).
    pub open(crate) spec fn storage_of(&self, key: u32) -> Map<u32, C> {
        if self@.contains_key(key) {
            self@[key]
        } else {
            Map::empty()
        }
    }

    pub(crate) proof fn lemma_position(&self, p: int)
        requires
            self.wf(),
            0 <= p < self.keys@.len(),
        ensures
            self.keys@.index_of(self.keys@[p]) == p,
            self@.contains_key(self.keys@[p]),
            self@[self.keys@[p]] == self.sets@[p]@,
    {
        let k = self.keys@[p];
        assert(self.keys@.contains(k));
        let q = self.keys@.index_of(k);
        assert(self.keys@[q] == k);
    }

    /// Creates a directory with no storages.
    pub fn new() -> (r: Self)
        ensures
            r.wf(),
            r@ == Map::<u32, Map<u32, C>>::empty(),
    {
        let r = StorageDirectory { keys: Vec::new(), sets: Vec::new() };
        assert(r@ =~= Map::<u32, Map<u32, C>>::empty());
        r
    }

    fn position(&self, key: u32) -> (r: Option<usize>)
        requires
            self.wf(),
        ensures
            r is Some <==> self@.contains_key(key),
            r matches Some(p) ==> p < self.keys@.len() && self.keys@[p as int] == key,
    {
        let mut i: usize = 0;
        while i < self.keys.len()
            invariant
                i <= self.keys@.len(),
                forall|j: int| 0 <= j < i ==> self.keys@[j] != key,
            decreases self.keys@.len() - i,
        {
            if self.keys[i] == key {
                return Some(i);
            }
            i = i + 1;
        }
        None
    }

    /// The storage for `key`, if one was created.
    pub fn get(&self, key: u32) -> (r: Option<&SparseSet<C>>)
        requires
            self.wf(),
        ensures
            r is Some <==> self@.contains_key(key),
            r matches Some(s) ==> s.wf() && s@ == self@[key] && *s == self.set_seq()[self.key_seq().index_of(key)],
    {
        match self.position(key) {
            Some(p) => {
                proof {
                    self.lemma_position(p as int);
                }
                Some(&self.sets[p])
            },
            None => None,
        }
    }

    /// Stores `value` for entity `id` under `key`, creating the storage for
    /// `key` on first use.
    pub fn insert(&mut self, key: u32, id: u32, value: C)
        requires
            old(self).wf(),
        ensures
            final(self).wf(),
            final(self)@ == old(self)@.insert(key, old(self).storage_of(key).insert(id, value)),
    {
        match self.position(key) {
            Some(p) => {
                proof {
                    self.lemma_position(p as int);
                }
                let set = &mut self.sets[p];
                set.insert(id, value);
                proof {
                    assert forall|q: int| 0 <= q < self.keys@.len() && q != p implies #[trigger] self.keys@[q] != key by {}
                }
            },
            None => {
                let mut set = SparseSet::new();
                set.insert(id, value);
                self.keys.push(key);
                self.sets.push(set);
                proof {
                    assert(self.keys@.no_duplicates()) by {
                        assert(!old(self).keys@.contains(key));
                    }
                }
            },
        }
        proof {
            assert forall|k: u32| #[trigger] self@.contains_key(k) implies self@[k] == old(self)@.insert(key, old(self).storage_of(key).insert(id, value))[k] by {
                let q = self.keys@.index_of(k);
                assert(self.keys@.contains(k));
                self.lemma_position(q);
                if k != key {
                    assert(old(self).keys@.contains(k)) by {
                        assert(old(self).keys@[q] == k);
                    }
                    old(self).lemma_position(q);
                } else {
                }
            }
            assert forall|k: u32| old(self)@.insert(key, old(self).storage_of(key).insert(id, value)).contains_key(k) implies #[trigger] self@.contains_key(k) by {
                if k == key {
                    if old(self).keys@.contains(key) {
                        let q = old(self).keys@.index_of(key);
                        assert(self.keys@[q] == key);
                    } else {
                        assert(self.keys@[old(self).keys@.len() as int] == key);
                    }
                } else {
                    let q = old(self).keys@.index_of(k);
                    assert(self.keys@[q] == k);
                }
            }
            assert(self@ =~= old(self)@.insert(key, old(self).storage_of(key).insert(id, value)));
        }
    }

    /// Replacing the storage at one position changes the view at its key only.
    pub(crate) proof fn lemma_update(old_dir: &Self, new_dir: &Self, p: int)
        requires
            old_dir.wf(),
            0 <= p < old_dir.keys@.len(),
            new_dir.keys@ == old_dir.keys@,
            new_dir.sets@ == old_dir.sets@.update(p, new_dir.sets@[p]),
            new_dir.sets@[p].wf(),
        ensures
            new_dir.wf(),
            new_dir@ == old_dir@.insert(old_dir.keys@[p], new_dir.sets@[p]@),
    {
        let key = old_dir.keys@[p];
        assert(new_dir.wf());
        assert forall|k: u32| #[trigger] new_dir@.contains_key(k) implies new_dir@[k] == old_dir@.insert(key, new_dir.sets@[p]@)[k] by {
            let q = new_dir.keys@.index_of(k);
            assert(new_dir.keys@.contains(k));
            new_dir.lemma_position(q);
            old_dir.lemma_position(q);
        }
        assert(new_dir@ =~= old_dir@.insert(key, new_dir.sets@[p]@));
    }

    /// `lemma_update` for every directory that differs at one position.
    pub(crate) proof fn lemma_update_any(old_dir: &Self, p: int)
        requires
            old_dir.wf(),
            0 <= p < old_dir.keys@.len(),
        ensures
            forall|nd: Self|
                #![trigger nd.wf()]
                #![trigger nd.view()]
                nd.keys@ == old_dir.keys@ && nd.sets@ == old_dir.sets@.update(p, nd.sets@[p])
                    && nd.sets@[p].wf() ==> nd.wf() && nd@ == old_dir@.insert(
                    old_dir.keys@[p],
                    nd.sets@[p]@,
                ),
    {
        assert forall|nd: Self|
            nd.keys@ == old_dir.keys@ && nd.sets@ == old_dir.sets@.update(p, nd.sets@[p])
                && nd.sets@[p].wf() implies nd.wf() && nd@ == old_dir@.insert(
                old_dir.keys@[p],
                nd.sets@[p]@,
            ) by {
            Self::lemma_update(old_dir, &nd, p);
        }
    }

    /// Removes and returns the value stored for entity `id` under `key`.
    pub fn remove(&mut self, key: u32, id: u32) -> (r: Option<C>)
        requires
            old(self).wf(),
        ensures
            final(self).wf(),
            r is Some <==> old(self).storage_of(key).contains_key(id),
            r is Some ==> r->0 == old(self).storage_of(key)[id],
            r is Some ==> final(self)@ == old(self)@.insert(key, old(self)@[key].remove(id)),
            r is None ==> final(self)@ == old(self)@,
    {
        match self.position(key) {
            Some(p) => {
                proof {
                    self.lemma_position(p as int);
                }
                let set = &mut self.sets[p];
                let r = set.remove(id);
                proof {
                    Self::lemma_update(old(self), self, p as int);
                    if r is None {
                        assert(old(self)@.insert(key, self.sets@[p as int]@) =~= old(self)@);
                    }
                }
                r
            },
            None => None,
        }
    }

    /// The value stored for entity `id` under `key`, if any.
    pub fn get_value(&self, key: u32, id: u32) -> (r: Option<&C>)
        requires
            self.wf(),
        ensures
            r is Some <==> self.storage_of(key).contains_key(id),
            r is Some ==> *r->0 == self.storage_of(key)[id],
    {
        match self.get(key) {
            Some(set) => set.get(id),
            None => None,
        }
    }

    /// Whether a value is stored for entity `id` under `key`.
    pub fn contains(&self, key: u32, id: u32) -> (r: bool)
        requires
            self.wf(),
        ensures
            r == self.storage_of(key).contains_key(id),
    {
        match self.get(key) {
            Some(set) => set.contains(id),
            None => false,
        }
    }

    /// A mutable reference to the value stored for entity `id` under `key`.
    pub fn get_value_mut(&mut self, key: u32, id: u32) -> (r: Option<&mut C>)
        requires
            old(self).wf(),
        ensures
            r is Some <==> old(self).storage_of(key).contains_key(id),
            r is Some ==> {
                &&& *r->0 == old(self).storage_of(key)[id]
                &&& final(self).wf()
                &&& final(self)@ == old(self)@.insert(key, old(self)@[key].insert(id, *final(r->0)))
            },
            r is None ==> final(self).wf() && final(self)@ == old(self)@,
    {
        match self.position(key) {
            Some(p) => {
                proof {
                    self.lemma_position(p as int);
                }
                let set = &mut self.sets[p];
                let r = set.get_mut(id);
                proof {
                    Self::lemma_update_any(old(self), p as int);
                    assert(old(self)@.insert(key, old(self).sets@[p as int]@) =~= old(self)@);
                }
                r
            },
            None => None,
        }
    }

    /// Removes entity `id` from every storage.
    pub fn remove_all(&mut self, id: u32)
        requires
            old(self).wf(),
        ensures
            final(self).wf(),
            final(self)@ == without_entity(old(self)@, id),
    {
        let mut i: usize = 0;
        while i < self.sets.len()
            invariant
                self.wf(),
                old(self).wf(),
                i <= self.sets@.len(),
                self.keys@ == old(self).keys@,
                self.sets@.len() == old(self).sets@.len(),
                forall|q: int| 0 <= q < i ==> (#[trigger] self.sets@[q])@ == old(self).sets@[q]@.remove(id),
                forall|q: int| i <= q < self.sets@.len() ==> (#[trigger] self.sets@[q])@ == old(self).sets@[q]@,
            decreases self.sets@.len() - i,
        {
            let set = &mut self.sets[i];
            set.remove(id);
            i = i + 1;
        }
        proof {
            assert forall|k: u32| #[trigger] self@.contains_key(k) implies self@[k] == without_entity(old(self)@, id)[k] by {
                let q = self.keys@.index_of(k);
                assert(self.keys@.contains(k));
                self.lemma_position(q);
                old(self).lemma_position(q);
            }
            assert(self@ =~= without_entity(old(self)@, id));
        }
    }

    /// The entity ids stored under `key`, in dense order.
    pub fn entity_ids(&self, key: u32) -> (r: Option<&[u32]>)
        requires
            self.wf(),
        ensures
            r is Some <==> self@.contains_key(key),
            r matches Some(ids) ==> ids@.no_duplicates() && ids@.to_set() == self@[key].dom()
                && ids@ == self.ids_of(key),
            r is None ==> self.ids_of(key) == Seq::<u32>::empty(),
    {
        match self.get(key) {
            Some(set) => {
                proof {
                    set.lemma_ids();
                    let p = self.keys@.index_of(key);
                    assert(self.keys@.contains(key));
                    self.lemma_position(p);
                }
                Some(set.entities())
            },
            None => None,
        }
    }

    /// Mutable references to the values of entity `id` under each of `keys`,
    /// in key order. The keys are distinct, so the references are too.
    /// Whatever is written through them, the directory keeps its shape.
    pub fn row_mut<'b>(&'b mut self, keys: &Vec<u32>, id: u32) -> (r: Vec<&'b mut C>)
        requires
            old(self).wf(),
            keys@.no_duplicates(),
            forall|j: int| 0 <= j < keys@.len() ==> old(self).storage_of(#[trigger] keys@[j]).contains_key(id),
        ensures
            r@.len() == keys@.len(),
            forall|j: int| 0 <= j < keys@.len() ==> *(#[trigger] r@[j]) == old(self).storage_of(keys@[j])[id],
            final(self).wf(),
            final(self)@ == with_row(old(self)@, keys@, id, r@.map_values(|x: &mut C| *final(x))),
    {
        let ghost fin_dir = *final(self);
        let ghost old_dir = *old(self);
        let mut pos: Vec<usize> = Vec::new();
        let mut j: usize = 0;
        while j < keys.len()
            invariant
                self.wf(),
                *self == *old(self),
                forall|q: int| 0 <= q < keys@.len() ==> old(self).storage_of(#[trigger] keys@[q]).contains_key(id),
                j <= keys@.len(),
                pos@.len() == j,
                forall|q: int| 0 <= q < j ==> (#[trigger] pos@[q]) < self.keys@.len() && self.keys@[pos@[q] as int] == keys@[q],
            decreases keys@.len() - j,
        {
            assert(old(self).storage_of(keys@[j as int]).contains_key(id));
            let p = self.position(keys[j]).unwrap();
            pos.push(p);
            j = j + 1;
        }
        let ghost old_sets = self.sets@;
        let ghost n = old_sets.len();
        proof {
            assert forall|q1: int, q2: int| 0 <= q1 < pos@.len() && 0 <= q2 < pos@.len() && q1 != q2 implies pos@[q1] != pos@[q2] by {
                assert(keys@[q1] != keys@[q2]);
            }
            assert forall|q: int| 0 <= q < pos@.len() implies (#[trigger] old_sets[pos@[q] as int])@.contains_key(id) by {
                self.lemma_position(pos@[q] as int);
            }
        }
        let refs = split_mut(self.sets.as_mut_slice());
        let ghost orig = refs@;
        let mut refs = refs;
        let mut rev: Vec<&'b mut SparseSet<C>> = Vec::new();
        while refs.len() > 0
            invariant
                refs@.len() + rev@.len() == n,
                orig.len() == n,
                forall|p: int| 0 <= p < refs@.len() ==> refs@[p] == orig[p],
                forall|p: int|
                    0 <= p < rev@.len() ==> *(#[trigger] rev@[p]) == *orig[n - 1 - p] && *final(rev@[p]) == *final(orig[n - 1 - p]),
            decreases refs@.len(),
        {
            let x = refs.pop().unwrap();
            rev.push(x);
        }
        let mut slots: Vec<Option<&'b mut SparseSet<C>>> = Vec::new();
        while rev.len() > 0
            invariant
                slots@.len() + rev@.len() == n,
                orig.len() == n,
                forall|p: int|
                    0 <= p < rev@.len() ==> *(#[trigger] rev@[p]) == *orig[n - 1 - p] && *final(rev@[p]) == *final(orig[n - 1 - p]),
                forall|p: int|
                    0 <= p < slots@.len() ==> (#[trigger] slots@[p]) is Some && *slots@[p]->0
                        == *orig[p] && *final(slots@[p]->0) == *final(orig[p]),
            decreases rev@.len(),
        {
            let x = rev.pop().unwrap();
            slots.push(Some(x));
        }
        let mut row: Vec<&'b mut C> = Vec::new();
        let mut j: usize = 0;
        while j < keys.len()
            invariant
                j <= keys@.len(),
                pos@.len() == keys@.len(),
                orig.len() == n,
                old_sets.len() == n,
                slots@.len() == n,
                row@.len() == j,
                forall|q: int| 0 <= q < pos@.len() ==> (#[trigger] pos@[q]) < n,
                forall|q1: int, q2: int|
                    0 <= q1 < pos@.len() && 0 <= q2 < pos@.len() && q1 != q2 ==> pos@[q1] != pos@[q2],
                forall|q: int|
                    0 <= q < pos@.len() ==> (#[trigger] old_sets[pos@[q] as int])@.contains_key(id),
                forall|p: int| 0 <= p < n ==> *(#[trigger] orig[p]) == old_sets[p],
                forall|p: int| 0 <= p < n ==> (#[trigger] old_sets[p]).wf(),
                forall|p: int|
                    0 <= p < n && (forall|q: int| 0 <= q < j ==> pos@[q] != p) ==> (#[trigger] slots@[p])
                        is Some && *slots@[p]->0 == *orig[p] && *final(slots@[p]->0) == *final(orig[p]),
                forall|q: int|
                    0 <= q < j ==> {
                        &&& (*final(#[trigger] orig[pos@[q] as int])).wf()
                        &&& (*final(orig[pos@[q] as int]))@ == old_sets[pos@[q] as int]@.insert(id, *final(row@[q]))
                    },
                forall|q: int| 0 <= q < j ==> *(#[trigger] row@[q]) == old_sets[pos@[q] as int]@[id],
            decreases keys@.len() - j,
        {
            let p = pos[j];
            let mut taken: Option<&'b mut SparseSet<C>> = None;
            std::mem::swap(&mut slots[p], &mut taken);
            let set = taken.unwrap();
            let c = set.get_mut(id).unwrap();
            row.push(c);
            j = j + 1;
        }
        proof {
            assert(has_resolved(slots));
            let vals = row@.map_values(|x: &mut C| *final(x));
            assert forall|p: int| 0 <= p < n implies (*final(#[trigger] orig[p])).wf() && (*final(orig[p]))@ == (
                if exists|q: int| 0 <= q < pos@.len() && pos@[q] == p {
                    old_sets[p]@.insert(id, vals[choose|q: int| 0 <= q < pos@.len() && pos@[q] == p])
                } else {
                    old_sets[p]@
                }) by {
                if exists|q: int| 0 <= q < pos@.len() && pos@[q] == p {
                    let q = choose|q: int| 0 <= q < pos@.len() && pos@[q] == p;
                    assert((*final(orig[pos@[q] as int])).wf());
                } else {
                    assert(has_resolved(slots@[p]));
                    assert(has_resolved(slots@[p]->0));
                    assert(*final(orig[p]) == old_sets[p]);
                }
            }
            assert(fin_dir.keys@ == old_dir.keys@);
            assert(fin_dir.sets@ =~= orig.map_values(|x: &mut SparseSet<C>| *final(x)));
            assert(fin_dir.wf());
            let target = with_row(old_dir@, keys@, id, vals);
            assert forall|k: u32| #[trigger] fin_dir@.contains_key(k) implies fin_dir@[k] == target[k] by {
                let p = old_dir.keys@.index_of(k);
                assert(old_dir.keys@.contains(k));
                fin_dir.lemma_position(p);
                old_dir.lemma_position(p);
                if keys@.contains(k) {
                    let q = keys@.index_of(k);
                    assert(keys@[q] == k);
                    assert(old_dir.keys@[pos@[q] as int] == k);
                    assert(pos@[q] as int == p);
                    assert(exists|q2: int| 0 <= q2 < pos@.len() && pos@[q2] == p);
                    let q2 = choose|q2: int| 0 <= q2 < pos@.len() && pos@[q2] == p;
                    assert(q2 == q);
                } else {
                    if exists|q: int| 0 <= q < pos@.len() && pos@[q] == p {
                        let q = choose|q: int| 0 <= q < pos@.len() && pos@[q] == p;
                        assert(old_dir.keys@[pos@[q] as int] == keys@[q]);
                        assert(keys@.contains(keys@[q]));
                    }
                }
            }
            assert(fin_dir@ =~= target);
        }
        row
    }
}

} // verus!
