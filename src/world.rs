//! The world: entity lifecycle, components, tags and deferred mutations.
//!
//! Every operation is specified as a function on `WorldView`, the abstract
//! state of a world; each method's contract says that the new view is that
//! function of the old one.

use std::collections::HashSet;
use vstd::prelude::*;
use crate::directory::{StorageDirectory, without_entity};
use crate::entity::{Entity, EntityBuilder};
use crate::query::{Query, QueryMut, handle_of};
use crate::storage::SparseSet;

verus! {

broadcast use vstd::std_specs::hash::group_hash_axioms;

/// The largest number of distinct tag names a world can register.
pub const MAX_TAGS: usize = 128;

/// Whether bit `i` of `mask` is set.
pub open spec fn bit_set(mask: u128, i: int) -> bool {
    mask & (1u128 << (i as u128)) != 0u128
}

/// A world mutation recorded by `defer` and applied by `apply_deferred`.
pub enum DeferredOp<C> {
    /// Spawns an entity and inserts the components, in order.
    Spawn(Vec<(u32, C)>),
    /// Destroys the entity.
    Destroy(Entity),
    /// Inserts a component under a component-type key.
    Insert(Entity, u32, C),
    /// Removes the component stored under a component-type key.
    Remove(Entity, u32),
    /// Attaches a tag.
    Tag(Entity, String),
    /// Detaches a tag.
    Untag(Entity, String),
}

/// The abstract state of a world.
pub struct WorldView<C> {
    /// The id the next fresh spawn takes.
    pub next_id: u32,
    /// The current generation of each id below `next_id`.
    pub generations: Seq<u32>,
    /// The ids of live entities.
    pub alive: Set<u32>,
    /// Freed ids; the last one is reused first.
    pub free_ids: Seq<u32>,
    /// For each component-type key, the components stored by entity id.
    pub components: Map<u32, Map<u32, C>>,
    /// Registered tag names; a name's position is its bit.
    pub tag_names: Seq<Seq<char>>,
    /// Tag bitmask per entity id (ids past the end have none).
    pub tag_masks: Seq<u128>,
    /// Queued mutations, oldest first.
    pub deferred: Seq<DeferredOp<C>>,
}

impl<C> WorldView<C> {
    pub open spec fn generation_of(self, id: u32) -> u32 {
        if (id as int) < self.generations.len() {
            self.generations[id as int]
        } else {
            0
        }
    }

    pub open spec fn is_alive(self, e: Entity) -> bool {
        &&& self.alive.contains(e.spec_id())
        &&& (e.spec_id() as int) < self.generations.len()
        &&& self.generations[e.spec_id() as int] == e.spec_generation()
    }

    /// The components stored under `key` (none when the key has no storage).
    pub open spec fn storage(self, key: u32) -> Map<u32, C> {
        if self.components.contains_key(key) {
            self.components[key]
        } else {
            Map::empty()
        }
    }

    pub open spec fn has(self, e: Entity, key: u32) -> bool {
        self.is_alive(e) && self.storage(key).contains_key(e.spec_id())
    }

    pub open spec fn mask(self, id: u32) -> u128 {
        if (id as int) < self.tag_masks.len() {
            self.tag_masks[id as int]
        } else {
            0
        }
    }

    pub open spec fn has_tag(self, id: u32, name: Seq<char>) -> bool {
        self.tag_names.contains(name) && bit_set(self.mask(id), self.tag_names.index_of(name))
    }

    /// A spawn takes a freed id if there is one, else the next fresh id.
    pub open spec fn can_spawn(self) -> bool {
        self.free_ids.len() > 0 || self.next_id < u32::MAX
    }

    pub open spec fn spawn_id(self) -> u32 {
        if self.free_ids.len() > 0 {
            self.free_ids.last()
        } else {
            self.next_id
        }
    }

    /// The world after a spawn.
    pub open spec fn spawn(self) -> WorldView<C> {
        let id = self.spawn_id();
        if self.free_ids.len() > 0 {
            WorldView { alive: self.alive.insert(id), free_ids: self.free_ids.drop_last(), ..self }
        } else {
            WorldView {
                next_id: (self.next_id + 1) as u32,
                generations: self.generations.push(0),
                alive: self.alive.insert(id),
                ..self
            }
        }
    }

    /// The handle a spawn returns.
    pub open spec fn spawned(self) -> Entity {
        Entity::spec_new(self.spawn_id(), self.spawn().generation_of(self.spawn_id()))
    }

    /// The world after destroying `e`; an id at the last generation is
    /// retired rather than freed.
    pub open spec fn destroy(self, e: Entity) -> WorldView<C> {
        if !self.is_alive(e) {
            self
        } else {
            let id = e.spec_id();
            let g = self.generations[id as int];
            WorldView {
                generations: if g < u32::MAX {
                    self.generations.update(id as int, (g + 1) as u32)
                } else {
                    self.generations
                },
                alive: self.alive.remove(id),
                free_ids: if g < u32::MAX {
                    self.free_ids.push(id)
                } else {
                    self.free_ids
                },
                components: without_entity(self.components, id),
                tag_masks: if (id as int) < self.tag_masks.len() {
                    self.tag_masks.update(id as int, 0u128)
                } else {
                    self.tag_masks
                },
                ..self
            }
        }
    }

    /// The world after inserting `value` for `e` under `key`.
    pub open spec fn insert(self, e: Entity, key: u32, value: C) -> WorldView<C> {
        if !self.is_alive(e) {
            self
        } else {
            WorldView {
                components: self.components.insert(
                    key,
                    self.storage(key).insert(e.spec_id(), value),
                ),
                ..self
            }
        }
    }

    /// The world after removing the component of `e` under `key`.
    pub open spec fn remove(self, e: Entity, key: u32) -> WorldView<C> {
        if !self.has(e, key) {
            self
        } else {
            WorldView {
                components: self.components.insert(key, self.components[key].remove(e.spec_id())),
                ..self
            }
        }
    }
}

/// The names among the first `n` of `names` whose bit is set in `mask`, in
/// bit order.
pub open spec fn tag_list(names: Seq<Seq<char>>, mask: u128, n: nat) -> Seq<Seq<char>>
    decreases n,
{
    if n == 0 {
        Seq::empty()
    } else {
        let rest = tag_list(names, mask, (n - 1) as nat);
        if bit_set(mask, n - 1) {
            rest.push(names[n - 1])
        } else {
            rest
        }
    }
}

impl<C> WorldView<C> {
    /// Tagging with `name` either finds it registered or has room for it.
    pub open spec fn can_tag(self, name: Seq<char>) -> bool {
        self.tag_names.contains(name) || self.tag_names.len() < MAX_TAGS
    }

    /// The registered names once `name` is registered too.
    pub open spec fn names_with(self, name: Seq<char>) -> Seq<Seq<char>> {
        if self.tag_names.contains(name) {
            self.tag_names
        } else {
            self.tag_names.push(name)
        }
    }

    /// The world after tagging `e` with `name`.
    pub open spec fn tag(self, e: Entity, name: Seq<char>) -> WorldView<C> {
        if !self.is_alive(e) || !self.can_tag(name) {
            self
        } else {
            let names = self.names_with(name);
            let bit = names.index_of(name);
            let id = e.spec_id() as int;
            let len: int = if id < self.tag_masks.len() {
                self.tag_masks.len() as int
            } else {
                id + 1
            };
            WorldView {
                tag_names: names,
                tag_masks: Seq::new(
                    len as nat,
                    |i: int|
                        if i == id {
                            self.mask(e.spec_id()) | (1u128 << (bit as u128))
                        } else if i < self.tag_masks.len() {
                            self.tag_masks[i]
                        } else {
                            0u128
                        },
                ),
                ..self
            }
        }
    }

    /// The world after clearing the bit of `name` for the id of `e`.
    pub open spec fn untag(self, e: Entity, name: Seq<char>) -> WorldView<C> {
        let id = e.spec_id() as int;
        if self.tag_names.contains(name) && id < self.tag_masks.len() {
            WorldView {
                tag_masks: self.tag_masks.update(
                    id,
                    self.tag_masks[id] & !(1u128 << (self.tag_names.index_of(name) as u128)),
                ),
                ..self
            }
        } else {
            self
        }
    }

    /// The tag names of entity id `id`, in bit order.
    pub open spec fn tags_of(self, id: u32) -> Seq<Seq<char>> {
        tag_list(self.tag_names, self.mask(id), self.tag_names.len())
    }
}

impl<C> WorldView<C> {
    /// The world after inserting `comps` for `e`, in order.
    pub open spec fn insert_all(self, e: Entity, comps: Seq<(u32, C)>) -> WorldView<C>
        decreases comps.len(),
    {
        if comps.len() == 0 {
            self
        } else {
            self.insert_all(e, comps.drop_last()).insert(e, comps.last().0, comps.last().1)
        }
    }

    /// The world after one deferred mutation. A spawn with no id left, or a
    /// tag with no room for a new name, changes nothing.
    pub open spec fn apply(self, op: DeferredOp<C>) -> WorldView<C> {
        match op {
            DeferredOp::Spawn(comps) => if self.can_spawn() {
                self.spawn().insert_all(self.spawned(), comps@)
            } else {
                self
            },
            DeferredOp::Destroy(e) => self.destroy(e),
            DeferredOp::Insert(e, key, c) => self.insert(e, key, c),
            DeferredOp::Remove(e, key) => self.remove(e, key),
            DeferredOp::Tag(e, name) => self.tag(e, name@),
            DeferredOp::Untag(e, name) => self.untag(e, name@),
        }
    }

    /// Whether `op` can take effect: a spawn needs an id, and tagging a live
    /// entity needs room for the name.
    pub open spec fn applicable(self, op: DeferredOp<C>) -> bool {
        match op {
            DeferredOp::Spawn(_) => self.can_spawn(),
            DeferredOp::Tag(e, name) => !self.is_alive(e) || self.can_tag(name@),
            _ => true,
        }
    }

    /// The mutations of `ops` that could not take effect when their turn
    /// came, first to last.
    pub open spec fn skipped_all(self, ops: Seq<DeferredOp<C>>) -> Seq<DeferredOp<C>>
        decreases ops.len(),
    {
        if ops.len() == 0 {
            Seq::empty()
        } else {
            let prev = self.skipped_all(ops.drop_last());
            if self.apply_all(ops.drop_last()).applicable(ops.last()) {
                prev
            } else {
                prev.push(ops.last())
            }
        }
    }

    /// The world after the mutations `ops`, first to last.
    pub open spec fn apply_all(self, ops: Seq<DeferredOp<C>>) -> WorldView<C>
        decreases ops.len(),
    {
        if ops.len() == 0 {
            self
        } else {
            self.apply_all(ops.drop_last()).apply(ops.last())
        }
    }
}

/// Inserting components leaves the queue alone.
proof fn lemma_insert_all_keeps_queue<C>(v: WorldView<C>, e: Entity, comps: Seq<(u32, C)>)
    ensures
        v.insert_all(e, comps).deferred == v.deferred,
    decreases comps.len(),
{
    if comps.len() > 0 {
        lemma_insert_all_keeps_queue(v, e, comps.drop_last());
    }
}

/// Applying a mutation leaves the queue alone.
proof fn lemma_apply_keeps_queue<C>(v: WorldView<C>, op: DeferredOp<C>)
    ensures
        v.apply(op).deferred == v.deferred,
{
    if let DeferredOp::Spawn(comps) = op {
        lemma_insert_all_keeps_queue(v.spawn(), v.spawned(), comps@);
    }
}

/// One line of the world inspector: a live entity, its tag names and its
/// component under each component-type key, in the order of
/// `component_keys`.
pub struct InspectRow<'a, C> {
    pub entity: Entity,
    pub tags: Vec<String>,
    pub components: Vec<Option<&'a C>>,
}

impl<C> WorldView<C> {
    /// The live entity ids in increasing order.
    pub open spec fn live_ids(self) -> Seq<u32> {
        Seq::new(self.next_id as nat, |i: int| i as u32).filter(|id: u32| self.alive.contains(id))
    }
}

/// Entities, their components and tags, and the queue of deferred mutations.
pub struct World<C> {
    pub(crate) next_id: u32,
    pub(crate) generations: Vec<u32>,
    pub(crate) alive: HashSet<u32>,
    pub(crate) free_ids: Vec<u32>,
    pub(crate) storages: StorageDirectory<C>,
    pub(crate) tag_names: Vec<String>,
    pub(crate) entity_tags: Vec<u128>,
    pub(crate) deferred: Vec<DeferredOp<C>>,
}

impl<C> View for World<C> {
    type V = WorldView<C>;

    open spec fn view(&self) -> WorldView<C> {
        self.spec_view()
    }
}

impl<C> World<C> {
    pub open(crate) spec fn spec_view(&self) -> WorldView<C> {
        WorldView {
            next_id: self.next_id,
            generations: self.generations@,
            alive: self.alive@,
            free_ids: self.free_ids@,
            components: self.storages@,
            tag_names: self.tag_names@.map_values(|s: String| s@),
            tag_masks: self.entity_tags@,
            deferred: self.deferred@,
        }
    }

    /// Internal consistency of a world.
    pub open(crate) spec fn wf(&self) -> bool {
        let v = self.spec_view();
        &&& self.storages.wf()
        &&& v.generations.len() == v.next_id
        &&& forall|id: u32| #[trigger] v.alive.contains(id) ==> id < v.next_id
        &&& v.free_ids.no_duplicates()
        &&& forall|i: int|
            0 <= i < v.free_ids.len() ==> (#[trigger] v.free_ids[i]) < v.next_id
                && !v.alive.contains(v.free_ids[i])
        &&& forall|key: u32, id: u32|
            #[trigger] v.components.contains_key(key) && #[trigger] v.components[key].contains_key(id)
                ==> v.alive.contains(id)
        &&& v.tag_masks.len() <= v.next_id
        &&& forall|i: int|
            0 <= i < v.tag_masks.len() && !v.alive.contains(i as u32) ==> #[trigger] v.tag_masks[i]
                == 0
        &&& v.tag_names.len() <= MAX_TAGS
        &&& v.tag_names.no_duplicates()
    }

    /// Creates an empty world.
    pub fn new() -> (r: World<C>)
        ensures
            r.wf(),
            r@.next_id == 0,
            r@.generations == Seq::<u32>::empty(),
            r@.alive == Set::<u32>::empty(),
            r@.free_ids == Seq::<u32>::empty(),
            r@.components == Map::<u32, Map<u32, C>>::empty(),
            r@.tag_names == Seq::<Seq<char>>::empty(),
            r@.tag_masks == Seq::<u128>::empty(),
            r@.deferred == Seq::<DeferredOp<C>>::empty(),
    {
        let r = World {
            next_id: 0,
            generations: Vec::new(),
            alive: HashSet::new(),
            free_ids: Vec::new(),
            storages: StorageDirectory::new(),
            tag_names: Vec::new(),
            entity_tags: Vec::new(),
            deferred: Vec::new(),
        };
        assert(r@.tag_names =~= Seq::<Seq<char>>::empty());
        r
    }

    /// Whether `entity` is live: its id is in use and its generation is the
    /// id's current one.
    pub fn is_alive(&self, entity: Entity) -> (r: bool)
        ensures
            r == self@.is_alive(entity),
    {
        let id = entity.id();
        self.alive.contains(&id) && (id as usize) < self.generations.len()
            && self.generations[id as usize] == entity.generation()
    }

    /// The number of live entities.
    pub fn entity_count(&self) -> (r: usize)
        ensures
            r == self@.alive.len(),
    {
        self.alive.len()
    }

    /// The current generation of id `id` (zero for an id never used).
    pub(crate) fn generation(&self, id: u32) -> (r: u32)
        ensures
            r == self@.generation_of(id),
    {
        if (id as usize) < self.generations.len() {
            self.generations[id as usize]
        } else {
            0
        }
    }

    /// Starts a read-only query over the components under `keys`; the first
    /// key drives the iteration. A key may appear only once.
    pub fn select(&self, keys: Vec<u32>) -> (r: Query<'_, C>)
        requires
            self.wf(),
            keys@.len() >= 1,
            keys@.no_duplicates(),
        ensures
            r.wf(),
            r.spec_world() == self@,
            r.spec_keys() == keys@,
            r.required() == Seq::<Seq<char>>::empty(),
            r.excluded() == Seq::<Seq<char>>::empty(),
    {
        Query::new(self, keys)
    }

    /// Starts a query over the components under `keys` that may change
    /// them; the first key drives the iteration. A key may appear only once,
    /// so no component is reachable twice.
    pub fn select_mut(&mut self, keys: Vec<u32>) -> (r: QueryMut<'_, C>)
        requires
            old(self).wf(),
            keys@.len() >= 1,
            keys@.no_duplicates(),
        ensures
            r.wf(),
            *r.world == *old(self),
            *final(self) == *final(r.world),
            r.spec_keys() == keys@,
            r.required() == Seq::<Seq<char>>::empty(),
            r.excluded() == Seq::<Seq<char>>::empty(),
    {
        QueryMut::new(self, keys)
    }

    /// Whether a spawn is possible: a freed id waits, or fresh ids remain.
    pub fn can_spawn(&self) -> (r: bool)
        ensures
            r == self@.can_spawn(),
    {
        self.free_ids.len() > 0 || self.next_id < u32::MAX
    }

    /// Takes a freed id (or the next fresh one), marks it live and returns
    /// its handle.
    pub(crate) fn spawn_entity(&mut self) -> (r: Entity)
        requires
            old(self).wf(),
            old(self)@.can_spawn(),
        ensures
            final(self).wf(),
            final(self)@ == old(self)@.spawn(),
            r == old(self)@.spawned(),
    {
        let id = match self.free_ids.pop() {
            Some(id) => id,
            None => {
                let id = self.next_id;
                self.next_id = id + 1;
                self.generations.push(0);
                id
            },
        };
        let generation = self.generations[id as usize];
        self.alive.insert(id);
        proof {
            let v = old(self)@;
            assert(!v.alive.contains(id)) by {
                if v.free_ids.len() > 0 {
                    assert(v.free_ids[v.free_ids.len() - 1] == id);
                }
            }
            assert(self@.free_ids.no_duplicates()) by {
                if v.free_ids.len() > 0 {
                    assert forall|i: int, j: int| 0 <= i < j < self@.free_ids.len() implies self@.free_ids[i] != self@.free_ids[j] by {
                        assert(self@.free_ids[i] == v.free_ids[i]);
                        assert(self@.free_ids[j] == v.free_ids[j]);
                    }
                }
            }
            assert forall|i: int| 0 <= i < self@.free_ids.len() implies (#[trigger] self@.free_ids[i]) < self@.next_id
                && !self@.alive.contains(self@.free_ids[i]) by {
                assert(self@.free_ids[i] == v.free_ids[i]);
                if v.free_ids.len() > 0 {
                    assert(v.free_ids[v.free_ids.len() - 1] == id);
                    assert(v.free_ids[i] != id);
                }
            }
            assert(self@ == v.spawn());
        }
        Entity::new(id, generation)
    }

    /// Spawns an entity, reusing the most recently freed id if there is one,
    /// and returns a builder for it.
    pub fn spawn(&mut self) -> (r: EntityBuilder<'_, C>)
        requires
            old(self).wf(),
            old(self)@.can_spawn(),
        ensures
            r.entity == old(self)@.spawned(),
            r.world.wf(),
            (*r.world)@ == old(self)@.spawn(),
            *final(self) == *final(r.world),
    {
        let entity = self.spawn_entity();
        EntityBuilder::new(self, entity)
    }

    /// Destroys `entity`: removes all its components and tags, moves the id's
    /// generation on and frees the id for reuse. An id whose generation has
    /// reached `u32::MAX` is retired instead: it keeps that generation and is
    /// never handed out again, so generations only grow. Returns whether
    /// `entity` was live; a handle that is not live changes nothing.
    pub fn destroy(&mut self, entity: Entity) -> (r: bool)
        requires
            old(self).wf(),
        ensures
            final(self).wf(),
            r == old(self)@.is_alive(entity),
            final(self)@ == old(self)@.destroy(entity),
    {
        if !self.is_alive(entity) {
            return false;
        }
        let id = entity.id();
        self.storages.remove_all(id);
        if (id as usize) < self.entity_tags.len() {
            self.entity_tags.set(id as usize, 0);
        }
        self.alive.remove(&id);
        let g = self.generations[id as usize];
        if g < u32::MAX {
            self.generations.set(id as usize, g + 1);
            self.free_ids.push(id);
        }
        proof {
            let v = old(self)@;
            assert(self@.free_ids.no_duplicates()) by {
                assert forall|i: int| 0 <= i < v.free_ids.len() implies v.free_ids[i] != id by {}
            }
            assert forall|i: int| 0 <= i < self@.free_ids.len() implies (#[trigger] self@.free_ids[i]) < self@.next_id
                && !self@.alive.contains(self@.free_ids[i]) by {
                if i < v.free_ids.len() {
                    assert(self@.free_ids[i] == v.free_ids[i]);
                }
            }
            assert forall|i: int|
                0 <= i < self@.tag_masks.len() && !self@.alive.contains(i as u32) implies #[trigger] self@.tag_masks[i] == 0 by {
                if i != id as int {
                    assert(!v.alive.contains(i as u32));
                }
            }
            assert(self@ == v.destroy(entity));
        }
        true
    }

    /// Stores `component` for `entity` under the component-type key `key`,
    /// replacing the one it had. Does nothing when `entity` is not live.
    pub fn insert(&mut self, entity: Entity, key: u32, component: C)
        requires
            old(self).wf(),
        ensures
            final(self).wf(),
            final(self)@ == old(self)@.insert(entity, key, component),
    {
        if !self.is_alive(entity) {
            return;
        }
        self.storages.insert(key, entity.id(), component);
        proof {
            let v = old(self)@;
            assert(self@.components == v.components.insert(key, v.storage(key).insert(entity.spec_id(), component)));
            assert forall|k: u32, id: u32|
                #[trigger] self@.components.contains_key(k) && #[trigger] self@.components[k].contains_key(id)
                implies self@.alive.contains(id) by {
                if k == key && id != entity.spec_id() {
                    assert(v.storage(key).contains_key(id));
                }
            }
            assert(self@ == v.insert(entity, key, component));
        }
    }

    /// Removes the component of `entity` under `key`. Returns whether there
    /// was one; a handle that is not live removes nothing.
    pub fn remove(&mut self, entity: Entity, key: u32) -> (r: bool)
        requires
            old(self).wf(),
        ensures
            final(self).wf(),
            r == old(self)@.has(entity, key),
            final(self)@ == old(self)@.remove(entity, key),
    {
        if !self.is_alive(entity) {
            return false;
        }
        let removed = self.storages.remove(key, entity.id());
        proof {
            let v = old(self)@;
            assert forall|k: u32, id: u32|
                #[trigger] self@.components.contains_key(k) && #[trigger] self@.components[k].contains_key(id)
                implies self@.alive.contains(id) by {
                if removed is Some {
                    if k == key {
                        assert(self@.components[key] == v.components[key].remove(entity.spec_id()));
                        assert(v.components[key].contains_key(id));
                    } else {
                        assert(self@.components[k] == v.components[k]);
                    }
                } else {
                    assert(self@.components == v.components);
                }
            }
            assert(self@ == v.remove(entity, key));
        }
        removed.is_some()
    }

    /// The component of `entity` under `key`, if it is live and has one.
    pub fn get(&self, entity: Entity, key: u32) -> (r: Option<&C>)
        requires
            self.wf(),
        ensures
            r is Some <==> self@.has(entity, key),
            r is Some ==> *r->0 == self@.storage(key)[entity.spec_id()],
    {
        if !self.is_alive(entity) {
            return None;
        }
        self.storages.get_value(key, entity.id())
    }

    /// A mutable reference to the component of `entity` under `key`, if it
    /// is live and has one.
    pub fn get_mut(&mut self, entity: Entity, key: u32) -> (r: Option<&mut C>)
        requires
            old(self).wf(),
        ensures
            r is Some <==> old(self)@.has(entity, key),
            r is Some ==> {
                &&& *r->0 == old(self)@.storage(key)[entity.spec_id()]
                &&& final(self).wf()
                &&& final(self)@ == old(self)@.insert(entity, key, *final(r->0))
            },
            r is None ==> final(self).wf() && final(self)@ == old(self)@,
    {
        if !self.is_alive(entity) {
            return None;
        }
        let r = self.storages.get_value_mut(key, entity.id());
        proof {
            let v = old(self)@;
            assert forall|nd: StorageDirectory<C>, val: C|
                nd.wf() && nd@ == v.components.insert(key, v.components[key].insert(entity.spec_id(), val))
                && v.components.contains_key(key) && v.components[key].contains_key(entity.spec_id())
                implies (World { storages: nd, ..*old(self) }).wf()
                && (World { storages: nd, ..*old(self) })@ == v.insert(entity, key, val) by {
                let w = World { storages: nd, ..*old(self) };
                assert forall|k: u32, id: u32|
                    #[trigger] w@.components.contains_key(k) && #[trigger] w@.components[k].contains_key(id)
                    implies w@.alive.contains(id) by {
                    if k == key && id != entity.spec_id() {
                        assert(v.components[key].contains_key(id));
                    }
                }
                assert(w@.tag_names == v.tag_names);
            }
        }
        r
    }

    /// Whether `entity` is live and has a component under `key`.
    pub fn has(&self, entity: Entity, key: u32) -> (r: bool)
        requires
            self.wf(),
        ensures
            r == self@.has(entity, key),
    {
        if !self.is_alive(entity) {
            return false;
        }
        self.storages.contains(key, entity.id())
    }

    /// The component-type keys with a storage, in creation order.
    pub open(crate) spec fn component_key_seq(&self) -> Seq<u32> {
        self.storages.key_seq()
    }

    /// The component-type keys that have a storage, in the order their
    /// storages were created.
    pub fn component_keys(&self) -> (r: Vec<u32>)
        requires
            self.wf(),
        ensures
            r@ == self.component_key_seq(),
            r@.no_duplicates(),
            forall|k: u32| r@.contains(k) <==> self@.components.contains_key(k),
    {
        let mut r: Vec<u32> = Vec::new();
        let mut i: usize = 0;
        while i < self.storages.keys.len()
            invariant
                self.wf(),
                i <= self.storages.keys@.len(),
                r@ == self.storages.keys@.subrange(0, i as int),
            decreases self.storages.keys@.len() - i,
        {
            r.push(self.storages.keys[i]);
            i = i + 1;
        }
        proof {
            assert(r@ =~= self.storages.keys@);
        }
        r
    }

    /// The storage of the components under `key`, if one was created.
    pub fn storage(&self, key: u32) -> (r: Option<&SparseSet<C>>)
        requires
            self.wf(),
        ensures
            r is Some <==> self@.components.contains_key(key),
            r matches Some(s) ==> s.wf() && s@ == self@.components[key],
    {
        self.storages.get(key)
    }

    /// Every live entity in increasing id order, with its tag names and its
    /// component under each key of `component_keys`.
    pub fn inspect(&self) -> (r: Vec<InspectRow<'_, C>>)
        requires
            self.wf(),
        ensures
            r@.len() == self@.live_ids().len(),
            forall|i: int|
                0 <= i < r@.len() ==> {
                    let id = self@.live_ids()[i];
                    &&& (#[trigger] r@[i]).entity == handle_of(self@, id)
                    &&& r@[i].tags@.map_values(|s: String| s@) == self@.tags_of(id)
                    &&& r@[i].components@.len() == self.component_key_seq().len()
                    &&& forall|j: int|
                        0 <= j < r@[i].components@.len() ==> {
                            let key = self.component_key_seq()[j];
                            &&& ((#[trigger] r@[i].components@[j]) is Some
                                <==> self@.storage(key).contains_key(id))
                            &&& r@[i].components@[j] matches Some(c) ==> *c == self@.storage(key)[id]
                        }
                },
    {
        let keys = self.component_keys();
        let mut rows: Vec<InspectRow<'_, C>> = Vec::new();
        let ghost all = Seq::new(self@.next_id as nat, |i: int| i as u32);
        let ghost pred = |id: u32| self@.alive.contains(id);
        let mut id: u32 = 0;
        while id < self.next_id
            invariant
                self.wf(),
                keys@ == self.component_key_seq(),
                id <= self@.next_id,
                all == Seq::new(self@.next_id as nat, |i: int| i as u32),
                pred == (|id: u32| self@.alive.contains(id)),
                rows@.len() == all.subrange(0, id as int).filter(pred).len(),
                forall|i: int|
                    0 <= i < rows@.len() ==> {
                        let rid = all.subrange(0, id as int).filter(pred)[i];
                        &&& (#[trigger] rows@[i]).entity == handle_of(self@, rid)
                        &&& rows@[i].tags@.map_values(|s: String| s@) == self@.tags_of(rid)
                        &&& rows@[i].components@.len() == keys@.len()
                        &&& forall|j: int|
                            0 <= j < rows@[i].components@.len() ==> {
                                &&& ((#[trigger] rows@[i].components@[j]) is Some
                                    <==> self@.storage(keys@[j]).contains_key(rid))
                                &&& rows@[i].components@[j] matches Some(c) ==> *c == self@.storage(keys@[j])[rid]
                            }
                    },
            decreases self@.next_id - id,
        {
            proof {
                reveal(Seq::filter);
                assert(all.subrange(0, id + 1).drop_last() =~= all.subrange(0, id as int));
                assert(all.subrange(0, id + 1).last() == id);
            }
            if self.alive.contains(&id) {
                let tags = self.get_entity_tags(id);
                let mut components: Vec<Option<&C>> = Vec::new();
                let mut j: usize = 0;
                while j < keys.len()
                    invariant
                        self.wf(),
                        j <= keys@.len(),
                        components@.len() == j,
                        forall|q: int|
                            0 <= q < j ==> {
                                &&& ((#[trigger] components@[q]) is Some
                                    <==> self@.storage(keys@[q]).contains_key(id))
                                &&& components@[q] matches Some(c) ==> *c == self@.storage(keys@[q])[id]
                            },
                    decreases keys@.len() - j,
                {
                    components.push(self.storages.get_value(keys[j], id));
                    j = j + 1;
                }
                let entity = Entity::from_raw(id, self.generation(id));
                rows.push(InspectRow { entity, tags, components });
            }
            id = id + 1;
        }
        proof {
            assert(all.subrange(0, self@.next_id as int) =~= all);
        }
        rows
    }

    /// The number of queued mutations.
    pub fn deferred_count(&self) -> (r: usize)
        ensures
            r == self@.deferred.len(),
    {
        self.deferred.len()
    }

    /// The bit of a registered tag name.
    pub(crate) fn get_tag_id(&self, tag: &str) -> (r: Option<usize>)
        requires
            self.wf(),
        ensures
            r is Some <==> self@.tag_names.contains(tag@),
            r matches Some(i) ==> i == self@.tag_names.index_of(tag@) && i < self@.tag_names.len(),
    {
        let name = tag.to_owned();
        let mut i: usize = 0;
        while i < self.tag_names.len()
            invariant
                self.wf(),
                name@ == tag@,
                i <= self.tag_names@.len(),
                forall|j: int| 0 <= j < i ==> self@.tag_names[j] != tag@,
            decreases self.tag_names@.len() - i,
        {
            if self.tag_names[i] == name {
                proof {
                    assert(self@.tag_names[i as int] == tag@);
                    let j = self@.tag_names.index_of(tag@);
                    assert(self@.tag_names.contains(tag@));
                }
                return Some(i);
            }
            i = i + 1;
        }
        None
    }

    /// Whether `tag` may be attached: it is registered already, or fewer than
    /// `MAX_TAGS` names are.
    pub fn can_tag(&self, tag: &str) -> (r: bool)
        requires
            self.wf(),
        ensures
            r == self@.can_tag(tag@),
    {
        self.get_tag_id(tag).is_some() || self.tag_names.len() < MAX_TAGS
    }

    /// The bit of `tag`, registering the name if it is new.
    fn get_or_create_tag_id(&mut self, tag: &str) -> (r: usize)
        requires
            old(self).wf(),
            old(self)@.can_tag(tag@),
        ensures
            final(self).wf(),
            final(self)@ == (WorldView { tag_names: old(self)@.names_with(tag@), ..old(self)@ }),
            r == final(self)@.tag_names.index_of(tag@),
            r < final(self)@.tag_names.len(),
            final(self)@.tag_names.contains(tag@),
    {
        match self.get_tag_id(tag) {
            Some(id) => id,
            None => {
                let id = self.tag_names.len();
                self.tag_names.push(tag.to_owned());
                proof {
                    let names = self@.tag_names;
                    assert(names =~= old(self)@.tag_names.push(tag@));
                    assert(names[id as int] == tag@);
                    assert(names.no_duplicates());
                    assert(names.contains(tag@));
                    let j = names.index_of(tag@);
                    assert(names[j] == tag@);
                }
                id
            },
        }
    }

    /// Whether the id of `entity` carries `tag`. An unregistered name is
    /// carried by nobody.
    pub fn has_tag(&self, entity: Entity, tag: &str) -> (r: bool)
        requires
            self.wf(),
        ensures
            r == self@.has_tag(entity.spec_id(), tag@),
    {
        match self.get_tag_id(tag) {
            Some(tag_id) => {
                let mask = self.get_tag_mask(entity.id());
                mask & (1u128 << (tag_id as u128)) != 0
            },
            None => false,
        }
    }

    /// The tag bitmask of entity id `entity_id` (zero past the end).
    pub fn get_tag_mask(&self, entity_id: u32) -> (r: u128)
        ensures
            r == self@.mask(entity_id),
    {
        if (entity_id as usize) < self.entity_tags.len() {
            self.entity_tags[entity_id as usize]
        } else {
            0
        }
    }

    /// Attaches `tag` to `entity`, registering the name on first use. Does
    /// nothing when `entity` is not live.
    ///
    /// At most `MAX_TAGS` distinct names can be registered, so tagging a live
    /// entity with a new name needs room; a dead entity registers nothing.
    pub fn tag(&mut self, entity: Entity, tag: &str)
        requires
            old(self).wf(),
            old(self)@.is_alive(entity) ==> old(self)@.can_tag(tag@),
        ensures
            final(self).wf(),
            final(self)@ == old(self)@.tag(entity, tag@),
    {
        if !self.is_alive(entity) {
            return;
        }
        let tag_id = self.get_or_create_tag_id(tag);
        let id = entity.id() as usize;
        let ghost mid = self@;
        while self.entity_tags.len() <= id
            invariant
                self.wf(),
                id < self@.next_id,
                self@ == (WorldView { tag_masks: self@.tag_masks, ..mid }),
                self@.tag_masks.len() >= mid.tag_masks.len(),
                self@.tag_masks.len() == mid.tag_masks.len() || self@.tag_masks.len() <= id + 1,
                forall|i: int| 0 <= i < self@.tag_masks.len() ==> #[trigger] self@.tag_masks[i] == if i < mid.tag_masks.len() { mid.tag_masks[i] } else { 0u128 },
            decreases id + 1 - self.entity_tags@.len(),
        {
            let ghost before = self@;
            self.entity_tags.push(0);
            proof {
                assert(self@.components == before.components);
                assert(self@.tag_names == before.tag_names);
                assert(self@.alive == before.alive);
                assert(self@.free_ids == before.free_ids);
                assert(self@.tag_masks.len() <= self@.next_id);
                assert forall|i: int|
                    0 <= i < self@.tag_masks.len() && !self@.alive.contains(i as u32) implies #[trigger] self@.tag_masks[i] == 0 by {
                    if i < before.tag_masks.len() {
                        assert(before.tag_masks[i] == self@.tag_masks[i]);
                    }
                }
            }
        }
        let mask = self.entity_tags[id];
        self.entity_tags.set(id, mask | (1u128 << (tag_id as u128)));
        proof {
            let v = old(self)@;
            assert(mid.tag_masks == v.tag_masks);
            assert(mask == v.mask(entity.spec_id()));
            assert(self@.tag_masks =~= v.tag(entity, tag@).tag_masks);
            assert forall|i: int|
                0 <= i < self@.tag_masks.len() && !self@.alive.contains(i as u32) implies #[trigger] self@.tag_masks[i] == 0 by {
                assert(i != id as int);
            }
            assert(self@ == v.tag(entity, tag@));
        }
    }

    /// Clears the bit of `tag` in the bitmask of the id of `entity`.
    pub fn untag(&mut self, entity: Entity, tag: &str)
        requires
            old(self).wf(),
        ensures
            final(self).wf(),
            final(self)@ == old(self)@.untag(entity, tag@),
    {
        if let Some(tag_id) = self.get_tag_id(tag) {
            let id = entity.id() as usize;
            if id < self.entity_tags.len() {
                let mask = self.entity_tags[id];
                let cleared = mask & !(1u128 << (tag_id as u128));
                proof {
                    let b = 1u128 << (tag_id as u128);
                    assert(mask == 0u128 ==> mask & !b == 0u128) by (bit_vector);
                }
                self.entity_tags.set(id, cleared);
                proof {
                    let v = old(self)@;
                    assert(self@.components == v.components);
                    assert forall|i: int|
                        0 <= i < self@.tag_masks.len() && !self@.alive.contains(i as u32) implies #[trigger] self@.tag_masks[i] == 0 by {
                        if i != id as int {
                            assert(self@.tag_masks[i] == v.tag_masks[i]);
                        } else {
                            assert(v.tag_masks[i] == 0);
                        }
                    }
                }
            }
        }
    }

    /// The names of the tags of entity id `entity_id`, in bit order.
    pub fn get_entity_tags(&self, entity_id: u32) -> (r: Vec<String>)
        requires
            self.wf(),
        ensures
            r@.map_values(|s: String| s@) == self@.tags_of(entity_id),
    {
        let mask = self.get_tag_mask(entity_id);
        let mut names: Vec<String> = Vec::new();
        let mut i: usize = 0;
        while i < self.tag_names.len()
            invariant
                self.wf(),
                mask == self@.mask(entity_id),
                i <= self.tag_names@.len(),
                names@.map_values(|s: String| s@) == tag_list(self@.tag_names, mask, i as nat),
            decreases self.tag_names@.len() - i,
        {
            if mask & (1u128 << (i as u128)) != 0 {
                names.push(self.tag_names[i].clone());
                proof {
                    assert(names@.map_values(|s: String| s@) =~= tag_list(self@.tag_names, mask, i as nat).push(self@.tag_names[i as int]));
                }
            }
            i = i + 1;
        }
        names
    }

    /// Inserts `comps` for `entity`, in order.
    fn insert_all(&mut self, entity: Entity, comps: Vec<(u32, C)>)
        requires
            old(self).wf(),
        ensures
            final(self).wf(),
            final(self)@ == old(self)@.insert_all(entity, comps@),
    {
        let n = comps.len();
        let ghost all = comps@;
        let mut comps = comps;
        let mut rev: Vec<(u32, C)> = Vec::new();
        while comps.len() > 0
            invariant
                comps@.len() + rev@.len() == n,
                all.len() == n,
                forall|j: int| 0 <= j < comps@.len() ==> comps@[j] == all[j],
                forall|j: int| 0 <= j < rev@.len() ==> #[trigger] rev@[j] == all[n - 1 - j],
            decreases comps@.len(),
        {
            let c = comps.pop().unwrap();
            rev.push(c);
        }
        let ghost start = self@;
        while rev.len() > 0
            invariant
                self.wf(),
                rev@.len() <= n,
                all.len() == n,
                forall|j: int| 0 <= j < rev@.len() ==> #[trigger] rev@[j] == all[n - 1 - j],
                self@ == start.insert_all(entity, all.subrange(0, n - rev@.len())),
            decreases rev@.len(),
        {
            let (key, c) = rev.pop().unwrap();
            let ghost done = all.subrange(0, n - rev@.len());
            proof {
                assert(done.drop_last() =~= all.subrange(0, n - rev@.len() - 1));
            }
            self.insert(entity, key, c);
        }
        proof {
            assert(all.subrange(0, n as int) =~= all);
        }
    }

    /// Whether `op` can take effect now.
    fn is_applicable(&self, op: &DeferredOp<C>) -> (r: bool)
        requires
            self.wf(),
        ensures
            r == self@.applicable(*op),
    {
        match op {
            DeferredOp::Spawn(_) => self.can_spawn(),
            DeferredOp::Tag(e, name) => !self.is_alive(*e) || self.can_tag(name.as_str()),
            _ => true,
        }
    }

    /// Applies one deferred mutation, or hands it back when it cannot take
    /// effect.
    fn apply_op(&mut self, op: DeferredOp<C>) -> (r: Option<DeferredOp<C>>)
        requires
            old(self).wf(),
        ensures
            final(self).wf(),
            final(self)@ == old(self)@.apply(op),
            r == (if old(self)@.applicable(op) { None } else { Some(op) }),
    {
        if !self.is_applicable(&op) {
            return Some(op);
        }
        match op {
            DeferredOp::Spawn(comps) => {
                let e = self.spawn_entity();
                self.insert_all(e, comps);
            },
            DeferredOp::Destroy(e) => {
                self.destroy(e);
            },
            DeferredOp::Insert(e, key, c) => {
                self.insert(e, key, c);
            },
            DeferredOp::Remove(e, key) => {
                self.remove(e, key);
            },
            DeferredOp::Tag(e, name) => {
                self.tag(e, name.as_str());
            },
            DeferredOp::Untag(e, name) => {
                self.untag(e, name.as_str());
            },
        }
        None
    }

    /// Queues `op`, to be applied by the next `apply_deferred`.
    pub fn defer(&mut self, op: DeferredOp<C>)
        requires
            old(self).wf(),
        ensures
            final(self).wf(),
            final(self)@ == (WorldView { deferred: old(self)@.deferred.push(op), ..old(self)@ }),
    {
        self.deferred.push(op);
        proof {
            assert(self@.components == old(self)@.components);
        }
    }

    /// Applies the queued mutations once each, oldest first, and empties the
    /// queue. Returns the mutations that could not take effect when their
    /// turn came (a spawn with no id left, a new tag name with no room), in
    /// queue order; they changed nothing.
    pub fn apply_deferred(&mut self) -> (r: Vec<DeferredOp<C>>)
        requires
            old(self).wf(),
        ensures
            final(self).wf(),
            final(self)@ == (WorldView { deferred: Seq::empty(), ..old(self)@ }).apply_all(
                old(self)@.deferred,
            ),
            final(self)@.deferred == Seq::<DeferredOp<C>>::empty(),
            r@ == (WorldView { deferred: Seq::empty(), ..old(self)@ }).skipped_all(old(self)@.deferred),
    {
        let mut ops: Vec<DeferredOp<C>> = Vec::new();
        std::mem::swap(&mut ops, &mut self.deferred);
        let ghost all = ops@;
        let n = ops.len();
        let mut rev: Vec<DeferredOp<C>> = Vec::new();
        while ops.len() > 0
            invariant
                ops@.len() + rev@.len() == n,
                all.len() == n,
                forall|j: int| 0 <= j < ops@.len() ==> ops@[j] == all[j],
                forall|j: int| 0 <= j < rev@.len() ==> #[trigger] rev@[j] == all[n - 1 - j],
            decreases ops@.len(),
        {
            let op = ops.pop().unwrap();
            rev.push(op);
        }
        let ghost start = self@;
        let mut skipped: Vec<DeferredOp<C>> = Vec::new();
        proof {
            assert(start == (WorldView { deferred: Seq::empty(), ..old(self)@ }));
        }
        while rev.len() > 0
            invariant
                self.wf(),
                all.len() == n,
                rev@.len() <= n,
                forall|j: int| 0 <= j < rev@.len() ==> #[trigger] rev@[j] == all[n - 1 - j],
                self@ == start.apply_all(all.subrange(0, n - rev@.len())),
                skipped@ == start.skipped_all(all.subrange(0, n - rev@.len())),
                self@.deferred == Seq::<DeferredOp<C>>::empty(),
            decreases rev@.len(),
        {
            let op = rev.pop().unwrap();
            let ghost done = all.subrange(0, n - rev@.len());
            proof {
                assert(done.drop_last() =~= all.subrange(0, n - rev@.len() - 1));
            }
            proof {
                lemma_apply_keeps_queue(self@, op);
            }
            match self.apply_op(op) {
                Some(back) => {
                    skipped.push(back);
                },
                None => {},
            }
        }
        proof {
            assert(all.subrange(0, n as int) =~= all);
        }
        skipped
    }
}

impl<C> Default for World<C> {
    fn default() -> (r: Self)
        ensures
            r.wf(),
            r@.alive == Set::<u32>::empty(),
            r@.components == Map::<u32, Map<u32, C>>::empty(),
            r@.deferred == Seq::<DeferredOp<C>>::empty(),
    {
        World::new()
    }
}

} // verus!
