//! Queries: the entities that carry every component type of a list of
//! component-type keys, narrowed by required and excluded tags.
//!
//! The first key drives the iteration: its storage lists the candidates in
//! dense order, and a candidate is yielded when it passes the tag filter and
//! has a component under every other key.

use vstd::prelude::*;
use crate::entity::Entity;
use crate::directory::same_shape;
use crate::world::{World, WorldView};

verus! {

/// Whether the id of `e` carries every tag of `required` and none of
/// `excluded`.
pub open spec fn passes_filter<C>(
    v: WorldView<C>,
    e: Entity,
    required: Seq<Seq<char>>,
    excluded: Seq<Seq<char>>,
) -> bool {
    &&& forall|i: int| 0 <= i < required.len() ==> v.has_tag(e.spec_id(), #[trigger] required[i])
    &&& forall|i: int| 0 <= i < excluded.len() ==> !v.has_tag(e.spec_id(), #[trigger] excluded[i])
}

/// Whether entity id `id` has a component under every key of `keys`.
pub open spec fn has_all<C>(v: WorldView<C>, keys: Seq<u32>, id: u32) -> bool {
    forall|j: int| 0 <= j < keys.len() ==> #[trigger] v.storage(keys[j]).contains_key(id)
}

/// The handle of live entity id `id`.
pub open spec fn handle_of<C>(v: WorldView<C>, id: u32) -> Entity {
    Entity::spec_new(id, v.generation_of(id))
}

/// Whether entity id `id` is yielded by a query over `keys` with the given
/// tag filter.
pub open spec fn selects<C>(
    v: WorldView<C>,
    keys: Seq<u32>,
    required: Seq<Seq<char>>,
    excluded: Seq<Seq<char>>,
    id: u32,
) -> bool {
    has_all(v, keys, id) && passes_filter(v, handle_of(v, id), required, excluded)
}

/// Tag filter of a query.
pub struct QueryFilter {
    pub(crate) required_tags: Vec<String>,
    pub(crate) excluded_tags: Vec<String>,
}

impl Default for QueryFilter {
    fn default() -> (r: QueryFilter)
        ensures
            r.required() == Seq::<Seq<char>>::empty(),
            r.excluded() == Seq::<Seq<char>>::empty(),
    {
        QueryFilter::new()
    }
}

impl QueryFilter {
    /// Names an entity must carry.
    pub open(crate) spec fn required(&self) -> Seq<Seq<char>> {
        self.required_tags@.map_values(|s: String| s@)
    }

    /// Names an entity must not carry.
    pub open(crate) spec fn excluded(&self) -> Seq<Seq<char>> {
        self.excluded_tags@.map_values(|s: String| s@)
    }

    /// A filter that lets every entity through.
    pub fn new() -> (r: QueryFilter)
        ensures
            r.required() == Seq::<Seq<char>>::empty(),
            r.excluded() == Seq::<Seq<char>>::empty(),
    {
        let r = QueryFilter { required_tags: Vec::new(), excluded_tags: Vec::new() };
        assert(r.required() =~= Seq::<Seq<char>>::empty());
        assert(r.excluded() =~= Seq::<Seq<char>>::empty());
        r
    }

    /// Whether `entity` carries all required tags and no excluded one.
    pub fn matches<C>(&self, world: &World<C>, entity: Entity) -> (r: bool)
        requires
            world.wf(),
        ensures
            r == passes_filter(world@, entity, self.required(), self.excluded()),
    {
        let mut i: usize = 0;
        while i < self.required_tags.len()
            invariant
                world.wf(),
                i <= self.required_tags@.len(),
                forall|j: int| 0 <= j < i ==> world@.has_tag(entity.spec_id(), #[trigger] self.required()[j]),
            decreases self.required_tags@.len() - i,
        {
            if !world.has_tag(entity, self.required_tags[i].as_str()) {
                assert(self.required()[i as int] == self.required_tags@[i as int]@);
                return false;
            }
            assert(self.required()[i as int] == self.required_tags@[i as int]@);
            i = i + 1;
        }
        let mut i: usize = 0;
        while i < self.excluded_tags.len()
            invariant
                world.wf(),
                i <= self.excluded_tags@.len(),
                forall|j: int| 0 <= j < self.required().len() ==> world@.has_tag(entity.spec_id(), #[trigger] self.required()[j]),
                forall|j: int| 0 <= j < i ==> !world@.has_tag(entity.spec_id(), #[trigger] self.excluded()[j]),
            decreases self.excluded_tags@.len() - i,
        {
            if world.has_tag(entity, self.excluded_tags[i].as_str()) {
                assert(self.excluded()[i as int] == self.excluded_tags@[i as int]@);
                return false;
            }
            assert(self.excluded()[i as int] == self.excluded_tags@[i as int]@);
            i = i + 1;
        }
        true
    }
}

/// The ids under `keys[0]` in dense order that a query over `keys` with
/// `filter` yields.
pub open(crate) spec fn matched_ids<C>(world: &World<C>, keys: Seq<u32>, filter: &QueryFilter) -> Seq<u32> {
    world.storages.ids_of(keys[0]).filter(
        |id: u32| selects(world@, keys, filter.required(), filter.excluded(), id),
    )
}

/// Computes `matched_ids`.
fn matching_ids<C>(world: &World<C>, keys: &Vec<u32>, filter: &QueryFilter) -> (r: Vec<u32>)
    requires
        world.wf(),
        keys@.len() >= 1,
    ensures
        r@ == matched_ids(world, keys@, filter),
{
    let ghost pred = |id: u32| selects(world@, keys@, filter.required(), filter.excluded(), id);
    let mut out: Vec<u32> = Vec::new();
    let ids = match world.storages.entity_ids(keys[0]) {
        Some(ids) => ids,
        None => {
            proof {
                reveal(Seq::filter);
            }
            return out;
        },
    };
    let ghost cands = world.storages.ids_of(keys@[0]);
    let mut k: usize = 0;
    while k < ids.len()
        invariant
            world.wf(),
            keys@.len() >= 1,
            ids@ == cands,
            k <= cands.len(),
            pred == (|id: u32| selects(world@, keys@, filter.required(), filter.excluded(), id)),
            out@ == cands.subrange(0, k as int).filter(pred),
        decreases cands.len() - k,
    {
        let id = ids[k];
        proof {
            reveal(Seq::filter);
            assert(cands.subrange(0, k + 1).drop_last() =~= cands.subrange(0, k as int));
            assert(cands.subrange(0, k + 1).last() == id);
        }
        let entity = Entity::from_raw(id, world.generation(id));
        if filter.matches(world, entity) && has_all_exec(world, keys, id) {
            out.push(id);
        }
        k = k + 1;
    }
    proof {
        assert(cands.subrange(0, cands.len() as int) =~= cands);
    }
    out
}

/// Whether entity id `id` has a component under every key of `keys`.
fn has_all_exec<C>(world: &World<C>, keys: &Vec<u32>, id: u32) -> (r: bool)
    requires
        world.wf(),
    ensures
        r == has_all(world@, keys@, id),
{
    let mut j: usize = 0;
    while j < keys.len()
        invariant
            world.wf(),
            j <= keys@.len(),
            forall|i: int| 0 <= i < j ==> world@.storage(#[trigger] keys@[i]).contains_key(id),
        decreases keys@.len() - j,
    {
        if !world.storages.contains(keys[j], id) {
            assert(!world@.storage(keys@[j as int]).contains_key(id));
            return false;
        }
        j = j + 1;
    }
    true
}

/// `f` was called with `e` and the components of `e` under `keys`, as far
/// as the postcondition of `f` shows.
pub open spec fn visited<'a, C: 'a, F: FnMut(Entity, Vec<&'a C>)>(
    f: F,
    v: WorldView<C>,
    keys: Seq<u32>,
    e: Entity,
) -> bool {
    exists|row: Vec<&'a C>|
        {
            &&& row@.len() == keys.len()
            &&& (forall|j: int|
                0 <= j < row@.len() ==> *(#[trigger] row@[j]) == v.storage(keys[j])[e.spec_id()])
            &&& f.ensures((e, row), ())
        }
}

/// Filtering a sequence without duplicates leaves none.
pub proof fn lemma_filter_no_duplicates(s: Seq<u32>, p: spec_fn(u32) -> bool)
    requires
        s.no_duplicates(),
    ensures
        s.filter(p).no_duplicates(),
    decreases s.len(),
{
    reveal(Seq::filter);
    if s.len() > 0 {
        let d = s.drop_last();
        assert(d.no_duplicates()) by {
            assert forall|i: int, j: int| 0 <= i < d.len() && 0 <= j < d.len() && i != j implies d[i] != d[j] by {
                assert(d[i] == s[i] && d[j] == s[j]);
            }
        }
        lemma_filter_no_duplicates(d, p);
        let f0 = d.filter(p);
        if p(s.last()) {
            if f0.contains(s.last()) {
                d.lemma_filter_contains_rev(p, s.last());
                let k = choose|k: int| 0 <= k < d.len() && d[k] == s.last();
                assert(s[k] == s[s.len() - 1]);
            }
            assert(f0.push(s.last()).no_duplicates()) by {
                let g = f0.push(s.last());
                assert forall|i: int, j: int| 0 <= i < g.len() && 0 <= j < g.len() && i != j implies g[i] != g[j] by {
                    if i < f0.len() && j < f0.len() {
                    } else if i < f0.len() {
                        assert(f0.contains(f0[i]));
                    } else {
                        assert(f0.contains(f0[j]));
                    }
                }
            }
        }
    }
}

/// The ids `matched_ids` yields are exactly the selected ones, each once,
/// and belong to live entities.
pub proof fn lemma_matched_ids<C>(world: &World<C>, keys: Seq<u32>, filter: &QueryFilter)
    requires
        world.wf(),
        keys.len() >= 1,
    ensures
        matched_ids(world, keys, filter).no_duplicates(),
        forall|id: u32|
            matched_ids(world, keys, filter).contains(id) <==> selects(
                world@,
                keys,
                filter.required(),
                filter.excluded(),
                id,
            ),
        forall|i: int|
            0 <= i < matched_ids(world, keys, filter).len() ==> world@.is_alive(
                handle_of(world@, #[trigger] matched_ids(world, keys, filter)[i]),
            ),
        !world@.components.contains_key(keys[0]) ==> matched_ids(world, keys, filter).len() == 0,
{
    broadcast use vstd::seq_lib::group_filter_ensures;
    let dir = &world.storages;
    let key = keys[0];
    let cands = dir.ids_of(key);
    let pred = |id: u32| selects(world@, keys, filter.required(), filter.excluded(), id);
    if dir.keys@.contains(key) {
        let p = dir.keys@.index_of(key);
        dir.lemma_position(p);
        dir.sets@[p].lemma_ids();
    } else {
        reveal(Seq::filter);
    }
    lemma_filter_no_duplicates(cands, pred);
    assert forall|id: u32| matched_ids(world, keys, filter).contains(id) <==> pred(id) by {
        if pred(id) {
            assert(world@.storage(key).contains_key(id));
            assert(cands.to_set().contains(id));
            let k = choose|k: int| 0 <= k < cands.len() && cands[k] == id;
            cands.lemma_filter_contains(pred, k);
        }
        if matched_ids(world, keys, filter).contains(id) {
            let k = choose|k: int| 0 <= k < cands.filter(pred).len() && cands.filter(pred)[k] == id;
            cands.lemma_filter_pred(pred, k);
        }
    }
    assert forall|i: int| 0 <= i < matched_ids(world, keys, filter).len() implies world@.is_alive(
        handle_of(world@, #[trigger] matched_ids(world, keys, filter)[i]),
    ) by {
        let id = matched_ids(world, keys, filter)[i];
        assert(matched_ids(world, keys, filter).contains(id));
        assert(world@.storage(key).contains_key(id));
    }
}

/// `f` was called with `e` and references to its components under `keys`
/// as they were in `before`, as far as the postcondition of `f` shows; `fin`
/// gives what was left behind the references, which `after` holds.
pub open spec fn visited_mut<'a, C: 'a, F: FnMut(Entity, Vec<&'a mut C>)>(
    f: F,
    before: WorldView<C>,
    keys: Seq<u32>,
    e: Entity,
    fin: spec_fn(Vec<&'a mut C>) -> Seq<C>,
    after: WorldView<C>,
) -> bool {
    exists|row: Vec<&'a mut C>|
        {
            &&& row@.len() == keys.len()
            &&& (forall|j: int|
                0 <= j < row@.len() ==> *(#[trigger] row@[j]) == before.storage(keys[j])[e.spec_id()]
                    && fin(row)[j] == after.storage(keys[j])[e.spec_id()])
            &&& #[trigger] f.ensures((e, row), ())
        }
}

/// A query over the components under `keys`, read-only.
pub struct Query<'w, C> {
    pub(crate) world: &'w World<C>,
    pub(crate) keys: Vec<u32>,
    pub(crate) filter: QueryFilter,
}

impl<'w, C> Query<'w, C> {
    pub open(crate) spec fn wf(&self) -> bool {
        &&& self.world.wf()
        &&& self.keys@.len() >= 1
        &&& self.keys@.no_duplicates()
    }

    /// The world queried.
    pub open(crate) spec fn spec_world(&self) -> WorldView<C> {
        self.world@
    }

    /// The component-type keys fetched, the first one driving.
    pub open(crate) spec fn spec_keys(&self) -> Seq<u32> {
        self.keys@
    }

    pub open(crate) spec fn required(&self) -> Seq<Seq<char>> {
        self.filter.required()
    }

    pub open(crate) spec fn excluded(&self) -> Seq<Seq<char>> {
        self.filter.excluded()
    }

    /// Whether entity id `id` is yielded.
    pub open(crate) spec fn selects(&self, id: u32) -> bool {
        selects(self.world@, self.keys@, self.required(), self.excluded(), id)
    }

    /// The candidate ids: those under the first key, in dense order.
    pub open(crate) spec fn candidates(&self) -> Seq<u32> {
        self.world.storages.ids_of(self.keys@[0])
    }

    /// The ids yielded, in the order they are yielded.
    pub open(crate) spec fn matched(&self) -> Seq<u32> {
        self.candidates().filter(|id: u32| self.selects(id))
    }

    /// Starts a query over `keys` on `world`, with no tag filter.
    pub fn new(world: &'w World<C>, keys: Vec<u32>) -> (r: Query<'w, C>)
        requires
            world.wf(),
            keys@.len() >= 1,
            keys@.no_duplicates(),
        ensures
            r.wf(),
            r.spec_world() == world@,
            r.spec_keys() == keys@,
            r.required() == Seq::<Seq<char>>::empty(),
            r.excluded() == Seq::<Seq<char>>::empty(),
    {
        Query { world, keys, filter: QueryFilter::new() }
    }

    /// Requires entities to carry `tag`.
    pub fn tagged(self, tag: &str) -> (r: Query<'w, C>)
        requires
            self.wf(),
        ensures
            r.wf(),
            r.spec_world() == self.spec_world(),
            r.spec_keys() == self.spec_keys(),
            r.required() == self.required().push(tag@),
            r.excluded() == self.excluded(),
    {
        let Query { world, keys, filter } = self;
        let QueryFilter { mut required_tags, excluded_tags } = filter;
        required_tags.push(tag.to_owned());
        let r = Query { world, keys, filter: QueryFilter { required_tags, excluded_tags } };
        assert(r.required() =~= self.required().push(tag@));
        r
    }

    /// Excludes entities that carry `tag`.
    pub fn not_tagged(self, tag: &str) -> (r: Query<'w, C>)
        requires
            self.wf(),
        ensures
            r.wf(),
            r.spec_world() == self.spec_world(),
            r.spec_keys() == self.spec_keys(),
            r.required() == self.required(),
            r.excluded() == self.excluded().push(tag@),
    {
        let Query { world, keys, filter } = self;
        let QueryFilter { required_tags, mut excluded_tags } = filter;
        excluded_tags.push(tag.to_owned());
        let r = Query { world, keys, filter: QueryFilter { required_tags, excluded_tags } };
        assert(r.excluded() =~= self.excluded().push(tag@));
        r
    }

    /// The components of entity id `id` under every key, in key order, or
    /// `None` when one is missing.
    fn fetch_all(&self, id: u32) -> (r: Option<Vec<&'w C>>)
        requires
            self.wf(),
        ensures
            r is Some <==> has_all(self.world@, self.keys@, id),
            r matches Some(row) ==> row@.len() == self.keys@.len() && forall|j: int|
                0 <= j < row@.len() ==> *(#[trigger] row@[j]) == self.world@.storage(self.keys@[j])[id],
    {
        let world: &'w World<C> = self.world;
        let mut row: Vec<&'w C> = Vec::new();
        let mut j: usize = 0;
        while j < self.keys.len()
            invariant
                self.wf(),
                world == self.world,
                j <= self.keys@.len(),
                row@.len() == j,
                forall|i: int| 0 <= i < j ==> self.world@.storage(#[trigger] self.keys@[i]).contains_key(id),
                forall|i: int| 0 <= i < j ==> *(#[trigger] row@[i]) == self.world@.storage(self.keys@[i])[id],
            decreases self.keys@.len() - j,
        {
            match world.storages.get_value(self.keys[j], id) {
                Some(c) => {
                    row.push(c);
                },
                None => {
                    assert(!self.world@.storage(self.keys@[j as int]).contains_key(id));
                    return None;
                },
            }
            j = j + 1;
        }
        Some(row)
    }

    /// The matching entities with their components, in the dense order of
    /// the first key's storage.
    pub fn collect(&self) -> (r: Vec<(Entity, Vec<&'w C>)>)
        requires
            self.wf(),
        ensures
            r@.len() == self.matched().len(),
            forall|i: int|
                0 <= i < r@.len() ==> {
                    &&& (#[trigger] r@[i]).0 == handle_of(self.spec_world(), self.matched()[i])
                    &&& r@[i].1@.len() == self.spec_keys().len()
                    &&& forall|j: int|
                        0 <= j < self.spec_keys().len() ==> *(#[trigger] r@[i].1@[j]) == self.spec_world().storage(
                            self.spec_keys()[j],
                        )[self.matched()[i]]
                },
    {
        let mut out: Vec<(Entity, Vec<&'w C>)> = Vec::new();
        let ids = match self.world.storages.entity_ids(self.keys[0]) {
            Some(ids) => ids,
            None => {
                proof {
                    reveal(Seq::filter);
                }
                return out;
            },
        };
        let ghost cands = self.candidates();
        let mut k: usize = 0;
        while k < ids.len()
            invariant
                self.wf(),
                ids@ == cands,
                cands == self.candidates(),
                k <= cands.len(),
                out@.len() == cands.subrange(0, k as int).filter(|id: u32| self.selects(id)).len(),
                forall|i: int|
                    0 <= i < out@.len() ==> {
                        &&& (#[trigger] out@[i]).0 == handle_of(self.world@, cands.subrange(0, k as int).filter(|id: u32| self.selects(id))[i])
                        &&& out@[i].1@.len() == self.keys@.len()
                        &&& forall|j: int|
                            0 <= j < self.keys@.len() ==> *(#[trigger] out@[i].1@[j]) == self.world@.storage(
                                self.keys@[j],
                            )[cands.subrange(0, k as int).filter(|id: u32| self.selects(id))[i]]
                    },
            decreases cands.len() - k,
        {
            let id = ids[k];
            proof {
                reveal(Seq::filter);
                assert(cands.subrange(0, k + 1).drop_last() =~= cands.subrange(0, k as int));
                assert(cands.subrange(0, k + 1).last() == id);
            }
            let entity = Entity::from_raw(id, self.world.generation(id));
            if self.filter.matches(self.world, entity) {
                match self.fetch_all(id) {
                    Some(row) => {
                        out.push((entity, row));
                    },
                    None => {},
                }
            }
            k = k + 1;
        }
        proof {
            assert(cands.subrange(0, cands.len() as int) =~= cands);
        }
        out
    }

    /// Calls `f` once with each matching entity and its components under the
    /// keys, in key order; the entities come in the dense order of the first
    /// key's storage. Returns the entities passed to `f`, in call order.
    pub fn each<F: FnMut(Entity, Vec<&'w C>)>(self, f: F) -> (r: Vec<Entity>)
        requires
            self.wf(),
            forall|e: Entity, row: Vec<&'w C>| f.requires((e, row)),
        ensures
            r@.len() == self.matched().len(),
            forall|i: int|
                0 <= i < r@.len() ==> #[trigger] r@[i] == handle_of(self.spec_world(), self.matched()[i]),
            self.matched().no_duplicates(),
            forall|id: u32| self.matched().contains(id) <==> self.selects(id),
            forall|i: int| 0 <= i < r@.len() ==> self.spec_world().is_alive(#[trigger] r@[i]),
            forall|i: int|
                0 <= i < r@.len() ==> visited(f, self.spec_world(), self.spec_keys(), #[trigger] r@[i]),
            !self.spec_world().components.contains_key(self.spec_keys()[0]) ==> r@.len() == 0,
    {
        proof {
            self.lemma_matched();
        }
        let ghost f0 = f;
        let rows = self.collect();
        let ghost all = rows@;
        let ghost v = self.spec_world();
        let ghost keys = self.spec_keys();
        let n = rows.len();
        let mut rows = rows;
        let mut g = f;
        let mut rev: Vec<(Entity, Vec<&'w C>)> = Vec::new();
        while rows.len() > 0
            invariant
                rows@.len() + rev@.len() == n,
                all.len() == n,
                forall|p: int| 0 <= p < rows@.len() ==> rows@[p] == all[p],
                forall|p: int| 0 <= p < rev@.len() ==> #[trigger] rev@[p] == all[n - 1 - p],
            decreases rows@.len(),
        {
            let row = rows.pop().unwrap();
            rev.push(row);
        }
        let mut out: Vec<Entity> = Vec::new();
        while rev.len() > 0
            invariant
                out@.len() + rev@.len() == n,
                all.len() == n,
                g == f0,
                forall|p: int| 0 <= p < rev@.len() ==> #[trigger] rev@[p] == all[n - 1 - p],
                forall|e: Entity, row: Vec<&'w C>| f0.requires((e, row)),
                forall|i: int| 0 <= i < out@.len() ==> #[trigger] out@[i] == all[i].0,
                forall|i: int| 0 <= i < out@.len() ==> f0.ensures(((#[trigger] out@[i]), all[i].1), ()),
            decreases rev@.len(),
        {
            let (entity, row) = rev.pop().unwrap();
            g(entity, row);
            out.push(entity);
        }
        proof {
            assert forall|i: int| 0 <= i < out@.len() implies visited(f0, v, keys, #[trigger] out@[i]) by {
                let row = all[i].1;
                assert(row@.len() == keys.len());
                assert(forall|j: int| 0 <= j < row@.len() ==> *(#[trigger] row@[j]) == v.storage(keys[j])[out@[i].spec_id()]);
                assert(f0.ensures((out@[i], row), ()));
            }
        }
        out
    }

    /// The yielded ids are exactly the selected ones, each once, and belong
    /// to live entities.
    proof fn lemma_matched(&self)
        requires
            self.wf(),
        ensures
            self.matched().no_duplicates(),
            forall|id: u32| self.matched().contains(id) <==> self.selects(id),
            forall|i: int| 0 <= i < self.matched().len() ==> self.spec_world().is_alive(handle_of(self.spec_world(), #[trigger] self.matched()[i])),
            !self.spec_world().components.contains_key(self.spec_keys()[0]) ==> self.matched().len() == 0,
    {
        lemma_matched_ids(self.world, self.keys@, &self.filter);
        assert((|id: u32| self.selects(id)) =~= (|id: u32|
            selects(self.world@, self.keys@, self.filter.required(), self.filter.excluded(), id)));
        assert(self.matched() == matched_ids(self.world, self.keys@, &self.filter));
    }
}

/// A query over the components under `keys`, with mutable access to them.
pub struct QueryMut<'w, C> {
    /// The world queried.
    pub world: &'w mut World<C>,
    /// The component-type keys fetched, the first one driving.
    pub keys: Vec<u32>,
    /// The tag filter.
    pub filter: QueryFilter,
}

impl<'w, C> QueryMut<'w, C> {
    pub open(crate) spec fn wf(&self) -> bool {
        &&& self.world.wf()
        &&& self.keys@.len() >= 1
        &&& self.keys@.no_duplicates()
    }

    /// The world queried, as it is now.
    pub open(crate) spec fn spec_world(&self) -> WorldView<C> {
        self.world@
    }

    pub open(crate) spec fn spec_keys(&self) -> Seq<u32> {
        self.keys@
    }

    pub open(crate) spec fn required(&self) -> Seq<Seq<char>> {
        self.filter.required()
    }

    pub open(crate) spec fn excluded(&self) -> Seq<Seq<char>> {
        self.filter.excluded()
    }

    /// Starts a query over `keys` on `world`, with no tag filter.
    pub fn new(world: &'w mut World<C>, keys: Vec<u32>) -> (r: QueryMut<'w, C>)
        requires
            old(world).wf(),
            keys@.len() >= 1,
            keys@.no_duplicates(),
        ensures
            r.wf(),
            *r.world == *old(world),
            *final(world) == *final(r.world),
            r.spec_keys() == keys@,
            r.required() == Seq::<Seq<char>>::empty(),
            r.excluded() == Seq::<Seq<char>>::empty(),
    {
        QueryMut { world, keys, filter: QueryFilter::new() }
    }

    /// Requires entities to carry `tag`.
    pub fn tagged(self, tag: &str) -> (r: QueryMut<'w, C>)
        requires
            self.wf(),
        ensures
            r.wf(),
            *r.world == *old(self.world),
            *final(r.world) == *final(self.world),
            r.spec_keys() == self.spec_keys(),
            r.required() == self.required().push(tag@),
            r.excluded() == self.excluded(),
    {
        let QueryMut { world, keys, filter } = self;
        let QueryFilter { mut required_tags, excluded_tags } = filter;
        required_tags.push(tag.to_owned());
        let r = QueryMut { world, keys, filter: QueryFilter { required_tags, excluded_tags } };
        assert(r.required() =~= self.required().push(tag@));
        r
    }

    /// Excludes entities that carry `tag`.
    pub fn not_tagged(self, tag: &str) -> (r: QueryMut<'w, C>)
        requires
            self.wf(),
        ensures
            r.wf(),
            *r.world == *old(self.world),
            *final(r.world) == *final(self.world),
            r.spec_keys() == self.spec_keys(),
            r.required() == self.required(),
            r.excluded() == self.excluded().push(tag@),
    {
        let QueryMut { world, keys, filter } = self;
        let QueryFilter { required_tags, mut excluded_tags } = filter;
        excluded_tags.push(tag.to_owned());
        let r = QueryMut { world, keys, filter: QueryFilter { required_tags, excluded_tags } };
        assert(r.excluded() =~= self.excluded().push(tag@));
        r
    }

    /// Calls `f` once with each matching entity and mutable references to its
    /// components under the keys, in key order; the entities come in the
    /// dense order of the first key's storage and are fixed before the first
    /// call. Returns the entities passed to `f`, in call order.
    ///
    /// Each component passed to `f` ends with what `f` left in it; nothing
    /// else in the world changes.
    pub fn each<F: FnMut(Entity, Vec<&mut C>)>(self, f: F) -> (r: Vec<Entity>)
        requires
            self.wf(),
            forall|e: Entity, row: Vec<&mut C>| f.requires((e, row)),
        ensures
            final(self.world).wf(),
            r@.len() == matched_ids(&*old(self.world), self.keys@, &self.filter).len(),
            forall|i: int|
                0 <= i < r@.len() ==> #[trigger] r@[i] == handle_of(
                    (*old(self.world))@,
                    matched_ids(&*old(self.world), self.keys@, &self.filter)[i],
                ),
            matched_ids(&*old(self.world), self.keys@, &self.filter).no_duplicates(),
            forall|id: u32|
                matched_ids(&*old(self.world), self.keys@, &self.filter).contains(id) <==> selects(
                    (*old(self.world))@,
                    self.keys@,
                    self.filter.required(),
                    self.filter.excluded(),
                    id,
                ),
            forall|i: int|
                0 <= i < r@.len() ==> visited_mut(
                    f,
                    (*old(self.world))@,
                    self.keys@,
                    #[trigger] r@[i],
                    |row: Vec<&'w mut C>| row@.map_values(|x: &'w mut C| *final(x)),
                    (*final(self.world))@,
                ),
            (*final(self.world))@ == (WorldView {
                components: (*final(self.world))@.components,
                ..(*old(self.world))@
            }),
            same_shape((*final(self.world))@.components, (*old(self.world))@.components),
            forall|key: u32, id: u32|
                #![trigger (*final(self.world))@.components[key][id]]
                (*old(self.world))@.components.contains_key(key) && (*old(
                    self.world,
                ))@.components[key].contains_key(id) && !(self.keys@.contains(key)
                    && matched_ids(&*old(self.world), self.keys@, &self.filter).contains(id))
                    ==> (*final(self.world))@.components[key][id] == (*old(
                    self.world,
                ))@.components[key][id],
    {
        let ghost start = self.world@;
        let ghost wfin = (*final(self.world))@;
        let ghost f0 = f;
        let ghost m = matched_ids(&*self.world, self.keys@, &self.filter);
        proof {
            lemma_matched_ids(&*self.world, self.keys@, &self.filter);
        }
        let QueryMut { world, keys, filter } = self;
        let ids = matching_ids(world, &keys, &filter);
        let ghost kseq = keys@;
        let mut g = f;
        let mut out: Vec<Entity> = Vec::new();
        let ghost mut seen: Seq<Vec<&mut C>> = Seq::empty();
        let mut k: usize = 0;
        while k < ids.len()
            invariant
                world.wf(),
                keys@ == kseq,
                kseq.len() >= 1,
                kseq.no_duplicates(),
                ids@ == m,
                m.no_duplicates(),
                forall|i: int| 0 <= i < m.len() ==> has_all(start, kseq, #[trigger] m[i]),
                k <= m.len(),
                g == f0,
                forall|e: Entity, row: Vec<&mut C>| f0.requires((e, row)),
                world@ == (WorldView { components: world@.components, ..start }),
                same_shape(world@.components, start.components),
                out@.len() == k,
                seen.len() == k,
                forall|i: int| 0 <= i < k ==> #[trigger] out@[i] == handle_of(start, m[i]),
                forall|i: int| 0 <= i < k ==> f0.ensures((out@[i], #[trigger] seen[i]), ()),
                forall|i: int| 0 <= i < k ==> (#[trigger] seen[i])@.len() == kseq.len(),
                forall|i: int, j: int|
                    0 <= i < k && 0 <= j < kseq.len() ==> *(#[trigger] seen[i]@[j]) == start.storage(kseq[j])[m[i]]
                        && *final(seen[i]@[j]) == world@.storage(kseq[j])[m[i]],
                forall|key: u32, id: u32|
                    #![trigger world@.components[key][id]]
                    start.components.contains_key(key) && start.components[key].contains_key(id)
                        && !(kseq.contains(key) && m.subrange(0, k as int).contains(id))
                        ==> world@.components[key][id] == start.components[key][id],
            decreases m.len() - k,
        {
            let id = ids[k];
            let entity = Entity::from_raw(id, world.generation(id));
            proof {
                assert(has_all(start, kseq, id));
                assert forall|j: int| 0 <= j < kseq.len() implies world.storages.storage_of(#[trigger] kseq[j]).contains_key(id) by {
                    assert(start.storage(kseq[j]).contains_key(id));
                }
            }
            let ghost before = world@;
            let row = world.storages.row_mut(&keys, id);
            let ghost rr = row;
            g(entity, row);
            proof {
                let v = world@;
                let vals = rr@.map_values(|x: &mut C| *final(x));
                assert(v.components == crate::directory::with_row(before.components, kseq, id, vals));
                assert(!m.subrange(0, k as int).contains(id)) by {
                    if m.subrange(0, k as int).contains(id) {
                        let q = choose|q: int| 0 <= q < k && m.subrange(0, k as int)[q] == id;
                        assert(m[q] == m[k as int]);
                    }
                }
                assert forall|j: int| 0 <= j < kseq.len() implies #[trigger] v.storage(kseq[j]) == before.storage(kseq[j]).insert(id, vals[j]) by {
                    assert(kseq.contains(kseq[j]));
                    let q = kseq.index_of(kseq[j]);
                    assert(kseq[q] == kseq[j]);
                    assert(q == j);
                    assert(start.storage(kseq[j]).contains_key(id));
                    assert(start.components.contains_key(kseq[j]));
                    assert(before.components.contains_key(kseq[j]));
                }
                assert(same_shape(v.components, start.components)) by {
                    assert(v.components.dom() =~= start.components.dom());
                    assert forall|key: u32| #[trigger] v.components.contains_key(key) implies v.components[key].dom() == start.components[key].dom() by {
                        assert(before.components.contains_key(key));
                        assert(before.components[key].dom() == start.components[key].dom());
                        if kseq.contains(key) {
                            let j = kseq.index_of(key);
                            assert(kseq[j] == key);
                            assert(start.storage(kseq[j]).contains_key(id));
                            assert(before.components[key].contains_key(id));
                            assert(v.components[key] == before.components[key].insert(id, vals[j]));
                            assert(v.components[key].dom() =~= before.components[key].dom());
                        } else {
                            assert(v.components[key] == before.components[key]);
                        }
                    }
                }
                assert forall|key: u32, i: u32|
                    #[trigger] v.components.contains_key(key) && #[trigger] v.components[key].contains_key(i)
                    implies v.alive.contains(i) by {
                    assert(before.components.contains_key(key));
                    assert(before.components[key].contains_key(i));
                }
                assert(world.storages.wf());
                assert(v.tag_names == before.tag_names);
                assert(v.alive == before.alive);
                assert(v.next_id == before.next_id);
                assert(v.tag_masks == before.tag_masks);
                assert(v.free_ids == before.free_ids);
                assert(v == (WorldView { components: v.components, ..start }));
                // the previous rows are untouched
                assert forall|i: int, j: int|
                    0 <= i < k && 0 <= j < kseq.len() implies *final(seen[i]@[j]) == v.storage(kseq[j])[m[i]] by {
                    assert(m[i] != id);
                }
                assert forall|j: int| 0 <= j < kseq.len() implies *(#[trigger] rr@[j]) == start.storage(kseq[j])[id]
                    && *final(rr@[j]) == v.storage(kseq[j])[id] by {
                    assert(start.components.contains_key(kseq[j]));
                    assert(start.storage(kseq[j]).contains_key(id));
                    assert(kseq.contains(kseq[j]));
                    assert(before.components[kseq[j]][id] == start.components[kseq[j]][id]);
                }
                assert forall|key: u32, i: u32|
                    #![trigger v.components[key][i]]
                    start.components.contains_key(key) && start.components[key].contains_key(i)
                        && !(kseq.contains(key) && m.subrange(0, k + 1).contains(i))
                        implies v.components[key][i] == start.components[key][i] by {
                    assert(before.components.contains_key(key));
                    if kseq.contains(key) {
                        assert(m.subrange(0, k + 1)[k as int] == id);
                        assert(i != id);
                        assert(!m.subrange(0, k as int).contains(i)) by {
                            if m.subrange(0, k as int).contains(i) {
                                let q = choose|q: int| 0 <= q < k && m.subrange(0, k as int)[q] == i;
                                assert(m.subrange(0, k + 1)[q] == i);
                            }
                        }
                    }
                }
                seen = seen.push(rr);
            }
            out.push(entity);
            k = k + 1;
        }
        proof {
            assert(has_resolved(world));
            assert(world@ == (*final(self.world))@);
            assert(start == (*old(self.world))@);
            assert(kseq == self.keys@);
            assert(f0 == f);
            assert(m.subrange(0, m.len() as int) =~= m);
            assert forall|i: int| 0 <= i < out@.len() implies visited_mut(
                f0,
                start,
                kseq,
                #[trigger] out@[i],
                |row: Vec<&'w mut C>| row@.map_values(|x: &'w mut C| *final(x)),
                wfin,
            ) by {
                let row = seen[i];
                assert(out@[i].spec_id() == m[i]);
                assert(row@.len() == kseq.len());
                assert(f0.ensures((out@[i], row), ()));
            }
        }
        out
    }
}

} // verus!
