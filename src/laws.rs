//! Properties that relate several operations, stated over the models the
//! operations' contracts use and proved from them.

use vstd::prelude::*;
use crate::entity::Entity;
use crate::query::Query;
use crate::storage::SparseSet;
use crate::world::{DeferredOp, World, WorldView, MAX_TAGS};

verus! {

/// A sparse set returns what was inserted: after `insert(id, value)`,
/// `get(id)` is `Some(value)`.
pub proof fn lemma_sparse_round_trip<T>(s: SparseSet<T>, id: u32, value: T)
    requires
        s.wf(),
    ensures
        s@.insert(id, value).contains_key(id),
        s@.insert(id, value)[id] == value,
{
}

/// Removing one id keeps every other id and its value, and the size drops
/// by one exactly when the id was present.
pub proof fn lemma_sparse_remove_keeps_others<T>(s: SparseSet<T>, id: u32, other: u32)
    requires
        s.wf(),
        other != id,
    ensures
        !s@.remove(id).contains_key(id),
        s@.remove(id).contains_key(other) == s@.contains_key(other),
        s@.contains_key(other) ==> s@.remove(id)[other] == s@[other],
        s@.contains_key(id) ==> s@.remove(id).len() == s@.len() - 1,
        !s@.contains_key(id) ==> s@.remove(id).len() == s@.len(),
{
    s.lemma_len();
    if !s@.contains_key(id) {
        assert(s@.remove(id) =~= s@);
    }
}

/// Inserting twice under one id keeps the second value and the size after
/// the first insert.
pub proof fn lemma_sparse_insert_overwrite<T>(s: SparseSet<T>, id: u32, a: T, b: T)
    requires
        s.wf(),
    ensures
        s@.insert(id, a).insert(id, b).contains_key(id),
        s@.insert(id, a).insert(id, b)[id] == b,
        s@.insert(id, a).insert(id, b).len() == s@.insert(id, a).len(),
{
    s.lemma_len();
    assert(s@.insert(id, a).insert(id, b).dom() =~= s@.insert(id, a).dom());
}

/// A spawned entity is live.
pub proof fn lemma_spawned_is_alive<C>(w: &World<C>)
    requires
        w.wf(),
        w@.can_spawn(),
    ensures
        w@.spawn().is_alive(w@.spawned()),
{
}

/// Generation safety: spawn `e1`, destroy it, and spawn `e2`. Then `e1`
/// is dead, `e2` is live and the two differ. While the generation of the id
/// is below `u32::MAX`, `e2` reuses the id of `e1`; at `u32::MAX` the id is
/// retired and `e2` gets another one.
pub proof fn lemma_generation_safety<C>(w: &World<C>)
    requires
        w.wf(),
        w@.can_spawn(),
    ensures
        ({
            let e1 = w@.spawned();
            let v2 = w@.spawn().destroy(e1);
            let e2 = v2.spawned();
            let v3 = v2.spawn();
            &&& !v2.is_alive(e1)
            &&& e1.spec_generation() < u32::MAX ==> v2.can_spawn() && e2.spec_id() == e1.spec_id()
                && e2.spec_generation() == e1.spec_generation() + 1
            &&& v2.can_spawn() ==> e1 != e2 && !v3.is_alive(e1) && v3.is_alive(e2)
        }),
{
    let e1 = w@.spawned();
    let v1 = w@.spawn();
    let v2 = v1.destroy(e1);
    let id = e1.spec_id();
    assert(v1.is_alive(e1));
    let v = w@;
    // ids free in v2, other than id itself, were free and not live before
    assert forall|i: int| 0 <= i < v1.free_ids.len() implies v1.free_ids[i] != id && v1.free_ids[i] < v1.next_id by {
        if v.free_ids.len() > 0 {
            assert(v1.free_ids[i] == v.free_ids[i]);
            assert(v.free_ids[v.free_ids.len() - 1] == id);
        } else {
            assert(v1.free_ids[i] == v.free_ids[i]);
        }
    }
    if e1.spec_generation() < u32::MAX {
        assert(v2.free_ids.last() == id);
    } else {
        assert(v2.generations == v1.generations);
        assert(v2.free_ids == v1.free_ids);
        if v2.can_spawn() {
            let e2 = v2.spawned();
            if v2.free_ids.len() > 0 {
                assert(v2.free_ids[v2.free_ids.len() - 1] != id);
            } else {
                assert(id < v1.next_id);
            }
            assert(e2.spec_id() != id);
        }
    }
}

/// Generations never decrease: neither a spawn nor a destroy lowers the
/// generation of any id.
pub proof fn lemma_generations_grow<C>(w: &World<C>, e: Entity, id: u32)
    requires
        w.wf(),
    ensures
        w@.destroy(e).generation_of(id) >= w@.generation_of(id),
        w@.can_spawn() ==> w@.spawn().generation_of(id) >= w@.generation_of(id),
{
}

/// The tag registry is bounded: a well-formed world has at most `MAX_TAGS`
/// names, and once it has that many, a name not yet registered cannot be
/// attached (`World::tag` requires `can_tag`), so the registry never grows
/// past the limit.
pub proof fn lemma_tag_limit<C>(w: &World<C>, e: Entity, name: Seq<char>)
    requires
        w.wf(),
    ensures
        w@.tag_names.len() <= MAX_TAGS,
        w@.tag_names.len() == MAX_TAGS && !w@.tag_names.contains(name) ==> !w@.can_tag(name),
        w@.can_tag(name) ==> w@.tag(e, name).tag_names.len() <= MAX_TAGS,
{
}

/// After destroying a live entity no storage holds a component for its id,
/// it has no component under any key, and its id carries no tag.
pub proof fn lemma_destroy_clears_everything<C>(v: WorldView<C>, e: Entity, key: u32, name: Seq<char>)
    requires
        v.is_alive(e),
        v.tag_names.len() <= MAX_TAGS,
    ensures
        !v.destroy(e).storage(key).contains_key(e.spec_id()),
        !v.destroy(e).has(e, key),
        !v.destroy(e).has_tag(e.spec_id(), name),
{
    let d = v.destroy(e);
    assert(d.mask(e.spec_id()) == 0u128);
    if d.tag_names.contains(name) {
        let i = d.tag_names.index_of(name);
        assert(0 <= i < 128);
        let s = i as u128;
        assert(0u128 & (1u128 << s) == 0u128) by (bit_vector)
            requires s < 128;
    }
}

/// Destroying twice is destroying once: the second call finds the handle
/// dead and changes nothing.
pub proof fn lemma_destroy_idempotent<C>(v: WorldView<C>, e: Entity)
    ensures
        !v.destroy(e).is_alive(e),
        v.destroy(e).destroy(e) == v.destroy(e),
{
}

/// Applying a queue in two parts is applying the first part, then the
/// second: deferred mutations take effect in the order they were queued.
pub proof fn lemma_apply_in_order<C>(v: WorldView<C>, first: Seq<DeferredOp<C>>, then: Seq<DeferredOp<C>>)
    ensures
        v.apply_all(first + then) == v.apply_all(first).apply_all(then),
    decreases then.len(),
{
    if then.len() == 0 {
        assert(first + then =~= first);
    } else {
        lemma_apply_in_order(v, first, then.drop_last());
        assert((first + then).drop_last() =~= first + then.drop_last());
        assert((first + then).last() == then.last());
    }
}

/// A query yields an entity id exactly when the id has a component under
/// every key of the query and passes the tag filter.
pub proof fn lemma_query_is_intersection<'w, C>(q: &Query<'w, C>, id: u32)
    requires
        q.wf(),
    ensures
        q.matched().contains(id) <==> q.selects(id),
{
    broadcast use vstd::seq_lib::group_filter_ensures;
    let cands = q.candidates();
    let pred = |i: u32| q.selects(i);
    let dir = &q.world.storages;
    let key = q.keys@[0];
    if dir.keys@.contains(key) {
        let p = dir.keys@.index_of(key);
        dir.lemma_position(p);
        dir.sets@[p].lemma_ids();
    }
    if q.selects(id) {
        assert(q.world@.storage(key).contains_key(id));
        assert(cands.to_set().contains(id));
        let k = choose|k: int| 0 <= k < cands.len() && cands[k] == id;
        cands.lemma_filter_contains(pred, k);
    }
    if q.matched().contains(id) {
        let k = choose|k: int| 0 <= k < q.matched().len() && q.matched()[k] == id;
        cands.lemma_filter_pred(pred, k);
    }
}

} // verus!
