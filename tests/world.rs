use kon_ecs::{DeferredOp, Entity, World};

#[derive(Debug, Clone, PartialEq)]
enum Comp {
    Health(i32),
    Position { x: f32, y: f32 },
}

const HEALTH: u32 = 0;
const POSITION: u32 = 1;

fn health_of(world: &World<Comp>, entity: Entity) -> Option<i32> {
    match world.get(entity, HEALTH) {
        Some(Comp::Health(h)) => Some(*h),
        _ => None,
    }
}

#[test]
fn spawn_entity() {
    let mut world: World<Comp> = World::new();
    let entity = world.spawn().id();
    assert!(world.is_alive(entity));
    assert_eq!(world.entity_count(), 1);
}

#[test]
fn destroy_entity() {
    let mut world: World<Comp> = World::new();
    let entity = world.spawn().id();
    world.destroy(entity);
    assert!(!world.is_alive(entity));
    assert_eq!(world.entity_count(), 0);
}

#[test]
fn destroy_dead_entity_returns_false() {
    let mut world: World<Comp> = World::new();
    let entity = world.spawn().id();
    world.destroy(entity);
    assert!(!world.destroy(entity));
}

#[test]
fn entity_count() {
    let mut world: World<Comp> = World::new();
    world.spawn().id();
    world.spawn().id();
    world.spawn().id();
    assert_eq!(world.entity_count(), 3);
}

#[test]
fn entity_reuse_after_destroy() {
    let mut world: World<Comp> = World::new();
    let entity = world.spawn().id();
    world.destroy(entity);
    let new_entity = world.spawn().id();
    assert_eq!(entity.id(), new_entity.id());
    assert_ne!(entity.generation(), new_entity.generation());
}

#[test]
fn generation_tracking() {
    let mut world: World<Comp> = World::new();
    let entity = world.spawn().id();
    world.destroy(entity);
    let entity2 = world.spawn().id();
    world.destroy(entity2);
    let entity3 = world.spawn().id();

    assert_eq!(entity.generation(), 0);
    assert_eq!(entity2.generation(), 1);
    assert_eq!(entity3.generation(), 2);
}

#[test]
fn insert_and_get_component() {
    let mut world: World<Comp> = World::new();
    let entity = world.spawn().id();

    world.insert(entity, HEALTH, Comp::Health(100));

    let health = health_of(&world, entity).unwrap();
    assert_eq!(health, 100);
}

#[test]
fn get_nonexistent_component() {
    let mut world: World<Comp> = World::new();
    let entity = world.spawn().id();
    assert_eq!(world.get(entity, HEALTH), None);
}

#[test]
fn get_mut_component() {
    let mut world: World<Comp> = World::new();
    let entity = world.spawn().id();

    world.insert(entity, HEALTH, Comp::Health(100));

    {
        if let Some(Comp::Health(h)) = world.get_mut(entity, HEALTH) {
            *h -= 30;
        }
    }

    assert_eq!(health_of(&world, entity).unwrap(), 70);
}

#[test]
fn has_component() {
    let mut world: World<Comp> = World::new();
    let entity = world.spawn().id();

    world.insert(entity, HEALTH, Comp::Health(100));

    assert!(world.has(entity, HEALTH));
    assert!(!world.has(entity, POSITION));
}

#[test]
fn remove_component() {
    let mut world: World<Comp> = World::new();
    let entity = world.spawn().id();

    world.insert(entity, HEALTH, Comp::Health(100));
    world.remove(entity, HEALTH);

    assert!(!world.has(entity, HEALTH));
    assert_eq!(world.get(entity, HEALTH), None);
}

#[test]
fn remove_nonexistent_component() {
    let mut world: World<Comp> = World::new();
    let entity = world.spawn().id();
    assert!(!world.remove(entity, HEALTH));
}

#[test]
fn insert_overwrites_component() {
    let mut world: World<Comp> = World::new();
    let entity = world.spawn().id();
    world.insert(entity, HEALTH, Comp::Health(100));
    world.insert(entity, HEALTH, Comp::Health(50));
    assert_eq!(health_of(&world, entity).unwrap(), 50);
}

#[test]
fn destroy_clears_all_components() {
    let mut world: World<Comp> = World::new();
    let entity = world.spawn().id();
    world.insert(entity, HEALTH, Comp::Health(100));
    world.insert(entity, POSITION, Comp::Position { x: 10.0, y: 60.0 });
    world.destroy(entity);
    assert!(!world.has(entity, HEALTH));
    assert!(!world.has(entity, POSITION));
}

#[test]
fn tag_and_has_tag() {
    let mut world: World<Comp> = World::new();
    let entity = world.spawn().id();
    world.tag(entity, "player");
    assert!(world.has_tag(entity, "player"));
}

#[test]
fn untag_removes_tag() {
    let mut world: World<Comp> = World::new();
    let entity = world.spawn().id();
    world.tag(entity, "player");
    world.untag(entity, "player");
    assert!(!world.has_tag(entity, "player"));
}

#[test]
fn multiple_tags_on_entity() {
    let mut world: World<Comp> = World::new();
    let entity = world.spawn().id();
    world.tag(entity, "npc");
    world.tag(entity, "friendly");
    world.tag(entity, "tradeable");
    assert!(world.has_tag(entity, "npc"));
    assert!(world.has_tag(entity, "friendly"));
    assert!(world.has_tag(entity, "tradeable"));
}

#[test]
fn destroy_clears_tags() {
    let mut world: World<Comp> = World::new();
    let entity = world.spawn().id();
    world.tag(entity, "npc");
    world.tag(entity, "friendly");
    world.tag(entity, "tradeable");
    world.destroy(entity);
    assert_eq!(world.get_tag_mask(entity.id()), 0);
}

#[test]
fn insert_on_dead_entity_ignored() {
    let mut world: World<Comp> = World::new();
    let entity = world.spawn().id();

    world.destroy(entity);
    world.insert(entity, HEALTH, Comp::Health(100));

    assert!(!world.has(entity, HEALTH));
}

#[test]
fn get_from_dead_entity_returns_none() {
    let mut world: World<Comp> = World::new();
    let entity = world.spawn().id();

    world.insert(entity, HEALTH, Comp::Health(100));
    world.destroy(entity);

    assert_eq!(world.get(entity, HEALTH), None);
}

#[test]
fn tag_on_dead_entity_ignored() {
    let mut world: World<Comp> = World::new();
    let entity = world.spawn().id();

    world.destroy(entity);
    world.tag(entity, "player");

    assert!(!world.has_tag(entity, "player"));
}

#[test]
fn entity_builder_chain() {
    let mut world: World<Comp> = World::new();
    let entity = world
        .spawn()
        .insert(HEALTH, Comp::Health(100))
        .insert(POSITION, Comp::Position { x: 5.0, y: 7.0 })
        .tag("player")
        .id();
    assert!(world.has(entity, HEALTH));
    assert!(world.has(entity, POSITION));
    assert!(world.has_tag(entity, "player"));
}

#[test]
fn defer_spawns_entity() {
    let mut world: World<Comp> = World::new();

    world.defer(DeferredOp::Spawn(vec![]));

    assert_eq!(world.entity_count(), 0);

    world.apply_deferred();

    assert_eq!(world.entity_count(), 1);
}

#[test]
fn multiple_deferred_operations() {
    let mut world: World<Comp> = World::new();

    for i in 0..10 {
        world.defer(DeferredOp::Spawn(vec![(HEALTH, Comp::Health(i))]));
    }

    world.apply_deferred();
    assert_eq!(world.entity_count(), 10);
}

#[test]
fn deferred_cleared_after_apply() {
    let mut world: World<Comp> = World::new();
    world.defer(DeferredOp::Spawn(vec![]));
    world.apply_deferred();
    assert_eq!(world.deferred_count(), 0);
}

#[test]
fn entity_tags_in_bit_order() {
    let mut world: World<Comp> = World::new();
    let a = world.spawn().tag("b").tag("a").id();
    let b = world.spawn().tag("c").id();
    assert_eq!(world.get_entity_tags(a.id()), vec!["b".to_string(), "a".to_string()]);
    assert_eq!(world.get_entity_tags(b.id()), vec!["c".to_string()]);
    assert!(world.get_entity_tags(99).is_empty());
    assert_eq!(world.get_tag_mask(a.id()), 0b11);
    assert_eq!(world.get_tag_mask(b.id()), 0b100);
}

#[test]
fn tag_limit_reached_with_registered_names() {
    let mut world: World<Comp> = World::new();
    let e = world.spawn().id();
    for i in 0..128 {
        let name = format!("tag_{}", i);
        world.tag(e, &name);
    }
    assert!(world.has_tag(e, "tag_0"));
    assert!(world.has_tag(e, "tag_127"));
    assert_eq!(world.get_tag_mask(e.id()), u128::MAX);
    world.untag(e, "tag_127");
    assert_eq!(world.get_tag_mask(e.id()), u128::MAX >> 1);
}

#[test]
fn stale_handle_is_rejected() {
    let mut world: World<Comp> = World::new();
    let old = world.spawn().insert(HEALTH, Comp::Health(1)).id();
    world.destroy(old);
    let new = world.spawn().insert(HEALTH, Comp::Health(2)).id();
    assert_eq!(old.id(), new.id());
    assert_eq!(world.get(old, HEALTH), None);
    assert!(!world.remove(old, HEALTH));
    world.insert(old, HEALTH, Comp::Health(3));
    assert_eq!(health_of(&world, new), Some(2));
    assert!(!world.destroy(old));
    assert!(world.is_alive(new));
}

#[test]
fn fresh_ids_then_freed_ids_last_first() {
    let mut world: World<Comp> = World::new();
    let a = world.spawn().id();
    let b = world.spawn().id();
    let c = world.spawn().id();
    assert_eq!((a.id(), b.id(), c.id()), (0, 1, 2));
    world.destroy(a);
    world.destroy(c);
    assert_eq!(world.spawn().id(), Entity::new(2, 1));
    assert_eq!(world.spawn().id(), Entity::new(0, 1));
    assert_eq!(world.spawn().id(), Entity::new(3, 0));
    assert!(world.can_spawn());
}

#[test]
fn deferred_ops_apply_in_order() {
    let mut world: World<Comp> = World::new();
    let e = world.spawn().id();
    world.defer(DeferredOp::Insert(e, HEALTH, Comp::Health(1)));
    world.defer(DeferredOp::Insert(e, HEALTH, Comp::Health(2)));
    world.defer(DeferredOp::Tag(e, "marked".to_string()));
    world.defer(DeferredOp::Untag(e, "marked".to_string()));
    world.defer(DeferredOp::Remove(e, POSITION));
    assert_eq!(world.deferred_count(), 5);
    assert_eq!(health_of(&world, e), None);
    world.apply_deferred();
    assert_eq!(health_of(&world, e), Some(2));
    assert!(!world.has_tag(e, "marked"));
    assert_eq!(world.deferred_count(), 0);
    world.defer(DeferredOp::Destroy(e));
    world.defer(DeferredOp::Spawn(vec![(HEALTH, Comp::Health(7)), (HEALTH, Comp::Health(8))]));
    world.apply_deferred();
    assert!(!world.is_alive(e));
    let reused = Entity::new(e.id(), 1);
    assert!(world.is_alive(reused));
    assert_eq!(health_of(&world, reused), Some(8));
    world.apply_deferred();
    assert_eq!(world.entity_count(), 1);
}

#[test]
fn inspect_lists_live_entities_in_id_order() {
    let mut world: World<Comp> = World::new();
    let a = world
        .spawn()
        .insert(POSITION, Comp::Position { x: 1.0, y: 2.0 })
        .tag("p")
        .id();
    let b = world.spawn().id();
    let c = world.spawn().insert(HEALTH, Comp::Health(3)).id();
    world.destroy(b);
    assert_eq!(world.component_keys(), vec![POSITION, HEALTH]);
    let rows = world.inspect();
    assert_eq!(rows.len(), 2);
    assert_eq!(rows[0].entity, a);
    assert_eq!(rows[0].tags, vec!["p".to_string()]);
    assert_eq!(rows[0].components, vec![Some(&Comp::Position { x: 1.0, y: 2.0 }), None]);
    assert_eq!(rows[1].entity, c);
    assert!(rows[1].tags.is_empty());
    assert_eq!(rows[1].components, vec![None, Some(&Comp::Health(3))]);
    assert_eq!(world.storage(HEALTH).map(|s| s.len()), Some(1));
    assert!(world.storage(7).is_none());
}

#[test]
fn deferred_tag_without_room_is_reported() {
    let mut world: World<Comp> = World::new();
    let e = world.spawn().id();
    for i in 0..128 {
        let name = format!("tag_{}", i);
        world.tag(e, &name);
    }
    assert!(!world.can_tag("extra"));
    assert!(world.can_tag("tag_5"));
    world.defer(DeferredOp::Tag(e, "extra".to_string()));
    world.defer(DeferredOp::Insert(e, HEALTH, Comp::Health(4)));
    let skipped = world.apply_deferred();
    assert_eq!(skipped.len(), 1);
    assert!(matches!(&skipped[0], DeferredOp::Tag(t, name) if *t == e && name == "extra"));
    assert!(!world.has_tag(e, "extra"));
    assert_eq!(health_of(&world, e), Some(4));
    assert!(world.apply_deferred().is_empty());
}

#[test]
fn tagging_dead_entity_with_full_registry_registers_nothing() {
    let mut world: World<Comp> = World::new();
    let e = world.spawn().id();
    for i in 0..128 {
        let name = format!("tag_{}", i);
        world.tag(e, &name);
    }
    let dead = world.spawn().id();
    world.destroy(dead);
    world.tag(dead, "fresh");
    assert!(!world.has_tag(dead, "fresh"));
    assert!(!world.can_tag("fresh"));
}
