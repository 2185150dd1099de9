use kon_ecs::{Entity, World};

#[derive(Debug, Clone, PartialEq)]
enum Comp {
    Health(i32),
}

const HEALTH: u32 = 0;

#[test]
fn health_decrement_end_to_end() {
    let mut world: World<Comp> = World::new();
    let e = world.spawn().insert(HEALTH, Comp::Health(100)).id();
    world.select_mut(vec![HEALTH]).each(|_, comps| {
        for c in comps {
            let Comp::Health(h) = c;
            *h -= 20;
        }
    });
    assert_eq!(world.get(e, HEALTH), Some(&Comp::Health(80)));
}

#[test]
fn npc_not_friendly_end_to_end() {
    let mut world: World<Comp> = World::new();
    let lone = world.spawn().insert(HEALTH, Comp::Health(1)).tag("npc").id();
    world.spawn().insert(HEALTH, Comp::Health(2)).tag("npc").tag("friendly");
    world.spawn().insert(HEALTH, Comp::Health(3)).tag("npc").tag("friendly");
    let mut seen: Vec<Entity> = Vec::new();
    world.select(vec![HEALTH]).tagged("npc").not_tagged("friendly").each(|e, _| seen.push(e));
    assert_eq!(seen, vec![lone]);
}

#[test]
fn generation_safety_on_reuse() {
    let mut world: World<Comp> = World::new();
    let e1 = world.spawn().id();
    assert!(world.destroy(e1));
    let e2 = world.spawn().id();
    assert_eq!(e1.id(), e2.id());
    assert_ne!(e1, e2);
    assert!(!world.is_alive(e1));
    assert!(world.is_alive(e2));
}

#[test]
fn destroy_twice_changes_nothing_more() {
    let mut world: World<Comp> = World::new();
    let e = world.spawn().insert(HEALTH, Comp::Health(5)).tag("x").id();
    let other = world.spawn().insert(HEALTH, Comp::Health(6)).tag("x").id();
    assert!(world.destroy(e));
    let count = world.entity_count();
    assert!(!world.destroy(e));
    assert_eq!(world.entity_count(), count);
    assert_eq!(world.get(other, HEALTH), Some(&Comp::Health(6)));
    assert!(world.has_tag(other, "x"));
    assert!(!world.has_tag(e, "x"));
    let reused = world.spawn().id();
    assert_eq!(reused, Entity::new(e.id(), 1));
}

#[test]
fn destroy_clears_components_and_tags() {
    let mut world: World<Comp> = World::new();
    let e = world.spawn().insert(HEALTH, Comp::Health(5)).tag("p").tag("q").id();
    world.destroy(e);
    assert!(!world.has(e, HEALTH));
    assert!(!world.has_tag(e, "p"));
    assert!(!world.has_tag(e, "q"));
    let again = world.spawn().id();
    assert!(!world.has(again, HEALTH));
    assert!(!world.has_tag(again, "p"));
    assert!(world.get_entity_tags(again.id()).is_empty());
}
