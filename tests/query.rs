use kon_ecs::{Entity, QueryFilter, World};

#[derive(Debug, Clone, PartialEq)]
enum Comp {
    Health(i32),
    Position { x: f32, y: f32 },
    Velocity { x: f32, y: f32 },
}

const HEALTH: u32 = 0;
const POSITION: u32 = 1;
const VELOCITY: u32 = 2;

fn health_of(world: &World<Comp>, entity: Entity) -> i32 {
    match world.get(entity, HEALTH) {
        Some(Comp::Health(h)) => *h,
        _ => panic!("no health"),
    }
}

fn damage(_: Entity, comps: Vec<&mut Comp>) {
    for c in comps {
        if let Comp::Health(h) = c {
            *h -= 20;
        }
    }
}

#[test]
fn query_single_component() {
    let mut world: World<Comp> = World::new();
    world.spawn().insert(HEALTH, Comp::Health(100));
    world.spawn().insert(HEALTH, Comp::Health(50));

    let mut entity_count = 0;
    world.select(vec![HEALTH]).each(|_, _| {
        entity_count += 1;
    });

    assert_eq!(entity_count, 2);
}

#[test]
fn query_multiple_components() {
    let mut world: World<Comp> = World::new();
    world.spawn().insert(HEALTH, Comp::Health(100));
    world
        .spawn()
        .insert(HEALTH, Comp::Health(50))
        .insert(VELOCITY, Comp::Velocity { x: 5.0, y: 5.0 });

    let mut entity_count = 0;
    world.select(vec![HEALTH, VELOCITY]).each(|_, _| {
        entity_count += 1;
    });

    assert_eq!(entity_count, 1);
}

#[test]
fn query_three_components() {
    let mut world: World<Comp> = World::new();
    world.spawn().insert(HEALTH, Comp::Health(100));
    world
        .spawn()
        .insert(HEALTH, Comp::Health(50))
        .insert(VELOCITY, Comp::Velocity { x: 5.0, y: 5.0 });
    world
        .spawn()
        .insert(HEALTH, Comp::Health(20))
        .insert(VELOCITY, Comp::Velocity { x: 10.0, y: 0.0 })
        .insert(POSITION, Comp::Position { x: 100.0, y: 30.0 });

    let mut entity_count = 0;
    world.select(vec![HEALTH, VELOCITY, POSITION]).each(|_, _| {
        entity_count += 1;
    });

    assert_eq!(entity_count, 1);
}

#[test]
fn query_empty_world() {
    let world: World<Comp> = World::new();

    let mut entity_count = 0;
    world.select(vec![HEALTH]).each(|_, _| {
        entity_count += 1;
    });

    assert_eq!(entity_count, 0);
}

#[test]
fn query_with_tagged() {
    let mut world: World<Comp> = World::new();
    world.spawn().insert(HEALTH, Comp::Health(100)).tag("player");
    world.spawn().insert(HEALTH, Comp::Health(50));

    let mut entity_count = 0;
    world.select(vec![HEALTH]).tagged("player").each(|_, _| {
        entity_count += 1;
    });

    assert_eq!(entity_count, 1);
}

#[test]
fn query_with_not_tagged() {
    let mut world: World<Comp> = World::new();
    world.spawn().insert(HEALTH, Comp::Health(100)).tag("npc");
    world.spawn().insert(HEALTH, Comp::Health(50)).tag("npc");
    world.spawn().insert(HEALTH, Comp::Health(80));

    let mut entity_count = 0;
    world.select(vec![HEALTH]).not_tagged("npc").each(|_, _| {
        entity_count += 1;
    });

    assert_eq!(entity_count, 1);
}

#[test]
fn query_multiple_tag_filters() {
    let mut world: World<Comp> = World::new();
    world.spawn().insert(HEALTH, Comp::Health(100)).tag("npc");
    world.spawn().insert(HEALTH, Comp::Health(50)).tag("npc").tag("friendly");
    world.spawn().insert(HEALTH, Comp::Health(80)).tag("npc").tag("friendly");

    let mut entity_count = 0;
    world
        .select(vec![HEALTH])
        .tagged("npc")
        .not_tagged("friendly")
        .each(|_, _| {
            entity_count += 1;
        });

    assert_eq!(entity_count, 1);
}

#[test]
fn query_no_matching_tags() {
    let mut world: World<Comp> = World::new();
    world.spawn().insert(HEALTH, Comp::Health(100)).tag("npc");
    world.spawn().insert(HEALTH, Comp::Health(50)).tag("friendly");

    let mut entity_count = 0;
    world.select(vec![HEALTH]).tagged("player").each(|_, _| {
        entity_count += 1;
    });

    assert_eq!(entity_count, 0);
}

#[test]
fn query_mut_modifies_components() {
    let mut world: World<Comp> = World::new();
    let entity = world.spawn().insert(HEALTH, Comp::Health(100)).id();

    world.select_mut(vec![HEALTH]).each(damage);

    assert_eq!(health_of(&world, entity), 80);
}

#[test]
fn query_mut_multiple_entities() {
    let mut world: World<Comp> = World::new();
    let entity = world.spawn().insert(HEALTH, Comp::Health(100)).id();
    let entity2 = world.spawn().insert(HEALTH, Comp::Health(50)).id();

    world.select_mut(vec![HEALTH]).each(damage);

    assert_eq!(health_of(&world, entity), 80);
    assert_eq!(health_of(&world, entity2), 30);
}

#[test]
fn query_nonexistent_component() {
    let mut world: World<Comp> = World::new();
    world.spawn().insert(HEALTH, Comp::Health(100));

    let mut entity_count = 0;
    world.select(vec![POSITION]).each(|_, _| {
        entity_count += 1;
    });

    assert_eq!(entity_count, 0);
}

#[test]
fn query_partial_match() {
    let mut world: World<Comp> = World::new();
    world.spawn().insert(HEALTH, Comp::Health(100));

    let mut entity_count = 0;
    world.select(vec![HEALTH, POSITION]).each(|_, _| {
        entity_count += 1;
    });

    assert_eq!(entity_count, 0);
}

#[test]
fn query_intersection_yields_exact_entities() {
    let mut world: World<Comp> = World::new();
    let a = world.spawn().insert(HEALTH, Comp::Health(1)).id();
    let ab = world
        .spawn()
        .insert(HEALTH, Comp::Health(2))
        .insert(POSITION, Comp::Position { x: 0.0, y: 0.0 })
        .id();
    let abc = world
        .spawn()
        .insert(HEALTH, Comp::Health(3))
        .insert(POSITION, Comp::Position { x: 1.0, y: 1.0 })
        .insert(VELOCITY, Comp::Velocity { x: 2.0, y: 2.0 })
        .id();
    let two: Vec<Entity> = world.select(vec![HEALTH, POSITION]).collect().into_iter().map(|(e, _)| e).collect();
    assert_eq!(two, vec![ab, abc]);
    let three: Vec<Entity> = world
        .select(vec![HEALTH, POSITION, VELOCITY])
        .collect()
        .into_iter()
        .map(|(e, _)| e)
        .collect();
    assert_eq!(three, vec![abc]);
    assert!(!two.contains(&a));
}

#[test]
fn query_rows_follow_key_order() {
    let mut world: World<Comp> = World::new();
    let e = world
        .spawn()
        .insert(POSITION, Comp::Position { x: 1.0, y: 2.0 })
        .insert(HEALTH, Comp::Health(9))
        .id();
    let rows = world.select(vec![HEALTH, POSITION]).collect();
    assert_eq!(rows.len(), 1);
    assert_eq!(rows[0].0, e);
    assert_eq!(rows[0].1, vec![&Comp::Health(9), &Comp::Position { x: 1.0, y: 2.0 }]);
}

#[test]
fn query_mut_two_components_at_once() {
    let mut world: World<Comp> = World::new();
    let e = world
        .spawn()
        .insert(POSITION, Comp::Position { x: 1.0, y: 2.0 })
        .insert(VELOCITY, Comp::Velocity { x: 0.5, y: -1.0 })
        .id();
    let still = world.spawn().insert(POSITION, Comp::Position { x: 0.0, y: 0.0 }).tag("frozen").id();
    world
        .select_mut(vec![POSITION, VELOCITY])
        .not_tagged("frozen")
        .each(|_, comps| {
            let mut it = comps.into_iter();
            let pos = it.next().unwrap();
            let vel = it.next().unwrap();
            if let (Comp::Position { x, y }, Comp::Velocity { x: vx, y: vy }) = (pos, vel) {
                *x += *vx;
                *y += *vy;
            }
        });
    assert_eq!(world.get(e, POSITION), Some(&Comp::Position { x: 1.5, y: 1.0 }));
    assert_eq!(world.get(still, POSITION), Some(&Comp::Position { x: 0.0, y: 0.0 }));
}

#[test]
fn filter_matches_directly() {
    let mut world: World<Comp> = World::new();
    let e = world.spawn().tag("a").id();
    let filter = QueryFilter::new();
    assert!(filter.matches(&world, e));
    world.untag(e, "a");
    assert!(filter.matches(&world, e));
}

#[test]
fn each_reports_visited_entities_in_dense_order() {
    let mut world: World<Comp> = World::new();
    let a = world.spawn().insert(HEALTH, Comp::Health(1)).id();
    let b = world.spawn().insert(HEALTH, Comp::Health(2)).tag("npc").id();
    let c = world.spawn().insert(HEALTH, Comp::Health(3)).id();
    world.remove(a, HEALTH);
    let mut sum = 0;
    let seen = world.select(vec![HEALTH]).each(|_, comps| {
        if let Comp::Health(h) = comps[0] {
            sum += *h;
        }
    });
    assert_eq!(seen, vec![c, b]);
    assert_eq!(sum, 5);
    let tagged = world.select(vec![HEALTH]).tagged("npc").each(|_, _| {});
    assert_eq!(tagged, vec![b]);
    let none = world.select(vec![VELOCITY]).each(|_, _| panic!("no storage"));
    assert!(none.is_empty());
    let written = world.select_mut(vec![HEALTH]).not_tagged("npc").each(damage);
    assert_eq!(written, vec![c]);
    assert_eq!(health_of(&world, c), -17);
    assert_eq!(health_of(&world, b), 2);
}
