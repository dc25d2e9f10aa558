use engine::components::Position;
use engine::components::Sprite;
use engine::components::SpriteId;
use engine::world::Entity;
use engine::world::World;

#[test]
fn spawn_assigns_unique_entities() {
    let mut world = World::new();
    let a = world.spawn();
    let b = world.spawn();
    assert_ne!(a, b);
}

#[test]
fn insert_and_read_component() {
    let mut world = World::new();
    let entity = world.spawn();
    world.insert(entity, Position { x: 1, y: 2 });

    assert_eq!(
        world.component::<Position>(entity),
        Some(&Position { x: 1, y: 2 })
    );
}

#[test]
fn component_mut_updates_in_place() {
    let mut world = World::new();
    let entity = world.spawn();
    world.insert(entity, Position { x: 0, y: 0 });

    if let Some(position) = world.component_mut::<Position>(entity) {
        position.x = 5;
        position.y = 7;
    }

    assert_eq!(
        world.component::<Position>(entity),
        Some(&Position { x: 5, y: 7 })
    );
}

#[test]
fn entities_with_returns_owners_of_component() {
    let mut world = World::new();
    let entity_a = world.spawn();
    let entity_b = world.spawn();
    let entity_c = world.spawn();

    // The sprite component stands in for a plain tag.
    world.insert(entity_a, Sprite(SpriteId::Camp));
    world.insert(entity_c, Sprite(SpriteId::Treat));
    world.insert(entity_a, Position { x: 1, y: 1 });
    world.insert(entity_b, Position { x: 2, y: 2 });

    let tagged: Vec<Entity> = world.entities_with::<Sprite>();
    assert_eq!(tagged.len(), 2);
    assert!(tagged.contains(&entity_a));
    assert!(tagged.contains(&entity_c));
    assert!(!tagged.contains(&entity_b));

    let positioned: Vec<Entity> = world.entities_with::<Position>();
    assert_eq!(positioned.len(), 2);
}

#[test]
fn remove_component_detaches_safely() {
    let mut world = World::new();
    let entity = world.spawn();
    world.insert(entity, Sprite(SpriteId::Camp));
    world.remove_component::<Sprite>(entity);
    assert!(!world.has::<Sprite>(entity));
}

#[test]
fn missing_component_returns_none() {
    let mut world = World::new();
    let entity = world.spawn();
    assert!(world.component::<Position>(entity).is_none());
    assert!(!world.has::<Position>(entity));
}

#[test]
fn entities_are_handed_out_in_order() {
    let mut world = World::new();
    assert_eq!(world.spawn(), Entity(0));
    assert_eq!(world.spawn(), Entity(1));
    assert_eq!(world.entity_count(), 2);
}

#[test]
fn insert_replaces_the_prior_component() {
    let mut world = World::new();
    let entity = world.spawn();
    world.insert(entity, Position { x: 1, y: 1 });
    world.insert(entity, Position { x: 4, y: 9 });
    assert_eq!(world.component::<Position>(entity), Some(&Position { x: 4, y: 9 }));
    assert_eq!(world.component_count::<Position>(), 1);
}

#[test]
fn entities_with_keeps_first_insertion_order() {
    let mut world = World::new();
    let a = world.spawn();
    let b = world.spawn();
    let c = world.spawn();
    world.insert(c, Position { x: 0, y: 0 });
    world.insert(a, Position { x: 0, y: 0 });
    world.insert(b, Position { x: 0, y: 0 });
    world.insert(c, Position { x: 3, y: 3 });
    assert_eq!(world.entities_with::<Position>(), vec![c, a, b]);
}

#[test]
fn removing_a_missing_component_changes_nothing() {
    let mut world = World::new();
    let a = world.spawn();
    let b = world.spawn();
    world.insert(a, Position { x: 2, y: 3 });
    world.remove_component::<Position>(b);
    assert_eq!(world.entities_with::<Position>(), vec![a]);
    assert_eq!(world.component::<Position>(a), Some(&Position { x: 2, y: 3 }));
}

#[test]
fn default_world_is_empty() {
    let world = World::default();
    assert_eq!(world.entity_count(), 0);
    assert_eq!(world.component_count::<Position>(), 0);
}
