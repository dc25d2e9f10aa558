use engine::components::Collected;
use engine::components::Collider;
use engine::components::Direction;
use engine::components::GridMotion;
use engine::components::ObjectKind;
use engine::components::Player;
use engine::components::Position;
use engine::components::Section;
use engine::components::Treat;
use engine::components::TreatKind;
use engine::maze::Maze;
use engine::maze::MazeConfig;
use engine::rng::Rng;
use engine::state::Input;
use engine::systems::active_destination;
use engine::systems::apply_input;
use engine::systems::collect_treats;
use engine::systems::is_near_camp;
use engine::systems::move_with_collision;
use engine::systems::remaining_treats;
use engine::systems::GRID_STEP_FRAMES;
use engine::world::Entity;
use engine::world::World;

// The renderer's pixel view of a grid motion, as the movement tests read it.
const TILE_SIZE: f32 = 32.0;

fn tile_center(tile: i32) -> f32 {
    tile as f32 * TILE_SIZE + TILE_SIZE / 2.0
}

fn smoothstep(t: f32) -> f32 {
    t * t * (3.0 - 2.0 * t)
}

fn transform_of(motion: &GridMotion) -> (f32, f32) {
    let start = (tile_center(motion.tile_x), tile_center(motion.tile_y));
    let Some(direction) = motion.active_direction else {
        return start;
    };
    let (dx, dy) = direction.delta();
    let end = (tile_center(motion.tile_x + dx), tile_center(motion.tile_y + dy));
    let completed_frames = GRID_STEP_FRAMES - motion.frames_remaining;
    let eased = smoothstep(completed_frames as f32 / GRID_STEP_FRAMES as f32);
    (
        start.0 + (end.0 - start.0) * eased,
        start.1 + (end.1 - start.1) * eased,
    )
}

fn empty_maze(width: i32, height: i32) -> Maze {
    Maze {
        width,
        height,
        tiles: vec![false; (width * height) as usize],
        rooms: Vec::new(),
    }
}

fn build_world_with_player_at(tile_x: i32, tile_y: i32) -> (World, Entity, Maze) {
    let mut rng = Rng::from_seed(7);
    let mut world = World::new();
    let maze = Maze::new(MazeConfig::default(), &mut rng);

    let player = world.spawn();
    world.insert(
        player,
        GridMotion {
            tile_x,
            tile_y,
            active_direction: None,
            buffered_direction: None,
            frames_remaining: 0,
        },
    );
    world.insert(player, Player::default());

    (world, player, maze)
}

fn motion(world: &World, player: Entity) -> GridMotion {
    *world.component::<GridMotion>(player).unwrap()
}

/// Runs one frame and returns the pixel velocity of the player.
fn step_player(world: &mut World, maze: &Maze, player: Entity, input: Input) -> (f32, f32) {
    let before = transform_of(&motion(world, player));
    apply_input(world, player, &input);
    move_with_collision(world, maze, player);
    let after = transform_of(&motion(world, player));
    (after.0 - before.0, after.1 - before.1)
}

fn held(up: bool, right: bool, preferred_direction: Option<Direction>) -> Input {
    Input {
        up,
        down: false,
        left: false,
        right,
        preferred_direction,
        enter: false,
    }
}

#[test]
fn latest_held_direction_becomes_the_buffered_direction() {
    let (mut world, player, _maze) = build_world_with_player_at(3, 3);
    let input = Input {
        up: true,
        down: false,
        left: false,
        right: true,
        preferred_direction: Some(Direction::Up),
        enter: false,
    };

    apply_input(&mut world, player, &input);

    let motion = world.component::<GridMotion>(player).unwrap();
    assert_eq!(motion.buffered_direction, Some(Direction::Up));
}

#[test]
fn move_with_collision_starts_a_grid_step_immediately() {
    let (mut world, player, _maze) = build_world_with_player_at(3, 3);
    let maze = empty_maze(8, 8);

    let velocity = step_player(
        &mut world,
        &maze,
        player,
        Input {
            up: false,
            down: false,
            left: false,
            right: true,
            preferred_direction: Some(Direction::Right),
            enter: false,
        },
    );

    let transform = transform_of(&motion(&world, player));

    assert!(transform.0 > tile_center(3));
    assert_eq!(transform.1, tile_center(3));
    assert!(velocity.0 > 0.0);
    assert_eq!(velocity.1, 0.0);
}

#[test]
fn grid_step_lands_exactly_on_the_next_tile_center() {
    let (mut world, player, _maze) = build_world_with_player_at(3, 3);
    let maze = empty_maze(8, 8);
    let input = Input {
        up: false,
        down: false,
        left: false,
        right: true,
        preferred_direction: Some(Direction::Right),
        enter: false,
    };

    for _ in 0..GRID_STEP_FRAMES {
        step_player(&mut world, &maze, player, input);
    }

    let motion = motion(&world, player);
    let transform = transform_of(&motion);

    assert_eq!(motion.tile_x, 4);
    assert_eq!(motion.tile_y, 3);
    assert_eq!(transform.0, tile_center(4));
    assert_eq!(transform.1, tile_center(3));
}

#[test]
fn buffered_turn_starts_after_arriving_at_the_next_tile() {
    let (mut world, player, _maze) = build_world_with_player_at(3, 3);
    let maze = empty_maze(8, 8);
    let move_right = held(false, true, Some(Direction::Right));
    let turn_up = held(true, true, Some(Direction::Up));

    for _ in 0..(GRID_STEP_FRAMES - 1) {
        step_player(&mut world, &maze, player, move_right);
    }

    step_player(&mut world, &maze, player, turn_up);

    let current = motion(&world, player);
    let transform = transform_of(&current);
    assert_eq!(current.tile_x, 4);
    assert_eq!(current.tile_y, 3);
    assert_eq!(transform.0, tile_center(4));
    assert_eq!(transform.1, tile_center(3));
    assert_eq!(current.active_direction, Some(Direction::Up));

    step_player(&mut world, &maze, player, turn_up);

    let transform = transform_of(&motion(&world, player));
    assert!(transform.1 < tile_center(3));
    assert_eq!(transform.0, tile_center(4));
}

#[test]
fn blocked_step_keeps_the_player_centered_on_the_tile() {
    let (mut world, player, _maze) = build_world_with_player_at(3, 3);
    let mut maze = empty_maze(8, 8);
    let blocked_index = (3 * maze.width + 4) as usize;
    maze.tiles[blocked_index] = true;

    let velocity = step_player(
        &mut world,
        &maze,
        player,
        held(false, true, Some(Direction::Right)),
    );

    let motion = motion(&world, player);
    let transform = transform_of(&motion);

    assert_eq!(motion.tile_x, 3);
    assert_eq!(motion.tile_y, 3);
    assert_eq!(motion.active_direction, None);
    assert_eq!(transform.0, tile_center(3));
    assert_eq!(transform.1, tile_center(3));
    assert_eq!(velocity.0, 0.0);
    assert_eq!(velocity.1, 0.0);
}

#[test]
fn dynamic_collider_blocks_a_grid_step() {
    let (mut world, player, _maze) = build_world_with_player_at(3, 3);
    let maze = empty_maze(8, 8);
    let collider = world.spawn();
    world.insert(collider, Position { x: 4, y: 3 });
    world.insert(collider, Collider);

    step_player(
        &mut world,
        &maze,
        player,
        held(false, true, Some(Direction::Right)),
    );

    let motion = motion(&world, player);
    assert_eq!(motion.tile_x, 3);
    assert_eq!(motion.tile_y, 3);
    assert_eq!(motion.active_direction, None);
}

#[test]
fn collecting_a_treat_awards_points_and_marks_player() {
    let (mut world, player, _) = build_world_with_player_at(15, 5);

    let treat = world.spawn();
    world.insert(treat, Position { x: 15, y: 5 });
    world.insert(treat, ObjectKind::Treat);
    world.insert(
        treat,
        Treat {
            kind: TreatKind::Cheeseburger,
        },
    );
    world.insert(treat, Collected(false));

    let collected = collect_treats(&mut world, player);
    assert_eq!(collected, Some(TreatKind::Cheeseburger));

    let player_state = world.component::<Player>(player).unwrap();
    assert_eq!(player_state.score, 300);
    assert!(player_state.just_collected_treat);

    let treat_state = world.component::<Collected>(treat).unwrap();
    assert_eq!(treat_state.0, true);
}

#[test]
fn active_destination_requires_the_door_tile() {
    let (mut world, player, _) = build_world_with_player_at(10, 8);

    let dest = world.spawn();
    world.insert(dest, Position { x: 10, y: 8 });
    world.insert(
        dest,
        ObjectKind::Destination {
            section: Section::About,
        },
    );

    let section = active_destination(&world, player);
    assert_eq!(section, Some(Section::About));
}

#[test]
fn active_destination_ignores_adjacent_tiles() {
    let (mut world, player, _) = build_world_with_player_at(10, 7);

    let dest = world.spawn();
    world.insert(dest, Position { x: 10, y: 8 });
    world.insert(
        dest,
        ObjectKind::Destination {
            section: Section::About,
        },
    );

    assert_eq!(active_destination(&world, player), None);
}

#[test]
fn is_near_camp_detects_adjacency() {
    let (mut world, player, _) = build_world_with_player_at(12, 8);

    let camp = world.spawn();
    world.insert(camp, Position { x: 13, y: 7 });
    world.insert(camp, ObjectKind::Camp);

    assert!(is_near_camp(&world, player));
}

#[test]
fn remaining_treats_counts_uncollected_only() {
    let (mut world, _player, _) = build_world_with_player_at(15, 5);

    let treat_a = world.spawn();
    world.insert(treat_a, Position { x: 1, y: 1 });
    world.insert(treat_a, ObjectKind::Treat);
    world.insert(treat_a, Collected(false));

    let treat_b = world.spawn();
    world.insert(treat_b, Position { x: 2, y: 2 });
    world.insert(treat_b, ObjectKind::Treat);
    world.insert(treat_b, Collected(true));

    assert_eq!(remaining_treats(&world), 1);
}

#[test]
fn is_near_camp_rejects_tiles_two_away() {
    let (mut world, player, _) = build_world_with_player_at(12, 8);

    let camp = world.spawn();
    world.insert(camp, Position { x: 14, y: 8 });
    world.insert(camp, ObjectKind::Camp);

    assert!(!is_near_camp(&world, player));
}

#[test]
fn collected_treats_are_not_collected_twice() {
    let (mut world, player, _) = build_world_with_player_at(15, 5);

    let treat = world.spawn();
    world.insert(treat, Position { x: 15, y: 5 });
    world.insert(treat, ObjectKind::Treat);
    world.insert(treat, Treat { kind: TreatKind::Snail });
    world.insert(treat, Collected(false));

    assert_eq!(collect_treats(&mut world, player), Some(TreatKind::Snail));
    assert_eq!(collect_treats(&mut world, player), None);
    assert_eq!(world.component::<Player>(player).unwrap().score, 100);
}

#[test]
fn far_treats_stay_uncollected() {
    let (mut world, player, _) = build_world_with_player_at(15, 5);

    let treat = world.spawn();
    world.insert(treat, Position { x: 17, y: 5 });
    world.insert(treat, ObjectKind::Treat);
    world.insert(treat, Treat { kind: TreatKind::Apple });
    world.insert(treat, Collected(false));

    assert_eq!(collect_treats(&mut world, player), None);
    assert_eq!(world.component::<Collected>(treat), Some(&Collected(false)));
    assert_eq!(world.component::<Player>(player).unwrap().score, 0);
    assert_eq!(remaining_treats(&world), 1);
}

#[test]
fn systems_ignore_an_entity_without_motion() {
    let mut world = World::new();
    let bare = world.spawn();
    let maze = empty_maze(8, 8);

    apply_input(&mut world, bare, &held(true, false, None));
    move_with_collision(&mut world, &maze, bare);
    assert!(world.component::<GridMotion>(bare).is_none());
    assert_eq!(collect_treats(&mut world, bare), None);
    assert_eq!(active_destination(&world, bare), None);
    assert!(!is_near_camp(&world, bare));
}

#[test]
fn opposing_keys_cancel_without_a_preference() {
    let (mut world, player, _) = build_world_with_player_at(3, 3);
    let both = Input {
        up: true,
        down: true,
        left: false,
        right: false,
        preferred_direction: None,
        enter: false,
    };
    apply_input(&mut world, player, &both);
    assert_eq!(motion(&world, player).buffered_direction, None);

    let left_only = Input {
        up: false,
        down: false,
        left: true,
        right: false,
        preferred_direction: None,
        enter: false,
    };
    apply_input(&mut world, player, &left_only);
    assert_eq!(motion(&world, player).buffered_direction, Some(Direction::Left));
}

#[test]
fn released_keys_stop_at_the_next_tile() {
    let (mut world, player, _) = build_world_with_player_at(3, 3);
    let maze = empty_maze(8, 8);
    step_player(&mut world, &maze, player, held(false, true, Some(Direction::Right)));
    for _ in 1..(2 * GRID_STEP_FRAMES) {
        step_player(&mut world, &maze, player, held(false, false, None));
    }
    let current = motion(&world, player);
    assert_eq!((current.tile_x, current.tile_y), (4, 3));
    assert_eq!(current.active_direction, None);
}

#[test]
fn treats_on_neighbouring_tiles_stay() {
    let (mut world, player, _) = build_world_with_player_at(15, 5);

    let treat = world.spawn();
    world.insert(treat, Position { x: 16, y: 5 });
    world.insert(treat, ObjectKind::Treat);
    world.insert(treat, Treat { kind: TreatKind::Cheeseburger });
    world.insert(treat, Collected(false));

    assert_eq!(collect_treats(&mut world, player), None);
    assert_eq!(world.component::<Collected>(treat), Some(&Collected(false)));
    assert_eq!(world.component::<Player>(player), Some(&Player::default()));
}

#[test]
fn no_key_held_clears_the_buffer() {
    let (mut world, player, _) = build_world_with_player_at(3, 3);
    apply_input(&mut world, player, &held(true, false, Some(Direction::Up)));
    assert_eq!(motion(&world, player).buffered_direction, Some(Direction::Up));
    apply_input(&mut world, player, &held(false, false, Some(Direction::Up)));
    assert_eq!(motion(&world, player).buffered_direction, None);
}

#[test]
fn a_step_toward_the_grid_from_the_far_edge_is_blocked() {
    let mut world = World::new();
    let player = world.spawn();
    world.insert(
        player,
        GridMotion {
            tile_x: i32::MAX,
            tile_y: 3,
            active_direction: None,
            buffered_direction: None,
            frames_remaining: 0,
        },
    );
    let maze = empty_maze(8, 8);
    apply_input(&mut world, player, &held(false, false, None));
    let left = Input {
        up: false,
        down: false,
        left: true,
        right: false,
        preferred_direction: Some(Direction::Left),
        enter: false,
    };
    apply_input(&mut world, player, &left);
    move_with_collision(&mut world, &maze, player);
    let m = motion(&world, player);
    assert_eq!((m.tile_x, m.tile_y), (i32::MAX, 3));
    assert_eq!(m.active_direction, None);
}
