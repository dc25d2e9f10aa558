use std::collections::VecDeque;

use engine::components::Collected;
use engine::components::Collider;
use engine::components::Direction;
use engine::components::ObjectKind;
use engine::components::Position;
use engine::components::Treat;
use engine::components::TreatKind;
use engine::state::FrameUpdate;
use engine::state::Input;
use engine::state::TilePos;
use engine::systems::GRID_STEP_FRAMES;
use engine::systems::TREAT_MESSAGE_FRAMES;
use engine::Engine;
use engine::PROTOCOL_VERSION;

fn idle() -> Input {
    Input {
        up: false,
        down: false,
        left: false,
        right: false,
        preferred_direction: None,
        enter: false,
    }
}

fn pressing(direction: Direction) -> Input {
    Input {
        up: direction == Direction::Up,
        down: direction == Direction::Down,
        left: direction == Direction::Left,
        right: direction == Direction::Right,
        preferred_direction: Some(direction),
        enter: false,
    }
}

fn player_tile(engine: &Engine) -> Position {
    let frame_motion = engine
        .world
        .component::<engine::components::GridMotion>(engine.player)
        .copied()
        .unwrap();
    Position {
        x: frame_motion.tile_x,
        y: frame_motion.tile_y,
    }
}

/// Directions of a shortest walk from `from` to `to` over open, collider-free tiles.
fn path_to(engine: &Engine, from: Position, to: Position) -> Vec<Direction> {
    let maze = &engine.maze;
    let world = &engine.world;
    let blocked: Vec<Position> = world
        .entities_with::<Collider>()
        .into_iter()
        .filter_map(|entity| world.component::<Position>(entity).copied())
        .collect();
    let size = (maze.width * maze.height) as usize;
    let mut previous: Vec<Option<(Position, Direction)>> = vec![None; size];
    let mut seen = vec![false; size];
    let mut queue = VecDeque::from([from]);
    seen[(from.y * maze.width + from.x) as usize] = true;
    while let Some(p) = queue.pop_front() {
        if p == to {
            break;
        }
        for d in [Direction::Up, Direction::Down, Direction::Left, Direction::Right] {
            let (dx, dy) = d.delta();
            let q = Position {
                x: p.x + dx,
                y: p.y + dy,
            };
            if maze.is_wall(q.x, q.y) || blocked.contains(&q) {
                continue;
            }
            let index = (q.y * maze.width + q.x) as usize;
            if seen[index] {
                continue;
            }
            seen[index] = true;
            previous[index] = Some((p, d));
            queue.push_back(q);
        }
    }
    let mut steps = Vec::new();
    let mut at = to;
    while at != from {
        let (p, d) = previous[(at.y * maze.width + at.x) as usize].expect("target should be reachable");
        steps.push(d);
        at = p;
    }
    steps.reverse();
    steps
}

/// Walks one tile: one frame holding the key, then idle frames until arrival.
fn walk(engine: &mut Engine, direction: Direction) -> Vec<FrameUpdate> {
    let mut frames = vec![engine.step(&pressing(direction))];
    for _ in 1..GRID_STEP_FRAMES {
        frames.push(engine.step(&idle()));
    }
    frames
}

#[test]
fn treat_status_names_the_collected_treat_and_value() {
    let mut engine = Engine::new(7);
    engine.last_collected_treat = Some(TreatKind::Cheeseburger);
    engine.treat_message_frames = 1;

    assert_eq!(engine.compute_status(), "Cheeseburger acquired! +300");
}

#[test]
fn same_seed_builds_the_same_world() {
    let a = Engine::new(2026);
    let b = Engine::new(2026);
    let ia = a.init_state();
    let ib = b.init_state();
    assert_eq!(a.maze.tiles, b.maze.tiles);
    assert_eq!(ia.walls, ib.walls);
    assert_eq!(ia.treats, ib.treats);
    assert_eq!(ia.camp, ib.camp);
    assert_eq!(ia.player_start, ib.player_start);
    let da: Vec<(i32, i32, String)> = ia.destinations.iter().map(|d| (d.x, d.y, d.href.clone())).collect();
    let db: Vec<(i32, i32, String)> = ib.destinations.iter().map(|d| (d.x, d.y, d.href.clone())).collect();
    assert_eq!(da, db);
}

#[test]
fn init_state_describes_the_generated_world() {
    let engine = Engine::new(99);
    let init = engine.init_state();
    assert_eq!(init.protocol_version, PROTOCOL_VERSION);
    assert_eq!(init.protocol_version, 5);
    assert_eq!(init.width, 30);
    assert_eq!(init.height, 22);
    assert_eq!(init.tile_size, 32);
    assert_eq!(init.player_start, init.camp);
    assert_eq!(init.treats.len(), 8);
    assert_eq!(
        init.treats.iter().map(|t| t.kind.value()).sum::<u32>(),
        750
    );

    let wall_tiles = engine.maze.tiles.iter().filter(|solid| **solid).count();
    assert_eq!(init.walls.len(), wall_tiles + 15);

    let mut hrefs: Vec<&str> = init.destinations.iter().map(|d| d.href.as_str()).collect();
    hrefs.sort();
    assert_eq!(hrefs, vec!["/about/", "/blog/", "/projects/"]);
    for destination in &init.destinations {
        let expected = match destination.href.as_str() {
            "/about/" => "About Brooke",
            "/blog/" => "Field notes and posts",
            _ => "Projects and experiments",
        };
        assert_eq!(destination.label, expected);
        assert!(!init.walls.contains(&TilePos::new(destination.x, destination.y)));
    }
}

#[test]
fn idle_first_frame_reports_the_camp() {
    let mut engine = Engine::new(3);
    let start = player_tile(&engine);
    let frame = engine.step(&idle());
    assert_eq!(frame.protocol_version, 5);
    assert_eq!(frame.status, "Standing at camp.");
    assert_eq!(frame.score, 0);
    assert!(!frame.just_collected_treat);
    assert_eq!(frame.treats.len(), 8);
    assert_eq!(frame.active_destination_href, None);
    assert_eq!(frame.pending_navigation, None);
    let m = frame.motion.unwrap();
    assert_eq!(Position { x: m.tile_x, y: m.tile_y }, start);
    assert_eq!(m.active_direction, None);
}

#[test]
fn entering_a_destination_requests_navigation_once() {
    let mut engine = Engine::new(11);
    let init = engine.init_state();
    let target = &init.destinations[0];
    let door = Position {
        x: target.x,
        y: target.y,
    };
    let route = path_to(&engine, player_tile(&engine), door);
    for direction in route {
        walk(&mut engine, direction);
    }
    assert_eq!(player_tile(&engine), door);

    // Let any treat message picked up on the way fade first.
    for _ in 0..TREAT_MESSAGE_FRAMES {
        engine.step(&idle());
    }
    let standing = engine.step(&idle());
    assert_eq!(standing.active_destination_href.as_deref(), Some(target.href.as_str()));
    assert_eq!(standing.pending_navigation, None);
    assert_eq!(standing.status, format!("{}. Press Enter to enter.", target.label));

    let mut enter = idle();
    enter.enter = true;
    let entering = engine.step(&enter);
    assert_eq!(entering.pending_navigation.as_deref(), Some(target.href.as_str()));

    let after = engine.step(&idle());
    assert_eq!(after.pending_navigation, None);
    assert_eq!(after.active_destination_href.as_deref(), Some(target.href.as_str()));
}

#[test]
fn enter_away_from_a_destination_requests_nothing() {
    let mut engine = Engine::new(12);
    let mut enter = idle();
    enter.enter = true;
    let frame = engine.step(&enter);
    assert_eq!(frame.pending_navigation, None);
    assert_eq!(frame.active_destination_href, None);
}

#[test]
fn walking_onto_a_treat_scores_it_once() {
    let mut engine = Engine::new(21);
    let init = engine.init_state();
    let treat = init.treats[0];
    let route = path_to(&engine, player_tile(&engine), Position { x: treat.x, y: treat.y });

    let mut frames = Vec::new();
    for direction in route {
        frames.extend(walk(&mut engine, direction));
    }
    let mut collections = 0;
    for frame in &frames {
        if frame.score > 0 {
            collections += 1;
            assert!(frame.just_collected_treat);
            assert!(frame.status.contains(" acquired! +"));
        } else {
            assert!(!frame.just_collected_treat);
        }
    }
    assert!(collections >= 1);
    let last = frames.last().unwrap();
    assert!(!last.treats.iter().any(|t| t.x == treat.x && t.y == treat.y));
    assert_eq!(last.treats.len(), 8 - collections);
}

#[test]
fn treat_message_lingers_then_fades() {
    let mut engine = Engine::new(5);
    engine.last_collected_treat = Some(TreatKind::Frog);
    engine.treat_message_frames = TREAT_MESSAGE_FRAMES;
    for _ in 0..TREAT_MESSAGE_FRAMES {
        let frame = engine.step(&idle());
        assert_eq!(frame.status, "Little frog acquired! +100");
    }
    assert_eq!(engine.treat_message_frames, 0);
    let frame = engine.step(&idle());
    assert_ne!(frame.status, "Little frog acquired! +100");
}

#[test]
fn status_reports_adventuring_away_from_camp() {
    let mut engine = Engine::new(31);
    let init = engine.init_state();
    let camp = Position {
        x: init.camp.x,
        y: init.camp.y,
    };
    // Leave the camp's neighbourhood along the route to a destination.
    let target = &init.destinations[0];
    let route = path_to(&engine, camp, Position { x: target.x, y: target.y });
    let mut away = false;
    for direction in route {
        let frames = walk(&mut engine, direction);
        let here = player_tile(&engine);
        let last = frames.last().unwrap();
        if (here.x - camp.x).abs() > 1 || (here.y - camp.y).abs() > 1 {
            if last.active_destination_href.is_none() && !last.status.contains("acquired") {
                assert_eq!(last.status, "Adventuring…");
                away = true;
                break;
            }
        }
    }
    assert!(away);
}

#[test]
fn walls_block_the_player() {
    let mut engine = Engine::new(40);
    // Keep pushing in each direction; the player never enters a wall tile.
    for direction in [Direction::Up, Direction::Left, Direction::Down, Direction::Right] {
        for _ in 0..(4 * GRID_STEP_FRAMES) {
            let frame = engine.step(&pressing(direction));
            let m = frame.motion.unwrap();
            assert!(!engine.maze.is_wall(m.tile_x, m.tile_y));
        }
    }
}

#[test]
fn every_destination_and_treat_is_reachable_from_the_start() {
    for seed in 0..24 {
        let engine = Engine::new(seed);
        let init = engine.init_state();
        let start = Position {
            x: init.player_start.x,
            y: init.player_start.y,
        };
        for destination in &init.destinations {
            let route = path_to(&engine, start, Position { x: destination.x, y: destination.y });
            assert!(!route.is_empty(), "seed {seed}");
        }
        for treat in &init.treats {
            let target = Position { x: treat.x, y: treat.y };
            if target != start {
                let route = path_to(&engine, start, target);
                assert!(!route.is_empty(), "seed {seed}");
            }
        }
    }
}

#[test]
fn treats_keep_clear_of_the_camp_the_doors_and_each_other() {
    let near = |a: (i32, i32), b: (i32, i32)| (a.0 - b.0).abs() <= 1 && (a.1 - b.1).abs() <= 1;
    for seed in 0..24 {
        let engine = Engine::new(seed);
        let init = engine.init_state();
        let camp = (init.camp.x, init.camp.y);
        for (i, treat) in init.treats.iter().enumerate() {
            let here = (treat.x, treat.y);
            assert!(!near(here, camp), "seed {seed}");
            for destination in &init.destinations {
                assert!(!near(here, (destination.x, destination.y)), "seed {seed}");
            }
            for other in init.treats.iter().skip(i + 1) {
                assert!(!near(here, (other.x, other.y)), "seed {seed}");
            }
        }
    }
}

#[test]
fn the_player_starts_on_a_walkable_tile() {
    for seed in 0..24 {
        let engine = Engine::new(seed);
        let start = player_tile(&engine);
        assert!(!engine.maze.is_wall(start.x, start.y));
        let blocked = engine
            .world
            .entities_with::<Collider>()
            .into_iter()
            .any(|entity| engine.world.component::<Position>(entity) == Some(&start));
        assert!(!blocked, "seed {seed}");
    }
}

#[test]
fn score_is_the_value_of_the_collected_treats() {
    let mut engine = Engine::new(21);
    let init = engine.init_state();
    let mut reported: u32 = 0;
    for treat in init.treats.iter().take(3) {
        let route = path_to(&engine, player_tile(&engine), Position { x: treat.x, y: treat.y });
        for direction in route {
            for frame in walk(&mut engine, direction) {
                reported += frame.score;
            }
        }
    }
    let world = &engine.world;
    let collected_value: u32 = world
        .entities_with::<ObjectKind>()
        .into_iter()
        .filter(|e| world.component::<ObjectKind>(*e) == Some(&ObjectKind::Treat))
        .filter(|e| world.component::<Collected>(*e) == Some(&Collected(true)))
        .filter_map(|e| world.component::<Treat>(e).map(|t| t.kind.value()))
        .sum();
    assert!(reported > 0);
    assert_eq!(reported, collected_value);
}

#[test]
fn the_snapshot_banks_the_points() {
    let mut engine = Engine::new(21);
    let init = engine.init_state();
    let treat = init.treats[0];
    let route = path_to(&engine, player_tile(&engine), Position { x: treat.x, y: treat.y });
    for direction in route {
        for frame in walk(&mut engine, direction) {
            let state = engine
                .world
                .component::<engine::components::Player>(engine.player)
                .copied()
                .unwrap();
            assert_eq!(state.score, 0);
            assert!(!state.just_collected_treat);
            assert!(frame.score == 0 || frame.just_collected_treat);
        }
    }
}

#[test]
fn destinations_are_listed_about_blog_projects() {
    for seed in [0, 7, 2026] {
        let init = Engine::new(seed).init_state();
        let hrefs: Vec<&str> = init.destinations.iter().map(|d| d.href.as_str()).collect();
        assert_eq!(hrefs, vec!["/about/", "/blog/", "/projects/"]);
        let labels: Vec<&str> = init.destinations.iter().map(|d| d.label.as_str()).collect();
        assert_eq!(
            labels,
            vec!["About Brooke", "Field notes and posts", "Projects and experiments"]
        );
    }
}

#[test]
fn every_seed_places_the_whole_inventory_in_order() {
    let inventory = [
        TreatKind::Cheeseburger,
        TreatKind::Snail,
        TreatKind::Frog,
        TreatKind::Banana,
        TreatKind::Cherries,
        TreatKind::Berries,
        TreatKind::Berries,
        TreatKind::Apple,
    ];
    for seed in [0u64, 1, 2, 3, 7, 42, 99, 1234, 65535, 1 << 40, u64::MAX] {
        let init = Engine::new(seed).init_state();
        let kinds: Vec<TreatKind> = init.treats.iter().map(|t| t.kind).collect();
        assert_eq!(kinds, inventory.to_vec());
        assert_eq!(kinds.iter().map(|k| k.value()).sum::<u32>(), 750);
    }
}
