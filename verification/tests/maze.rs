use std::collections::VecDeque;

use engine::components::Collider;
use engine::components::ObjectKind;
use engine::components::Position;
use engine::components::Treat;
use engine::components::TreatKind;
use engine::maze::Maze;
use engine::maze::MazeConfig;
use engine::maze::Room;
use engine::rng::Rng;
use engine::world::World;

fn count_reachable_open_tiles(maze: &Maze) -> usize {
    let start = (0..maze.height)
        .flat_map(|y| (0..maze.width).map(move |x| (x, y)))
        .find(|(x, y)| !maze.is_wall(*x, *y));

    let Some((start_x, start_y)) = start else {
        return 0;
    };

    let mut seen = vec![false; (maze.width * maze.height) as usize];
    let mut queue = VecDeque::from([(start_x, start_y)]);
    let mut reachable = 0usize;

    while let Some((x, y)) = queue.pop_front() {
        if x < 0 || y < 0 || x >= maze.width || y >= maze.height {
            continue;
        }
        if maze.is_wall(x, y) {
            continue;
        }

        let index = (y * maze.width + x) as usize;
        if seen[index] {
            continue;
        }
        seen[index] = true;
        reachable += 1;

        queue.push_back((x + 1, y));
        queue.push_back((x - 1, y));
        queue.push_back((x, y + 1));
        queue.push_back((x, y - 1));
    }

    reachable
}

fn reachable_positions(maze: &Maze, world: &World, start: Position) -> Vec<Position> {
    let collision_positions: Vec<Position> = world
        .entities_with::<Collider>()
        .into_iter()
        .filter_map(|entity| world.component::<Position>(entity).copied())
        .collect();
    let mut seen = vec![false; (maze.width * maze.height) as usize];
    let mut queue = VecDeque::from([start]);
    let mut reachable = Vec::new();

    while let Some(position) = queue.pop_front() {
        if maze.is_wall(position.x, position.y) || collision_positions.contains(&position) {
            continue;
        }

        let index = (position.y * maze.width + position.x) as usize;
        if seen[index] {
            continue;
        }
        seen[index] = true;
        reachable.push(position);

        queue.push_back(Position {
            x: position.x + 1,
            y: position.y,
        });
        queue.push_back(Position {
            x: position.x - 1,
            y: position.y,
        });
        queue.push_back(Position {
            x: position.x,
            y: position.y + 1,
        });
        queue.push_back(Position {
            x: position.x,
            y: position.y - 1,
        });
    }

    reachable
}

fn destination_doors(world: &World) -> Vec<Position> {
    world
        .entities_with::<ObjectKind>()
        .into_iter()
        .filter(|entity| {
            matches!(
                world.component::<ObjectKind>(*entity),
                Some(ObjectKind::Destination { .. })
            )
        })
        .filter_map(|entity| world.component::<Position>(entity).copied())
        .collect()
}

#[test]
fn maze_keeps_a_solid_border() {
    let mut rng = Rng::from_seed(1234);
    let config = MazeConfig::default();
    let maze = Maze::new(config, &mut rng);

    // At least one room should have been carved.
    assert!(!maze.rooms.is_empty());

    // The border must remain solid so the player cannot walk off the map.
    for x in 0..config.width {
        assert!(maze.is_wall(x, 0), "top border should be solid at x={x}");
        assert!(
            maze.is_wall(x, config.height - 1),
            "bottom border should be solid at x={x}"
        );
    }
    for y in 0..config.height {
        assert!(maze.is_wall(0, y), "left border should be solid at y={y}");
        assert!(
            maze.is_wall(config.width - 1, y),
            "right border should be solid at y={y}"
        );
    }
}

#[test]
fn generated_maze_has_one_connected_open_region() {
    let config = MazeConfig::default();
    let maze = Maze::new(config, &mut Rng::from_seed(1234));

    let total_open_tiles = (0..maze.height)
        .flat_map(|y| (0..maze.width).map(move |x| (x, y)))
        .filter(|(x, y)| !maze.is_wall(*x, *y))
        .count();
    let reachable_open_tiles = count_reachable_open_tiles(&maze);

    assert!(
        total_open_tiles > 0,
        "maze should carve at least one open tile"
    );
    assert_eq!(
        reachable_open_tiles, total_open_tiles,
        "every open tile should be reachable from every other open tile"
    );
}

#[test]
fn maze_rooms_are_carved_open() {
    let mut rng = Rng::from_seed(7);
    let maze = Maze::new(MazeConfig::default(), &mut rng);

    for room in &maze.rooms {
        for tile_x in room.left..room.left + room.width {
            for tile_y in room.top..room.top + room.height {
                assert!(
                    !maze.is_wall(tile_x, tile_y),
                    "room tile ({}, {}) should be carved open",
                    tile_x,
                    tile_y
                );
            }
        }
    }
}

#[test]
fn corridors_connect_room_centers() {
    let mut rng = Rng::from_seed(99);
    let mut maze = Maze::new(MazeConfig::default(), &mut rng);

    if maze.rooms.len() < 2 {
        return;
    }

    let a = maze.rooms[0].center();
    let b = maze.rooms[1].center();

    maze.connect(a, b);

    // The horizontal corridor at y=a.y should be open from a.x to b.x.
    let (x_lo, x_hi) = if a.x < b.x { (a.x, b.x) } else { (b.x, a.x) };
    for x in x_lo..=x_hi {
        assert!(
            !maze.is_wall(x, a.y),
            "corridor should be open at ({}, {})",
            x,
            a.y
        );
    }
}

#[test]
fn populated_maze_contains_the_expected_treat_distribution() {
    let mut rng = Rng::from_seed(2026);
    let maze = Maze::new(MazeConfig::default(), &mut rng);
    let mut world = World::new();

    maze.populate(&mut world, &mut rng);

    let kinds: Vec<TreatKind> = world
        .entities_with::<Treat>()
        .into_iter()
        .filter_map(|entity| world.component::<Treat>(entity).map(|treat| treat.kind))
        .collect();

    let count = |target: TreatKind| kinds.iter().filter(|kind| **kind == target).count();

    assert_eq!(kinds.len(), 8);
    assert_eq!(count(TreatKind::Cheeseburger), 1);
    assert_eq!(count(TreatKind::Snail), 1);
    assert_eq!(count(TreatKind::Frog), 1);
    assert_eq!(count(TreatKind::Banana), 1);
    assert_eq!(count(TreatKind::Cherries), 1);
    assert_eq!(count(TreatKind::Berries), 2);
    assert_eq!(count(TreatKind::Apple), 1);
    assert_eq!(kinds.iter().map(|kind| kind.value()).sum::<u32>(), 750);
}

#[test]
fn destination_buildings_have_collision_footprints_with_open_doors() {
    let mut rng = Rng::from_seed(2026);
    let maze = Maze::new(MazeConfig::default(), &mut rng);
    let mut world = World::new();

    maze.populate(&mut world, &mut rng);

    let doors = destination_doors(&world);
    let collision_positions: Vec<Position> = world
        .entities_with::<Collider>()
        .into_iter()
        .filter_map(|entity| world.component::<Position>(entity).copied())
        .collect();

    assert_eq!(doors.len(), 3);
    assert_eq!(collision_positions.len(), 15);
    for door in doors {
        for x in (door.x - 1)..=(door.x + 1) {
            assert!(collision_positions.contains(&Position { x, y: door.y - 1 }));
        }
        assert!(collision_positions.contains(&Position {
            x: door.x - 1,
            y: door.y,
        }));
        assert!(collision_positions.contains(&Position {
            x: door.x + 1,
            y: door.y,
        }));
        assert!(!collision_positions.contains(&door));
    }

    let treat_positions: Vec<Position> = world
        .entities_with::<Treat>()
        .into_iter()
        .filter_map(|entity| world.component::<Position>(entity).copied())
        .collect();
    assert!(treat_positions
        .iter()
        .all(|position| !collision_positions.contains(position)));
}

#[test]
fn destination_rooms_have_a_walkable_buffer_across_generated_seeds() {
    for seed in 0..128 {
        let mut rng = Rng::from_seed(seed);
        let maze = Maze::new(MazeConfig::default(), &mut rng);
        let mut world = World::new();

        maze.populate(&mut world, &mut rng);

        let destination_positions = destination_doors(&world);

        assert_eq!(
            destination_positions.len(),
            3,
            "seed {seed}, rooms: {:?}",
            maze.rooms
        );
        for door in &destination_positions {
            let room = maze
                .rooms
                .iter()
                .copied()
                .find(|room| {
                    door.x >= room.left
                        && door.x < room.left + room.width
                        && door.y >= room.top
                        && door.y < room.top + room.height
                })
                .expect("destination door should be in a room");

            assert!(room.can_host_destination(), "seed {seed}");
            assert!(door.x - 2 >= room.left, "seed {seed}");
            assert!(door.x + 2 < room.left + room.width, "seed {seed}");
            assert!(door.y - 2 >= room.top, "seed {seed}");
            assert!(door.y + 1 < room.top + room.height, "seed {seed}");
        }

        let camp_position = world
            .entities_with::<ObjectKind>()
            .into_iter()
            .find_map(|entity| {
                if matches!(
                    world.component::<ObjectKind>(entity),
                    Some(ObjectKind::Camp)
                ) {
                    world.component::<Position>(entity).copied()
                } else {
                    None
                }
            })
            .expect("populated maze should contain a camp");
        let reachable = reachable_positions(&maze, &world, camp_position);
        let treat_positions: Vec<Position> = world
            .entities_with::<Treat>()
            .into_iter()
            .filter_map(|entity| world.component::<Position>(entity).copied())
            .collect();

        for target in destination_positions.iter().chain(treat_positions.iter()) {
            assert!(
                reachable.contains(target),
                "seed {seed}, target: {target:?}"
            );
        }
    }
}

#[test]
fn same_seed_reproduces_maze() {
    let config = MazeConfig::default();

    let maze_a = Maze::new(config, &mut Rng::from_seed(2026));
    let maze_b = Maze::new(config, &mut Rng::from_seed(2026));

    assert_eq!(maze_a.tiles, maze_b.tiles);
    assert_eq!(maze_a.rooms.len(), maze_b.rooms.len());
}

#[test]
fn room_center_is_inside_the_room() {
    let room = Room {
        left: 4,
        top: 6,
        width: 5,
        height: 5,
    };
    let center = room.center();
    assert!((4..9).contains(&center.x));
    assert!((6..11).contains(&center.y));
}

#[test]
fn room_center_rounds_toward_the_top_left() {
    let room = Room {
        left: 4,
        top: 6,
        width: 6,
        height: 4,
    };
    assert_eq!(room.center(), Position { x: 7, y: 8 });
}

#[test]
fn small_rooms_cannot_host_a_destination() {
    let narrow = Room { left: 1, top: 1, width: 4, height: 6 };
    let short = Room { left: 1, top: 1, width: 6, height: 3 };
    let fits = Room { left: 1, top: 1, width: 5, height: 4 };
    assert!(!narrow.can_host_destination());
    assert!(!short.can_host_destination());
    assert!(fits.can_host_destination());
    assert_eq!(fits.destination_door(), Position { x: 3, y: 3 });
}

#[test]
fn out_of_bounds_tiles_count_as_walls() {
    let maze = Maze::new(MazeConfig::default(), &mut Rng::from_seed(5));
    assert!(maze.is_wall(-1, 3));
    assert!(maze.is_wall(3, -1));
    assert!(maze.is_wall(maze.width, 3));
    assert!(maze.is_wall(3, maze.height));
}

#[test]
fn default_config_generates_at_least_four_rooms() {
    for seed in 0..32 {
        let maze = Maze::new(MazeConfig::default(), &mut Rng::from_seed(seed));
        assert!(maze.rooms.len() >= 4, "seed {seed}");
        assert_eq!(maze.tiles.len(), 30 * 22);
    }
}

#[test]
fn spawn_walls_adds_one_collider_per_wall_tile() {
    let maze = Maze::new(MazeConfig::default(), &mut Rng::from_seed(8));
    let mut world = World::new();
    maze.spawn_walls(&mut world);
    let walls = maze.tiles.iter().filter(|solid| **solid).count();
    assert_eq!(world.component_count::<Collider>(), walls);
    assert_eq!(world.component_count::<Position>(), walls);
    for entity in world.entities_with::<Collider>() {
        let p = world.component::<Position>(entity).copied().unwrap();
        assert!(maze.is_wall(p.x, p.y));
    }
}

#[test]
fn connect_outside_the_grid_leaves_tiles_alone() {
    let mut maze = Maze::new(MazeConfig::default(), &mut Rng::from_seed(4));
    let before = maze.tiles.clone();
    maze.connect(Position { x: -5, y: -5 }, Position { x: -2, y: -9 });
    assert_eq!(maze.tiles, before);
}
