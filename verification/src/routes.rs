//! Walking around buildings. Each destination building is a solid block of
//! five tiles above and beside its door. When every building stands in a
//! carved room of its own with a one-tile walkway around it, making the
//! buildings solid keeps a connected maze connected.

use vstd::prelude::*;
use crate::components::Position;
use crate::grid::Cell;
use crate::grid::adjacent;
use crate::grid::cell;
use crate::grid::connected;
use crate::grid::grid_shape;
use crate::grid::in_grid;
use crate::grid::is_open;
use crate::grid::is_walk;
use crate::grid::lemma_index;
use crate::grid::lemma_reach_col;
use crate::grid::lemma_reach_refl;
use crate::grid::lemma_reach_row;
use crate::grid::lemma_reach_sym;
use crate::grid::lemma_reach_trans;
use crate::grid::reachable;
use crate::grid::step_ok;
use crate::maze::Room;
use crate::maze::in_room;
use crate::maze::room_carved;
use crate::maze::separated;

verus! {

/// Tile `(x, y)` belongs to the building whose door is `d`: the row above
/// the door, three tiles wide, and the tiles left and right of the door.
pub open spec fn in_footprint(d: Position, x: int, y: int) -> bool {
    ||| y == d.y - 1 && d.x - 1 <= x <= d.x + 1
    ||| y == d.y && (x == d.x - 1 || x == d.x + 1)
}

pub open spec fn in_some_footprint(doors: Seq<Position>, x: int, y: int) -> bool {
    exists|k: int| 0 <= k < doors.len() && #[trigger] in_footprint(doors[k], x, y)
}

/// The grid with the tiles of every building made solid.
pub open spec fn with_buildings(tiles: Seq<bool>, w: int, doors: Seq<Position>) -> Seq<bool> {
    Seq::new(tiles.len(), |i: int| tiles[i] || in_some_footprint(doors, i % w, i / w))
}

/// The room leaves a walkway of at least one tile around the building of
/// door `d`: two tiles to either side and above the door, one below.
pub open spec fn hosts(r: Room, d: Position) -> bool {
    &&& r.left + 2 <= d.x
    &&& d.x + 2 < r.left + r.width
    &&& r.top + 2 <= d.y
    &&& d.y + 1 < r.top + r.height
}

/// Each door stands in a carved room of its own that hosts its building,
/// and no two of these rooms share a tile.
pub open spec fn sited(tiles: Seq<bool>, w: int, h: int, doors: Seq<Position>, rooms: Seq<Room>) -> bool {
    &&& rooms.len() == doors.len()
    &&& forall|k: int| 0 <= k < doors.len() ==> hosts(#[trigger] rooms[k], doors[k])
    &&& forall|k: int| 0 <= k < doors.len() ==> room_carved(tiles, w, h, #[trigger] rooms[k])
    &&& forall|j: int, k: int|
        0 <= j < rooms.len() && 0 <= k < rooms.len() && j != k ==> separated(
            #[trigger] rooms[j],
            #[trigger] rooms[k],
        )
}

/// The top-left tile of a room.
pub open spec fn hub(r: Room) -> Cell {
    (r.left as int, r.top as int)
}

/// A tile of the grid with buildings is open exactly when it is open in the
/// maze and no building stands on it.
pub proof fn lemma_with_buildings(tiles: Seq<bool>, w: int, h: int, doors: Seq<Position>)
    requires
        grid_shape(tiles, w, h),
    ensures
        grid_shape(with_buildings(tiles, w, doors), w, h),
        forall|x: int, y: int|
            #[trigger] is_open(with_buildings(tiles, w, doors), w, h, x, y) == (is_open(tiles, w, h, x, y)
                && !in_some_footprint(doors, x, y)),
{
    let t2 = with_buildings(tiles, w, doors);
    assert forall|x: int, y: int|
        #[trigger] is_open(t2, w, h, x, y) == (is_open(tiles, w, h, x, y) && !in_some_footprint(
            doors,
            x,
            y,
        )) by {
        if in_grid(w, h, x, y) {
            lemma_index(w, h, x, y);
            assert(cell(t2, w, x, y) == (cell(tiles, w, x, y) || in_some_footprint(doors, x, y)));
        }
    }
}

/// A building and every tile next to it lie inside a room that hosts it.
pub proof fn lemma_footprint_inside(r: Room, d: Position, x: int, y: int, x2: int, y2: int)
    requires
        hosts(r, d),
        in_footprint(d, x, y),
    ensures
        in_room(r, x, y),
        adjacent((x, y), (x2, y2)) ==> in_room(r, x2, y2),
{
}

/// A tile of a hosting room that its own building leaves free is open
/// once the buildings are solid.
pub proof fn lemma_room_tile_open(
    tiles: Seq<bool>,
    w: int,
    h: int,
    doors: Seq<Position>,
    rooms: Seq<Room>,
    k: int,
    x: int,
    y: int,
)
    requires
        grid_shape(tiles, w, h),
        sited(tiles, w, h, doors, rooms),
        0 <= k < doors.len(),
        in_room(rooms[k], x, y),
        !in_footprint(doors[k], x, y),
    ensures
        is_open(with_buildings(tiles, w, doors), w, h, x, y),
{
    lemma_with_buildings(tiles, w, h, doors);
    assert(room_carved(tiles, w, h, rooms[k]));
    assert(is_open(tiles, w, h, x, y));
    if in_some_footprint(doors, x, y) {
        let j = choose|j: int| 0 <= j < doors.len() && #[trigger] in_footprint(doors[j], x, y);
        assert(hosts(rooms[j], doors[j]));
        lemma_footprint_inside(rooms[j], doors[j], x, y, x, y);
        assert(j != k);
        assert(separated(rooms[j], rooms[k]));
    }
}

/// Every tile of a hosting room outside the rows of its building can be
/// reached from the room's top-left tile.
proof fn lemma_room_reach_free_row(
    tiles: Seq<bool>,
    w: int,
    h: int,
    doors: Seq<Position>,
    rooms: Seq<Room>,
    k: int,
    x: int,
    y: int,
)
    requires
        grid_shape(tiles, w, h),
        sited(tiles, w, h, doors, rooms),
        0 <= k < doors.len(),
        in_room(rooms[k], x, y),
        y != doors[k].y - 1,
        y != doors[k].y,
    ensures
        reachable(with_buildings(tiles, w, doors), w, h, hub(rooms[k]), (x, y)),
{
    let t2 = with_buildings(tiles, w, doors);
    let r = rooms[k];
    let d = doors[k];
    assert(hosts(r, d));
    let left = r.left as int;
    let top = r.top as int;
    assert forall|xx: int| (left <= xx <= x || x <= xx <= left) implies #[trigger] is_open(t2, w, h, xx, y) by {
        lemma_room_tile_open(tiles, w, h, doors, rooms, k, xx, y);
    }
    lemma_reach_row(t2, w, h, y, left, x);
    assert forall|yy: int| (top <= yy <= y || y <= yy <= top) implies #[trigger] is_open(t2, w, h, left, yy) by {
        lemma_room_tile_open(tiles, w, h, doors, rooms, k, left, yy);
    }
    lemma_reach_col(t2, w, h, left, top, y);
    lemma_reach_trans(t2, w, h, (left, top), (left, y), (x, y));
}

/// Every tile of a hosting room that its building leaves free can be
/// reached from the room's top-left tile once the buildings are solid.
pub proof fn lemma_room_reach(
    tiles: Seq<bool>,
    w: int,
    h: int,
    doors: Seq<Position>,
    rooms: Seq<Room>,
    k: int,
    x: int,
    y: int,
)
    requires
        grid_shape(tiles, w, h),
        sited(tiles, w, h, doors, rooms),
        0 <= k < doors.len(),
        in_room(rooms[k], x, y),
        !in_footprint(doors[k], x, y),
    ensures
        reachable(with_buildings(tiles, w, doors), w, h, hub(rooms[k]), (x, y)),
{
    let t2 = with_buildings(tiles, w, doors);
    let r = rooms[k];
    let d = doors[k];
    assert(hosts(r, d));
    let left = r.left as int;
    let top = r.top as int;
    let right = left + r.width - 1;
    if y != d.y - 1 && y != d.y {
        lemma_room_reach_free_row(tiles, w, h, doors, rooms, k, x, y);
    } else if x <= d.x - 2 {
        assert forall|xx: int| (left <= xx <= x || x <= xx <= left) implies #[trigger] is_open(
            t2,
            w,
            h,
            xx,
            y,
        ) by {
            lemma_room_tile_open(tiles, w, h, doors, rooms, k, xx, y);
        }
        lemma_reach_row(t2, w, h, y, left, x);
        assert forall|yy: int| (top <= yy <= y || y <= yy <= top) implies #[trigger] is_open(
            t2,
            w,
            h,
            left,
            yy,
        ) by {
            lemma_room_tile_open(tiles, w, h, doors, rooms, k, left, yy);
        }
        lemma_reach_col(t2, w, h, left, top, y);
        lemma_reach_trans(t2, w, h, (left, top), (left, y), (x, y));
    } else if x >= d.x + 2 {
        assert forall|xx: int| (left <= xx <= right || right <= xx <= left) implies #[trigger] is_open(
            t2,
            w,
            h,
            xx,
            top,
        ) by {
            lemma_room_tile_open(tiles, w, h, doors, rooms, k, xx, top);
        }
        lemma_reach_row(t2, w, h, top, left, right);
        assert forall|yy: int| (top <= yy <= y || y <= yy <= top) implies #[trigger] is_open(
            t2,
            w,
            h,
            right,
            yy,
        ) by {
            lemma_room_tile_open(tiles, w, h, doors, rooms, k, right, yy);
        }
        lemma_reach_col(t2, w, h, right, top, y);
        assert forall|xx: int| (right <= xx <= x || x <= xx <= right) implies #[trigger] is_open(
            t2,
            w,
            h,
            xx,
            y,
        ) by {
            lemma_room_tile_open(tiles, w, h, doors, rooms, k, xx, y);
        }
        lemma_reach_row(t2, w, h, y, right, x);
        lemma_reach_trans(t2, w, h, (left, top), (right, top), (right, y));
        lemma_reach_trans(t2, w, h, (left, top), (right, y), (x, y));
    } else {
        // The door itself: step up from the walkway below it.
        assert(x == d.x && y == d.y);
        lemma_room_reach_free_row(tiles, w, h, doors, rooms, k, x, y + 1);
        assert forall|yy: int| (y + 1 <= yy <= y || y <= yy <= y + 1) implies #[trigger] is_open(
            t2,
            w,
            h,
            x,
            yy,
        ) by {
            lemma_room_tile_open(tiles, w, h, doors, rooms, k, x, yy);
        }
        lemma_reach_col(t2, w, h, x, y + 1, y);
        lemma_reach_trans(t2, w, h, (left, top), (x, y + 1), (x, y));
    }
}

/// Two neighbouring open tiles are joined.
pub proof fn lemma_reach_step(t: Seq<bool>, w: int, h: int, a: Cell, b: Cell)
    requires
        is_open(t, w, h, a.0, a.1),
        is_open(t, w, h, b.0, b.1),
        adjacent(a, b),
    ensures
        reachable(t, w, h, a, b),
{
    let p = seq![a, b];
    assert(step_ok(p, 0));
    assert(is_walk(t, w, h, p));
}

/// Along a walk through the maze that starts on an open tile, every tile
/// left open by the buildings can be reached around them, and every
/// building met can be walked around from its room's top-left tile.
pub proof fn lemma_detour(
    tiles: Seq<bool>,
    w: int,
    h: int,
    doors: Seq<Position>,
    rooms: Seq<Room>,
    p: Seq<Cell>,
    i: int,
)
    requires
        grid_shape(tiles, w, h),
        sited(tiles, w, h, doors, rooms),
        is_walk(tiles, w, h, p),
        is_open(with_buildings(tiles, w, doors), w, h, p[0].0, p[0].1),
        0 <= i < p.len(),
    ensures
        is_open(with_buildings(tiles, w, doors), w, h, p[i].0, p[i].1) ==> reachable(
            with_buildings(tiles, w, doors),
            w,
            h,
            p[0],
            p[i],
        ),
        forall|k: int|
            0 <= k < doors.len() && #[trigger] in_footprint(doors[k], p[i].0, p[i].1) ==> reachable(
                with_buildings(tiles, w, doors),
                w,
                h,
                p[0],
                hub(rooms[k]),
            ),
    decreases i,
{
    let t2 = with_buildings(tiles, w, doors);
    lemma_with_buildings(tiles, w, h, doors);
    if i == 0 {
        lemma_reach_refl(t2, w, h, p[0]);
        assert forall|k: int|
            0 <= k < doors.len() && #[trigger] in_footprint(doors[k], p[i].0, p[i].1) implies reachable(
            t2,
            w,
            h,
            p[0],
            hub(rooms[k]),
        ) by {
            assert(in_some_footprint(doors, p[0].0, p[0].1));
        }
    } else {
        lemma_detour(tiles, w, h, doors, rooms, p, i - 1);
        let a = p[i - 1];
        let b = p[i];
        assert(step_ok(p, i - 1));
        assert(is_open(tiles, w, h, a.0, a.1));
        assert(is_open(tiles, w, h, b.0, b.1));
        let a_free = is_open(t2, w, h, a.0, a.1);
        if is_open(t2, w, h, b.0, b.1) {
            if a_free {
                lemma_reach_step(t2, w, h, a, b);
                lemma_reach_trans(t2, w, h, p[0], a, b);
            } else {
                let j = choose|j: int| 0 <= j < doors.len() && #[trigger] in_footprint(doors[j], a.0, a.1);
                assert(hosts(rooms[j], doors[j]));
                lemma_footprint_inside(rooms[j], doors[j], a.0, a.1, b.0, b.1);
                assert(!in_some_footprint(doors, b.0, b.1));
                lemma_room_reach(tiles, w, h, doors, rooms, j, b.0, b.1);
                lemma_reach_trans(t2, w, h, p[0], hub(rooms[j]), b);
            }
        }
        assert forall|k: int|
            0 <= k < doors.len() && #[trigger] in_footprint(doors[k], p[i].0, p[i].1) implies reachable(
            t2,
            w,
            h,
            p[0],
            hub(rooms[k]),
        ) by {
            assert(hosts(rooms[k], doors[k]));
            lemma_footprint_inside(rooms[k], doors[k], b.0, b.1, a.0, a.1);
            assert(adjacent((b.0, b.1), (a.0, a.1)));
            assert(in_room(rooms[k], a.0, a.1));
            if a_free {
                assert(!in_some_footprint(doors, a.0, a.1));
                lemma_room_reach(tiles, w, h, doors, rooms, k, a.0, a.1);
                lemma_reach_sym(t2, w, h, hub(rooms[k]), a);
                lemma_reach_trans(t2, w, h, p[0], a, hub(rooms[k]));
            } else {
                let j = choose|j: int| 0 <= j < doors.len() && #[trigger] in_footprint(doors[j], a.0, a.1);
                assert(hosts(rooms[j], doors[j]));
                lemma_footprint_inside(rooms[j], doors[j], a.0, a.1, a.0, a.1);
                if j != k {
                    assert(separated(rooms[j], rooms[k]));
                }
                assert(j == k);
            }
        }
    }
}

/// Making the buildings solid keeps a connected maze connected: every two
/// tiles that stay open are still joined by a walk.
pub proof fn lemma_connected_around_buildings(
    tiles: Seq<bool>,
    w: int,
    h: int,
    doors: Seq<Position>,
    rooms: Seq<Room>,
)
    requires
        grid_shape(tiles, w, h),
        sited(tiles, w, h, doors, rooms),
        connected(tiles, w, h),
    ensures
        connected(with_buildings(tiles, w, doors), w, h),
{
    let t2 = with_buildings(tiles, w, doors);
    lemma_with_buildings(tiles, w, h, doors);
    assert forall|a: Cell, b: Cell|
        is_open(t2, w, h, a.0, a.1) && is_open(t2, w, h, b.0, b.1) implies #[trigger] reachable(
        t2,
        w,
        h,
        a,
        b,
    ) by {
        assert(is_open(tiles, w, h, a.0, a.1));
        assert(is_open(tiles, w, h, b.0, b.1));
        assert(reachable(tiles, w, h, a, b));
        let p = choose|p: Seq<Cell>| #[trigger] is_walk(tiles, w, h, p) && p[0] == a && p.last() == b;
        lemma_detour(tiles, w, h, doors, rooms, p, p.len() - 1);
    }
}

} // verus!
