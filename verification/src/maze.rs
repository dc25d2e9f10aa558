//! Binary-space-partition rooms-and-corridors maze generator.
//!
//! The generator carves rectangular rooms out of an otherwise solid grid and
//! connects them with L-shaped corridors. Rooms stay open and the open tiles
//! form one connected region with no isolated pockets.

use vstd::prelude::*;
use crate::components::Position;
use crate::rng::Rng;
use crate::rng::RngState;
use crate::rng::draw_below;
use crate::rng::draw_between;
use crate::grid::Cell;
use crate::grid::in_grid;
use crate::grid::cell;
use crate::grid::is_open;
use crate::grid::grid_shape;
use crate::grid::carve_cells;
use crate::grid::lemma_index;
use crate::grid::lemma_carve_cells;
use crate::grid::lemma_grid_ext;
use crate::grid::lemma_cell_update;
use crate::grid::reachable;
use crate::grid::connected;
use crate::grid::lemma_reach_refl;
use crate::grid::lemma_reach_trans;
use crate::grid::lemma_reach_sym;
use crate::grid::lemma_reach_mono;
use crate::grid::lemma_reach_row;
use crate::grid::lemma_reach_col;
use crate::grid::lemma_reach_rect;

verus! {

/// Rust's truncating halving of an `i32`.
pub open spec fn half(v: int) -> int {
    if v >= 0 {
        v / 2
    } else {
        -((-v) / 2)
    }
}

/// One carved room in tile coordinates.
#[derive(Clone, Copy, Debug)]
pub struct Room {
    pub left: i32,
    pub top: i32,
    pub width: i32,
    pub height: i32,
}

/// The tile `(x, y)` lies inside the room.
pub open spec fn in_room(r: Room, x: int, y: int) -> bool {
    r.left <= x < r.left + r.width && r.top <= y < r.top + r.height
}

pub open spec fn room_center(r: Room) -> Position {
    Position { x: (r.left + half(r.width as int)) as i32, y: (r.top + half(r.height as int)) as i32 }
}

pub open spec fn center_fits(r: Room) -> bool {
    i32::MIN <= r.left + half(r.width as int) <= i32::MAX && i32::MIN <= r.top + half(
        r.height as int,
    ) <= i32::MAX
}

pub open spec fn can_host(r: Room) -> bool {
    r.width >= 5 && r.height >= 4
}

/// The center of a nonempty room lies inside the room.
pub proof fn lemma_center_inside(r: Room)
    requires
        r.width >= 1,
        r.height >= 1,
        center_fits(r),
    ensures
        in_room(r, room_center(r).x as int, room_center(r).y as int),
{
}

impl Room {
    pub fn center(self) -> (r: Position)
        requires
            center_fits(self),
        ensures
            r == room_center(self),
    {
        Position { x: self.left + self.width / 2, y: self.top + self.height / 2 }
    }

    /// Whether this room can hold a destination building and its one-tile
    /// walkable buffer.
    pub fn can_host_destination(self) -> (r: bool)
        ensures
            r == can_host(self),
    {
        self.width >= 5 && self.height >= 4
    }

    /// The centered door tile for a destination building. The room-size
    /// constraint leaves a walkable ring around the building's 3x2
    /// footprint: two tiles to either side and above the door, one below.
    pub fn destination_door(self) -> (r: Position)
        requires
            can_host(self),
            center_fits(self),
        ensures
            r == room_center(self),
            self.left + 2 <= r.x,
            r.x + 2 < self.left + self.width,
            self.top + 2 <= r.y,
            r.y + 1 < self.top + self.height,
    {
        self.center()
    }
}

/// Adjustable knobs for generation.
#[derive(Clone, Copy, Debug)]
pub struct MazeConfig {
    /// Maze width in tiles.
    pub width: i32,
    /// Maze height in tiles.
    pub height: i32,
    /// Minimum room side length in tiles.
    pub min_room: i32,
    /// Maximum room side length in tiles.
    pub max_room: i32,
    /// A split is kept only while both children have at least this area.
    pub min_split_area: i32,
}

impl MazeConfig {
    /// Configurations the generator accepts: a positive minimum room that
    /// fits inside the solid border, a nonnegative maximum room, and a grid
    /// whose tile count fits an `i32`.
    pub open spec fn valid(self) -> bool {
        &&& 1 <= self.min_room
        &&& 0 <= self.max_room
        &&& self.min_room + 2 <= self.width
        &&& self.min_room + 2 <= self.height
        &&& self.width * self.height <= i32::MAX
    }
}

impl Default for MazeConfig {
    /// A 30 by 22 grid with rooms of five to eight tiles a side.
    fn default() -> (r: MazeConfig)
        ensures
            r.width == 30,
            r.height == 22,
            r.min_room == 5,
            r.max_room == 8,
            r.min_split_area == 36,
    {
        MazeConfig { width: 30, height: 22, min_room: 5, max_room: 8, min_split_area: 36 }
    }
}

/// The tiles of an L-shaped corridor from `a` to `b`: along `a`'s row to
/// `b`'s column, then along that column to `b`.
pub open spec fn on_corridor(a: Position, b: Position, x: int, y: int) -> bool {
    ||| y == a.y && ((a.x <= x <= b.x) || (b.x <= x <= a.x))
    ||| x == b.x && ((a.y <= y <= b.y) || (b.y <= y <= a.y))
}

pub open spec fn corridor(a: Position, b: Position) -> spec_fn(int, int) -> bool {
    |x: int, y: int| on_corridor(a, b, x, y)
}

pub open spec fn rect(left: int, top: int, width: int, height: int) -> spec_fn(int, int) -> bool {
    |x: int, y: int| left <= x < left + width && top <= y < top + height
}

/// Result of generating a maze: the wall grid plus the carved rooms.
#[derive(Debug)]
pub struct Maze {
    pub width: i32,
    pub height: i32,
    /// `true` where the tile is solid wall, `false` once carved open.
    pub tiles: Vec<bool>,
    pub rooms: Vec<Room>,
}

impl Maze {
    /// The tile vector holds one flag per tile and indices fit an `i32`.
    pub open spec fn wf(&self) -> bool {
        &&& 0 < self.width
        &&& 0 < self.height
        &&& self.width * self.height <= i32::MAX
        &&& self.tiles@.len() == self.width * self.height
    }

    pub open spec fn open_at(&self, x: int, y: int) -> bool {
        is_open(self.tiles@, self.width as int, self.height as int, x, y)
    }

    fn index(&self, x: i32, y: i32) -> (r: usize)
        requires
            self.wf(),
            in_grid(self.width as int, self.height as int, x as int, y as int),
        ensures
            r == y * self.width + x,
            r < self.tiles@.len(),
    {
        proof {
            lemma_index(self.width as int, self.height as int, x as int, y as int);
        }
        (y * self.width + x) as usize
    }

    fn in_bounds(&self, x: i32, y: i32) -> (r: bool)
        ensures
            r == in_grid(self.width as int, self.height as int, x as int, y as int),
    {
        x >= 0 && y >= 0 && x < self.width && y < self.height
    }

    /// Whether the tile is solid wall; out-of-bounds tiles count as solid.
    pub fn is_wall(&self, x: i32, y: i32) -> (r: bool)
        requires
            self.wf(),
        ensures
            r == !self.open_at(x as int, y as int),
    {
        if !self.in_bounds(x, y) {
            return true;
        }
        self.tiles[self.index(x, y)]
    }

    fn carve_rect(&mut self, left: i32, top: i32, width: i32, height: i32)
        requires
            old(self).wf(),
            i32::MIN <= left + width <= i32::MAX,
            i32::MIN <= top + height <= i32::MAX,
        ensures
            final(self).width == old(self).width,
            final(self).height == old(self).height,
            final(self).rooms@ == old(self).rooms@,
            final(self).tiles@ == carve_cells(
                old(self).tiles@,
                old(self).width as int,
                rect(left as int, top as int, width as int, height as int),
            ),
            final(self).wf(),
    {
        let ghost w = self.width as int;
        let ghost h = self.height as int;
        let ghost orig = self.tiles@;
        let mut y = top;
        while y < top + height
            invariant
                self.width == w,
                self.height == h,
                self.wf(),
                self.rooms@ == old(self).rooms@,
                orig == old(self).tiles@,
                grid_shape(orig, w, h),
                top <= y,
                y == top || y <= top + height,
                i32::MIN <= top + height <= i32::MAX,
                i32::MIN <= left + width <= i32::MAX,
                forall|x2: int, y2: int|
                    in_grid(w, h, x2, y2) ==> #[trigger] cell(self.tiles@, w, x2, y2) == (cell(
                        orig,
                        w,
                        x2,
                        y2,
                    ) && !(left <= x2 < left + width && top <= y2 < y)),
            decreases top + height - y,
        {
            let mut x = left;
            while x < left + width
                invariant
                    self.width == w,
                    self.height == h,
                    self.wf(),
                    self.rooms@ == old(self).rooms@,
                    grid_shape(orig, w, h),
                    top <= y < top + height,
                    left <= x,
                    x == left || x <= left + width,
                    orig == old(self).tiles@,
                    i32::MIN <= top + height <= i32::MAX,
                    i32::MIN <= left + width <= i32::MAX,
                    forall|x2: int, y2: int|
                        in_grid(w, h, x2, y2) ==> #[trigger] cell(self.tiles@, w, x2, y2) == (cell(
                            orig,
                            w,
                            x2,
                            y2,
                        ) && !((left <= x2 < left + width && top <= y2 < y) || (y2 == y && left
                            <= x2 < x))),
                decreases left + width - x,
            {
                if self.in_bounds(x, y) {
                    let index = self.index(x, y);
                    proof {
                        lemma_cell_update(self.tiles@, w, h, x as int, y as int, false);
                    }
                    self.tiles.set(index, false);
                }
                x = x + 1;
            }
            assert forall|x2: int, y2: int| in_grid(w, h, x2, y2) implies #[trigger] cell(
                self.tiles@,
                w,
                x2,
                y2,
            ) == (cell(orig, w, x2, y2) && !(left <= x2 < left + width && top <= y2 < y + 1)) by {
            }
            y = y + 1;
        }
        proof {
            let pred = rect(left as int, top as int, width as int, height as int);
            lemma_carve_cells(orig, w, h, pred);
            assert forall|x2: int, y2: int| in_grid(w, h, x2, y2) implies #[trigger] cell(
                self.tiles@,
                w,
                x2,
                y2,
            ) == cell(carve_cells(orig, w, pred), w, x2, y2) by {
                assert(pred(x2, y2) == (left <= x2 < left + width && top <= y2 < top + height));
            }
            lemma_grid_ext(self.tiles@, carve_cells(orig, w, pred), w, h);
        }
    }

    /// Connect two tiles with an L-shaped corridor: along `a`'s row to `b`'s
    /// column, then along that column to `b`. Tiles outside the grid are
    /// skipped; walls alongside the corridor remain.
    pub fn connect(&mut self, a: Position, b: Position)
        requires
            old(self).wf(),
        ensures
            final(self).width == old(self).width,
            final(self).height == old(self).height,
            final(self).rooms@ == old(self).rooms@,
            final(self).tiles@ == carve_cells(old(self).tiles@, old(self).width as int, corridor(a, b)),
            final(self).wf(),
    {
        let ghost w = self.width as int;
        let ghost h = self.height as int;
        let ghost orig = self.tiles@;
        // Horizontal segment.
        let (x_start, x_end) = if a.x < b.x {
            (a.x, b.x)
        } else {
            (b.x, a.x)
        };
        let mut x = x_start;
        loop
            invariant_except_break
                forall|x2: int, y2: int|
                    in_grid(w, h, x2, y2) ==> #[trigger] cell(self.tiles@, w, x2, y2) == (cell(
                        orig,
                        w,
                        x2,
                        y2,
                    ) && !(y2 == a.y && x_start <= x2 < x)),
            invariant
                self.width == w,
                self.height == h,
                self.wf(),
                self.rooms@ == old(self).rooms@,
                grid_shape(orig, w, h),
                x_start <= x <= x_end,
                x_start == a.x || x_start == b.x,
                x_end == a.x || x_end == b.x,
                x_start <= a.x && x_start <= b.x && a.x <= x_end && b.x <= x_end,
            ensures
                self.width == w,
                self.height == h,
                self.wf(),
                self.rooms@ == old(self).rooms@,
                forall|x2: int, y2: int|
                    in_grid(w, h, x2, y2) ==> #[trigger] cell(self.tiles@, w, x2, y2) == (cell(
                        orig,
                        w,
                        x2,
                        y2,
                    ) && !(y2 == a.y && x_start <= x2 <= x_end)),
            decreases x_end - x,
        {
            if self.in_bounds(x, a.y) {
                let index = self.index(x, a.y);
                proof {
                    lemma_cell_update(self.tiles@, w, h, x as int, a.y as int, false);
                }
                self.tiles.set(index, false);
            }
            if x == x_end {
                break;
            }
            x = x + 1;
        }
        let ghost mid = self.tiles@;
        // Vertical segment.
        let (y_start, y_end) = if a.y < b.y {
            (a.y, b.y)
        } else {
            (b.y, a.y)
        };
        let mut y = y_start;
        loop
            invariant_except_break
                forall|x2: int, y2: int|
                    in_grid(w, h, x2, y2) ==> #[trigger] cell(self.tiles@, w, x2, y2) == (cell(
                        mid,
                        w,
                        x2,
                        y2,
                    ) && !(x2 == b.x && y_start <= y2 < y)),
            invariant
                self.width == w,
                self.height == h,
                self.wf(),
                self.rooms@ == old(self).rooms@,
                grid_shape(mid, w, h),
                y_start <= y <= y_end,
                y_start <= a.y && y_start <= b.y && a.y <= y_end && b.y <= y_end,
                y_start == a.y || y_start == b.y,
                y_end == a.y || y_end == b.y,
            ensures
                self.width == w,
                self.height == h,
                self.wf(),
                self.rooms@ == old(self).rooms@,
                forall|x2: int, y2: int|
                    in_grid(w, h, x2, y2) ==> #[trigger] cell(self.tiles@, w, x2, y2) == (cell(
                        mid,
                        w,
                        x2,
                        y2,
                    ) && !(x2 == b.x && y_start <= y2 <= y_end)),
            decreases y_end - y,
        {
            if self.in_bounds(b.x, y) {
                let index = self.index(b.x, y);
                proof {
                    lemma_cell_update(self.tiles@, w, h, b.x as int, y as int, false);
                }
                self.tiles.set(index, false);
            }
            if y == y_end {
                break;
            }
            y = y + 1;
        }
        proof {
            let pred = corridor(a, b);
            lemma_carve_cells(orig, w, h, pred);
            assert forall|x2: int, y2: int| in_grid(w, h, x2, y2) implies #[trigger] cell(
                self.tiles@,
                w,
                x2,
                y2,
            ) == cell(carve_cells(orig, w, pred), w, x2, y2) by {
                assert(cell(mid, w, x2, y2) == (cell(orig, w, x2, y2) && !(y2 == a.y && x_start <= x2
                    <= x_end)));
            }
            lemma_grid_ext(self.tiles@, carve_cells(orig, w, pred), w, h);
        }
    }
}

/// Wall flags and rooms of a maze under construction.
pub struct Layout {
    pub tiles: Seq<bool>,
    pub rooms: Seq<Room>,
}

pub open spec fn min_int(a: int, b: int) -> int {
    if a < b {
        a
    } else {
        b
    }
}

pub open spec fn max_int(a: int, b: int) -> int {
    if a < b {
        b
    } else {
        a
    }
}

/// The two halves of `region` when cut `sp` tiles from its start, leaving a
/// one-tile wall between them.
pub open spec fn halves(region: Room, horizontal: bool, sp: int) -> (Room, Room) {
    if horizontal {
        (
            Room { left: region.left, top: region.top, width: region.width, height: sp as i32 },
            Room {
                left: region.left,
                top: (region.top + sp + 1) as i32,
                width: region.width,
                height: (region.height - sp - 1) as i32,
            },
        )
    } else {
        (
            Room { left: region.left, top: region.top, width: sp as i32, height: region.height },
            Room {
                left: (region.left + sp + 1) as i32,
                top: region.top,
                width: (region.width - sp - 1) as i32,
                height: region.height,
            },
        )
    }
}

/// An attempted cut of `region` along one axis, with the generator state
/// after it: no cut when the span cannot leave `min_room` tiles on both
/// sides, and none when either child falls below `min_split_area`.
pub open spec fn try_split_spec(region: Room, horizontal: bool, c: MazeConfig, s: RngState) -> (
    Option<(Room, Room)>,
    RngState,
) {
    let span = if horizontal {
        region.height as int
    } else {
        region.width as int
    };
    if span < c.min_room * 2 + 1 {
        (None, s)
    } else {
        let (v, s2) = draw_between(s, c.min_room as u32, (span - c.min_room - 1) as u32);
        let (lower, upper) = halves(region, horizontal, v as int);
        if lower.width * lower.height < c.min_split_area || upper.width * upper.height
            < c.min_split_area {
            (None, s2)
        } else {
            (Some((lower, upper)), s2)
        }
    }
}

/// The room carved for a leaf region: its size drawn from the generator
/// state, the room centered in the region.
pub open spec fn leaf_room(region: Room, c: MazeConfig, s: RngState) -> (Room, RngState) {
    let (rw, s1) = draw_between(s, c.min_room as u32, min_int(c.max_room as int, region.width as int) as u32);
    let (rh, s2) = draw_between(s1, c.min_room as u32, min_int(c.max_room as int, region.height as int) as u32);
    (
        Room {
            left: (region.left + max_int(region.width - rw, 0) / 2) as i32,
            top: (region.top + max_int(region.height - rh, 0) / 2) as i32,
            width: rw as i32,
            height: rh as i32,
        },
        s2,
    )
}

pub open spec fn carve_room_spec(l: Layout, region: Room, c: MazeConfig, s: RngState) -> (
    Layout,
    RngState,
    Position,
) {
    let (room, s2) = leaf_room(region, c, s);
    (
        Layout {
            tiles: carve_cells(
                l.tiles,
                c.width as int,
                rect(room.left as int, room.top as int, room.width as int, room.height as int),
            ),
            rooms: l.rooms.push(room),
        },
        s2,
        room_center(room),
    )
}

pub open spec fn connect_spec(l: Layout, c: MazeConfig, a: Position, b: Position) -> Layout {
    Layout { tiles: carve_cells(l.tiles, c.width as int, corridor(a, b)), rooms: l.rooms }
}

pub open spec fn measure(r: Room) -> int {
    r.width + r.height
}

/// Both children are nonempty and strictly smaller than the parent.
pub open spec fn shrinks(lower: Room, upper: Room, region: Room) -> bool {
    &&& 0 <= lower.width && 0 <= lower.height && measure(lower) < measure(region)
    &&& 0 <= upper.width && 0 <= upper.height && measure(upper) < measure(region)
}

/// The recursive BSP step: try a random axis, then the other, and carve a
/// leaf room when neither cut is kept.
pub open spec fn split_spec(l: Layout, region: Room, c: MazeConfig, s: RngState) -> (
    Layout,
    RngState,
    Position,
)
    decreases measure(region), 2int,
{
    let (bit, s1) = draw_below(s, 2);
    let horizontal = bit == 0;
    let (t, s2) = try_split_spec(region, horizontal, c, s1);
    match t {
        Some(children) => join_spec(l, children.0, children.1, region, c, s2),
        None => second_split_spec(l, region, !horizontal, c, s2),
    }
}

pub open spec fn second_split_spec(l: Layout, region: Room, horizontal: bool, c: MazeConfig, s: RngState) -> (
    Layout,
    RngState,
    Position,
)
    decreases measure(region), 1int,
{
    let (t, s2) = try_split_spec(region, horizontal, c, s);
    match t {
        Some(children) => join_spec(l, children.0, children.1, region, c, s2),
        None => carve_room_spec(l, region, c, s2),
    }
}

/// Split both children, then join their representative tiles.
pub open spec fn join_spec(
    l: Layout,
    lower: Room,
    upper: Room,
    region: Room,
    c: MazeConfig,
    s: RngState,
) -> (Layout, RngState, Position)
    decreases measure(region), 0int,
{
    if shrinks(lower, upper, region) {
        let (l1, s1, a) = split_spec(l, lower, c, s);
        let (l2, s2, b) = split_spec(l1, upper, c, s1);
        (connect_spec(l2, c, a, b), s2, a)
    } else {
        (l, s, room_center(region))
    }
}

/// The four regions of the root, separated by one-tile walls.
pub open spec fn quadrants(root: Room) -> (Room, Room, Room, Room) {
    let lw = root.width / 2;
    let th = root.height / 2;
    let rw = root.width - lw - 1;
    let bh = root.height - th - 1;
    (
        Room { left: root.left, top: root.top, width: lw as i32, height: th as i32 },
        Room { left: (root.left + lw + 1) as i32, top: root.top, width: rw as i32, height: th as i32 },
        Room { left: root.left, top: (root.top + th + 1) as i32, width: lw as i32, height: bh as i32 },
        Room {
            left: (root.left + lw + 1) as i32,
            top: (root.top + th + 1) as i32,
            width: rw as i32,
            height: bh as i32,
        },
    )
}

pub open spec fn quartered(c: MazeConfig) -> bool {
    c.width - 2 >= c.min_room * 2 + 1 && c.height - 2 >= c.min_room * 2 + 1
}

pub open spec fn split_root_spec(l: Layout, root: Room, c: MazeConfig, s: RngState) -> (Layout, RngState) {
    if root.width < c.min_room * 2 + 1 || root.height < c.min_room * 2 + 1 {
        let (l1, s1, a) = split_spec(l, root, c, s);
        (l1, s1)
    } else {
        let (nw, ne, sw, se) = quadrants(root);
        let (l1, s1, a) = split_spec(l, nw, c, s);
        let (l2, s2, b) = split_spec(l1, ne, c, s1);
        let (l3, s3, d) = split_spec(l2, sw, c, s2);
        let (l4, s4, e) = split_spec(l3, se, c, s3);
        let l5 = connect_spec(l4, c, a, b);
        let l6 = connect_spec(l5, c, a, d);
        let l7 = connect_spec(l6, c, b, e);
        let l8 = connect_spec(l7, c, d, e);
        (l8, s4)
    }
}

pub open spec fn root_region(c: MazeConfig) -> Room {
    Room { left: 1, top: 1, width: (c.width - 2) as i32, height: (c.height - 2) as i32 }
}

pub open spec fn solid_layout(c: MazeConfig) -> Layout {
    Layout { tiles: Seq::new((c.width * c.height) as nat, |i: int| true), rooms: Seq::empty() }
}

/// The maze a configuration and generator state produce, with the state
/// after generation.
pub open spec fn generate(c: MazeConfig, s: RngState) -> (Layout, RngState) {
    split_root_spec(solid_layout(c), root_region(c), c, s)
}

/// The room lies inside the solid border of a `w` by `h` grid.
pub open spec fn inside(r: Room, w: int, h: int) -> bool {
    1 <= r.left && 1 <= r.top && r.left + r.width <= w - 1 && r.top + r.height <= h - 1
}

/// A region the generator may be asked to fill.
pub open spec fn region_ok(r: Room, c: MazeConfig) -> bool {
    inside(r, c.width as int, c.height as int) && r.width >= c.min_room && r.height >= c.min_room
}

pub open spec fn within(inner: Room, outer: Room) -> bool {
    outer.left <= inner.left && inner.left + inner.width <= outer.left + outer.width && outer.top
        <= inner.top && inner.top + inner.height <= outer.top + outer.height
}

/// The two rooms share no tile.
pub open spec fn separated(a: Room, b: Room) -> bool {
    ||| a.top + a.height <= b.top
    ||| b.top + b.height <= a.top
    ||| a.left + a.width <= b.left
    ||| b.left + b.width <= a.left
}

pub open spec fn split_ok(lower: Room, upper: Room, region: Room, c: MazeConfig) -> bool {
    &&& region_ok(lower, c)
    &&& region_ok(upper, c)
    &&& within(lower, region)
    &&& within(upper, region)
    &&& separated(lower, upper)
    &&& shrinks(lower, upper, region)
}

/// A carved room's size bounds and placement inside its region.
pub open spec fn room_fits(r: Room, region: Room, c: MazeConfig) -> bool {
    &&& within(r, region)
    &&& c.min_room <= r.width <= max_int(c.min_room as int, c.max_room as int)
    &&& c.min_room <= r.height <= max_int(c.min_room as int, c.max_room as int)
}

pub open spec fn all_walls(tiles: Seq<bool>, w: int, r: Room) -> bool {
    forall|x: int, y: int| in_room(r, x, y) ==> #[trigger] cell(tiles, w, x, y)
}

pub open spec fn same_outside(t0: Seq<bool>, t1: Seq<bool>, w: int, h: int, r: Room) -> bool {
    forall|x: int, y: int|
        in_grid(w, h, x, y) && !in_room(r, x, y) ==> #[trigger] cell(t1, w, x, y) == cell(t0, w, x, y)
}

/// Open tiles stay open.
pub open spec fn grows(t0: Seq<bool>, t1: Seq<bool>, w: int, h: int) -> bool {
    forall|x: int, y: int| is_open(t0, w, h, x, y) ==> #[trigger] is_open(t1, w, h, x, y)
}

/// `a` is an open tile of the room from which every open tile of the room
/// can be reached.
pub open spec fn anchored(t: Seq<bool>, w: int, h: int, r: Room, a: Position) -> bool {
    &&& in_room(r, a.x as int, a.y as int)
    &&& is_open(t, w, h, a.x as int, a.y as int)
    &&& forall|x: int, y: int|
        in_room(r, x, y) && is_open(t, w, h, x, y) ==> #[trigger] reachable(
            t,
            w,
            h,
            (a.x as int, a.y as int),
            (x, y),
        )
}

pub open spec fn room_carved(t: Seq<bool>, w: int, h: int, r: Room) -> bool {
    forall|x: int, y: int| in_room(r, x, y) ==> #[trigger] is_open(t, w, h, x, y)
}

/// What filling `region` guarantees: nothing outside it changes, open tiles
/// stay open, the open tiles of the region hang together around `a`, and
/// the rooms appended fit the region and are carved open.
pub open spec fn filled(l0: Layout, l1: Layout, region: Room, c: MazeConfig, a: Position) -> bool {
    &&& grown(l0, l1, region, c, a)
    &&& anchored(l1.tiles, c.width as int, c.height as int, region, a)
}

/// What filling `region` guarantees whatever it held before: nothing
/// outside it changes, open tiles stay open, the tile handed back lies in
/// the region, and the rooms appended fit the region, are carved open and
/// share no tile.
pub open spec fn grown(l0: Layout, l1: Layout, region: Room, c: MazeConfig, a: Position) -> bool {
    let w = c.width as int;
    let h = c.height as int;
    &&& grid_shape(l1.tiles, w, h)
    &&& same_outside(l0.tiles, l1.tiles, w, h, region)
    &&& grows(l0.tiles, l1.tiles, w, h)
    &&& in_room(region, a.x as int, a.y as int)
    &&& l1.rooms.len() > l0.rooms.len()
    &&& forall|i: int| 0 <= i < l0.rooms.len() ==> l1.rooms[i] == l0.rooms[i]
    &&& forall|i: int|
        l0.rooms.len() <= i < l1.rooms.len() ==> room_fits(#[trigger] l1.rooms[i], region, c)
    &&& forall|i: int|
        l0.rooms.len() <= i < l1.rooms.len() ==> room_carved(l1.tiles, w, h, #[trigger] l1.rooms[i])
    &&& rooms_apart(l1.rooms, l0.rooms.len() as int)
}

/// The rooms from index `start` on share no tile with one another.
pub open spec fn rooms_apart(rooms: Seq<Room>, start: int) -> bool {
    forall|i: int, j: int|
        start <= i < rooms.len() && start <= j < rooms.len() && i != j ==> separated(
            #[trigger] rooms[i],
            #[trigger] rooms[j],
        )
}

/// Carving a corridor opens exactly its tiles inside the grid and joins its
/// two ends.
pub proof fn lemma_corridor(t: Seq<bool>, w: int, h: int, a: Position, b: Position)
    requires
        grid_shape(t, w, h),
        in_grid(w, h, a.x as int, a.y as int),
        in_grid(w, h, b.x as int, b.y as int),
    ensures
        grid_shape(carve_cells(t, w, corridor(a, b)), w, h),
        forall|x: int, y: int|
            #[trigger] is_open(carve_cells(t, w, corridor(a, b)), w, h, x, y) == (is_open(
                t,
                w,
                h,
                x,
                y,
            ) || (in_grid(w, h, x, y) && on_corridor(a, b, x, y))),
        forall|x: int, y: int|
            on_corridor(a, b, x, y) ==> #[trigger] reachable(
                carve_cells(t, w, corridor(a, b)),
                w,
                h,
                (a.x as int, a.y as int),
                (x, y),
            ),
        reachable(carve_cells(t, w, corridor(a, b)), w, h, (a.x as int, a.y as int), (b.x as int, b.y as int)),
{
    let t2 = carve_cells(t, w, corridor(a, b));
    lemma_carve_cells(t, w, h, corridor(a, b));
    assert forall|x: int, y: int|
        #[trigger] is_open(t2, w, h, x, y) == (is_open(t, w, h, x, y) || (in_grid(w, h, x, y)
            && on_corridor(a, b, x, y))) by {
        if in_grid(w, h, x, y) {
            assert(cell(t2, w, x, y) == (cell(t, w, x, y) && !corridor(a, b)(x, y)));
        }
    }
    let ax = a.x as int;
    let ay = a.y as int;
    let bx = b.x as int;
    let by = b.y as int;
    assert forall|x: int, y: int| on_corridor(a, b, x, y) implies #[trigger] reachable(
        t2,
        w,
        h,
        (ax, ay),
        (x, y),
    ) by {
        assert forall|x2: int| (ax <= x2 <= bx || bx <= x2 <= ax) implies #[trigger] is_open(
            t2,
            w,
            h,
            x2,
            ay,
        ) by {
            assert(on_corridor(a, b, x2, ay));
        }
        if y == ay && ((ax <= x <= bx) || (bx <= x <= ax)) {
            assert forall|x2: int| (ax <= x2 <= x || x <= x2 <= ax) implies #[trigger] is_open(
                t2,
                w,
                h,
                x2,
                ay,
            ) by {
                assert(on_corridor(a, b, x2, ay));
            }
            lemma_reach_row(t2, w, h, ay, ax, x);
        } else {
            lemma_reach_row(t2, w, h, ay, ax, bx);
            assert forall|y2: int| (ay <= y2 <= y || y <= y2 <= ay) implies #[trigger] is_open(
                t2,
                w,
                h,
                bx,
                y2,
            ) by {
                assert(on_corridor(a, b, bx, y2));
            }
            lemma_reach_col(t2, w, h, bx, ay, y);
            lemma_reach_trans(t2, w, h, (ax, ay), (bx, ay), (x, y));
        }
    }
    assert(on_corridor(a, b, bx, by));
}

impl Maze {
    pub open spec fn layout(&self) -> Layout {
        Layout { tiles: self.tiles@, rooms: self.rooms@ }
    }

    /// Attempt to split `region` along the given axis. Returns the two
    /// children only if both keep `min_room` tiles and `min_split_area`.
    fn try_split(&self, region: Room, horizontal: bool, config: MazeConfig, rng: &mut Rng) -> (r: Option<
        (Room, Room),
    >)
        requires
            1 <= config.min_room,
            config.min_room * 2 + 1 <= i32::MAX,
            0 <= region.width && 0 <= region.height,
            region.left + region.width <= i32::MAX,
            region.top + region.height <= i32::MAX,
            region.width * region.height <= i32::MAX,
        ensures
            (r, final(rng)@) == try_split_spec(region, horizontal, config, old(rng)@),
            match r {
                Some((lower, upper)) => {
                    &&& within(lower, region) && within(upper, region)
                    &&& separated(lower, upper)
                    &&& shrinks(lower, upper, region)
                    &&& exists|sp: int|
                        config.min_room <= sp && sp + 1 + config.min_room <= (if horizontal {
                            region.height
                        } else {
                            region.width
                        }) && (lower, upper) == #[trigger] halves(region, horizontal, sp)
                    &&& lower.width * lower.height >= config.min_split_area
                    &&& upper.width * upper.height >= config.min_split_area
                },
                None => true,
            },
            region_ok(region, config) ==> match r {
                Some((lower, upper)) => split_ok(lower, upper, region, config),
                None => true,
            },
    {
        let span = if horizontal {
            region.height
        } else {
            region.width
        };

        if span < config.min_room * 2 + 1 {
            return None;
        }
        // Leave one wall tile at the split and at least `min_room` tiles in
        // both children.

        let split_point = rng.between(config.min_room as u32, (span - config.min_room - 1) as u32) as i32;

        let (lower, upper) = if horizontal {
            (
                Room { left: region.left, top: region.top, width: region.width, height: split_point },
                Room {
                    left: region.left,
                    top: region.top + split_point + 1,
                    width: region.width,
                    height: region.height - split_point - 1,
                },
            )
        } else {
            (
                Room { left: region.left, top: region.top, width: split_point, height: region.height },
                Room {
                    left: region.left + split_point + 1,
                    top: region.top,
                    width: region.width - split_point - 1,
                    height: region.height,
                },
            )
        };
        proof {
            lemma_area_bound(lower.width as int, lower.height as int, region.width as int, region.height as int);
            lemma_area_bound(upper.width as int, upper.height as int, region.width as int, region.height as int);
        }
        let lower_area = lower.width * lower.height;
        let upper_area = upper.width * upper.height;

        if lower_area < config.min_split_area || upper_area < config.min_split_area {
            return None;
        }
        Some((lower, upper))
    }

    /// Carve a leaf room centered inside the leaf region and record it.
    fn carve_room(&mut self, region: Room, config: MazeConfig, rng: &mut Rng) -> (anchor: Position)
        requires
            config.valid(),
            region_ok(region, config),
            old(self).wf(),
            old(self).width == config.width,
            old(self).height == config.height,
        ensures
            (final(self).layout(), final(rng)@, anchor) == carve_room_spec(old(self).layout(), region, config, old(rng)@),
            final(self).wf(),
            final(self).width == config.width,
            final(self).height == config.height,
            grown(old(self).layout(), final(self).layout(), region, config, anchor),
            all_walls(old(self).tiles@, config.width as int, region) ==> filled(
                old(self).layout(),
                final(self).layout(),
                region,
                config,
                anchor,
            ),
            // The room is centered: its margins in the region differ by at most one.
            ({
                let r = final(self).rooms@.last();
                let ml = r.left - region.left;
                let mr = region.left + region.width - (r.left + r.width);
                let mt = r.top - region.top;
                let mb = region.top + region.height - (r.top + r.height);
                0 <= ml <= mr <= ml + 1 && 0 <= mt <= mb <= mt + 1
            }),
    {
        proof {
            lemma_valid_bounds(config);
        }
        let lo = config.min_room as u32;
        let width_cap = if config.max_room < region.width {
            config.max_room
        } else {
            region.width
        };
        let height_cap = if config.max_room < region.height {
            config.max_room
        } else {
            region.height
        };
        let room_width = rng.between(lo, width_cap as u32) as i32;
        let room_height = rng.between(lo, height_cap as u32) as i32;

        let max_left = region.width - room_width;
        let max_top = region.height - room_height;

        let left = region.left + (if max_left > 0 { max_left } else { 0 }) / 2;
        let top = region.top + (if max_top > 0 { max_top } else { 0 }) / 2;

        let room = Room { left, top, width: room_width, height: room_height };
        let ghost l0 = self.layout();
        self.carve_rect(room.left, room.top, room.width, room.height);
        self.rooms.push(room);
        let anchor = room.center();
        proof {
            assert(room_fits(room, region, config));
            lemma_leaf_grown(l0, room, region, config);
            if all_walls(l0.tiles, config.width as int, region) {
                lemma_leaf_filled(l0, room, region, config);
            }
            assert(self.layout() == carve_room_spec(l0, region, config, old(rng)@).0);
        }
        anchor
    }
}

/// Carving a leaf room into an all-wall region fills the region.
pub proof fn lemma_leaf_filled(l0: Layout, room: Room, region: Room, c: MazeConfig)
    requires
        c.valid(),
        region_ok(region, c),
        room_fits(room, region, c),
        grid_shape(l0.tiles, c.width as int, c.height as int),
        all_walls(l0.tiles, c.width as int, region),
    ensures
        filled(
            l0,
            Layout {
                tiles: carve_cells(
                    l0.tiles,
                    c.width as int,
                    rect(room.left as int, room.top as int, room.width as int, room.height as int),
                ),
                rooms: l0.rooms.push(room),
            },
            region,
            c,
            room_center(room),
        ),
{
    let w = c.width as int;
    let h = c.height as int;
    let pred = rect(room.left as int, room.top as int, room.width as int, room.height as int);
    let t1 = carve_cells(l0.tiles, w, pred);
    let l1 = Layout { tiles: t1, rooms: l0.rooms.push(room) };
    let anchor = room_center(room);
    lemma_carve_cells(l0.tiles, w, h, pred);
    assert forall|x: int, y: int| in_room(room, x, y) implies #[trigger] is_open(t1, w, h, x, y) by {
        assert(cell(t1, w, x, y) == (cell(l0.tiles, w, x, y) && !pred(x, y)));
    }
    assert(room_carved(t1, w, h, room));
    assert forall|x: int, y: int| in_grid(w, h, x, y) && !in_room(region, x, y) implies #[trigger] cell(
        t1,
        w,
        x,
        y,
    ) == cell(l0.tiles, w, x, y) by {
        assert(!pred(x, y));
    }
    assert forall|x: int, y: int| is_open(l0.tiles, w, h, x, y) implies #[trigger] is_open(t1, w, h, x, y) by {
        assert(cell(t1, w, x, y) == (cell(l0.tiles, w, x, y) && !pred(x, y)));
    }
    assert(in_room(room, anchor.x as int, anchor.y as int));
    assert forall|x: int, y: int| in_room(region, x, y) && is_open(t1, w, h, x, y) implies #[trigger] reachable(
        t1,
        w,
        h,
        (anchor.x as int, anchor.y as int),
        (x, y),
    ) by {
        assert(cell(t1, w, x, y) == (cell(l0.tiles, w, x, y) && !pred(x, y)));
        assert(cell(l0.tiles, w, x, y));
        lemma_reach_rect(
            t1,
            w,
            h,
            room.left as int,
            room.top as int,
            room.width as int,
            room.height as int,
            (anchor.x as int, anchor.y as int),
            (x, y),
        );
    }
    assert(l1.rooms[l0.rooms.len() as int] == room);
}

/// Carving a leaf room grows the region, whatever it held before.
pub proof fn lemma_leaf_grown(l0: Layout, room: Room, region: Room, c: MazeConfig)
    requires
        c.valid(),
        region_ok(region, c),
        room_fits(room, region, c),
        grid_shape(l0.tiles, c.width as int, c.height as int),
    ensures
        grown(
            l0,
            Layout {
                tiles: carve_cells(
                    l0.tiles,
                    c.width as int,
                    rect(room.left as int, room.top as int, room.width as int, room.height as int),
                ),
                rooms: l0.rooms.push(room),
            },
            region,
            c,
            room_center(room),
        ),
{
    let w = c.width as int;
    let h = c.height as int;
    let pred = rect(room.left as int, room.top as int, room.width as int, room.height as int);
    let t1 = carve_cells(l0.tiles, w, pred);
    let l1 = Layout { tiles: t1, rooms: l0.rooms.push(room) };
    let anchor = room_center(room);
    lemma_carve_cells(l0.tiles, w, h, pred);
    assert forall|x: int, y: int| in_room(room, x, y) implies #[trigger] is_open(t1, w, h, x, y) by {
        assert(cell(t1, w, x, y) == (cell(l0.tiles, w, x, y) && !pred(x, y)));
    }
    assert(room_carved(t1, w, h, room));
    assert forall|x: int, y: int| in_grid(w, h, x, y) && !in_room(region, x, y) implies #[trigger] cell(
        t1,
        w,
        x,
        y,
    ) == cell(l0.tiles, w, x, y) by {
        assert(!pred(x, y));
    }
    assert forall|x: int, y: int| is_open(l0.tiles, w, h, x, y) implies #[trigger] is_open(t1, w, h, x, y) by {
        assert(cell(t1, w, x, y) == (cell(l0.tiles, w, x, y) && !pred(x, y)));
    }
    assert(in_room(room, anchor.x as int, anchor.y as int));
    assert(l1.rooms[l0.rooms.len() as int] == room);
}

/// Filling one child of a split leaves the other child all walls.
pub proof fn lemma_walls_kept(l0: Layout, l1: Layout, filled_part: Room, other: Room, region: Room, c: MazeConfig)
    requires
        all_walls(l0.tiles, c.width as int, region),
        same_outside(l0.tiles, l1.tiles, c.width as int, c.height as int, filled_part),
        within(other, region),
        separated(filled_part, other),
        inside(region, c.width as int, c.height as int),
    ensures
        all_walls(l1.tiles, c.width as int, other),
{
    let w = c.width as int;
    let h = c.height as int;
    assert forall|x: int, y: int| in_room(other, x, y) implies #[trigger] cell(l1.tiles, w, x, y) by {
        assert(in_grid(w, h, x, y));
        assert(!in_room(filled_part, x, y));
        assert(cell(l1.tiles, w, x, y) == cell(l0.tiles, w, x, y));
        assert(in_room(region, x, y));
    }
}

/// Growth composes.
pub proof fn lemma_grows_trans(t0: Seq<bool>, t1: Seq<bool>, t2: Seq<bool>, w: int, h: int)
    requires
        grows(t0, t1, w, h),
        grows(t1, t2, w, h),
    ensures
        grows(t0, t2, w, h),
{
    assert forall|x: int, y: int| is_open(t0, w, h, x, y) implies #[trigger] is_open(t2, w, h, x, y) by {
        assert(is_open(t1, w, h, x, y));
    }
}

/// A carved room stays carved as the maze grows.
pub proof fn lemma_carved_kept(t0: Seq<bool>, t1: Seq<bool>, w: int, h: int, r: Room)
    requires
        room_carved(t0, w, h, r),
        grows(t0, t1, w, h),
    ensures
        room_carved(t1, w, h, r),
{
    assert forall|x: int, y: int| in_room(r, x, y) implies #[trigger] is_open(t1, w, h, x, y) by {
        assert(is_open(t0, w, h, x, y));
    }
}

/// Filling both children of a split and joining their anchors with a
/// corridor fills the parent region.
pub proof fn lemma_join_filled(
    l0: Layout,
    l1: Layout,
    l2: Layout,
    lower: Room,
    upper: Room,
    region: Room,
    c: MazeConfig,
    a: Position,
    b: Position,
)
    requires
        c.valid(),
        region_ok(region, c),
        split_ok(lower, upper, region, c),
        grid_shape(l0.tiles, c.width as int, c.height as int),
        all_walls(l0.tiles, c.width as int, region),
        filled(l0, l1, lower, c, a),
        filled(l1, l2, upper, c, b),
    ensures
        filled(l0, connect_spec(l2, c, a, b), region, c, a),
{
    let w = c.width as int;
    let h = c.height as int;
    let l3 = connect_spec(l2, c, a, b);
    let t3 = l3.tiles;
    let pa = (a.x as int, a.y as int);
    let pb = (b.x as int, b.y as int);
    lemma_corridor(l2.tiles, w, h, a, b);
    assert(grows(l2.tiles, t3, w, h)) by {
        assert forall|x: int, y: int| is_open(l2.tiles, w, h, x, y) implies #[trigger] is_open(t3, w, h, x, y) by {
            assert(is_open(t3, w, h, x, y) == (is_open(l2.tiles, w, h, x, y) || (in_grid(w, h, x, y)
                && on_corridor(a, b, x, y))));
        }
    }
    lemma_grows_trans(l1.tiles, l2.tiles, t3, w, h);
    lemma_grows_trans(l0.tiles, l1.tiles, t3, w, h);
    assert forall|x: int, y: int| in_grid(w, h, x, y) && !in_room(region, x, y) implies #[trigger] cell(
        t3,
        w,
        x,
        y,
    ) == cell(l0.tiles, w, x, y) by {
        assert(is_open(t3, w, h, x, y) == (is_open(l2.tiles, w, h, x, y) || (in_grid(w, h, x, y)
            && on_corridor(a, b, x, y))));
        assert(!on_corridor(a, b, x, y));
        assert(cell(l2.tiles, w, x, y) == cell(l1.tiles, w, x, y));
        assert(cell(l1.tiles, w, x, y) == cell(l0.tiles, w, x, y));
    }
    assert forall|x: int, y: int| in_room(region, x, y) && is_open(t3, w, h, x, y) implies #[trigger] reachable(
        t3,
        w,
        h,
        pa,
        (x, y),
    ) by {
        assert(is_open(t3, w, h, x, y) == (is_open(l2.tiles, w, h, x, y) || (in_grid(w, h, x, y)
            && on_corridor(a, b, x, y))));
        if on_corridor(a, b, x, y) {
        } else if in_room(lower, x, y) {
            assert(!in_room(upper, x, y));
            assert(cell(l2.tiles, w, x, y) == cell(l1.tiles, w, x, y));
            assert(is_open(l1.tiles, w, h, x, y));
            assert(reachable(l1.tiles, w, h, pa, (x, y)));
            lemma_reach_mono(l1.tiles, t3, w, h, pa, (x, y));
        } else if in_room(upper, x, y) {
            assert(reachable(l2.tiles, w, h, pb, (x, y)));
            lemma_reach_mono(l2.tiles, t3, w, h, pb, (x, y));
            lemma_reach_trans(t3, w, h, pa, pb, (x, y));
        } else {
            assert(cell(l2.tiles, w, x, y) == cell(l1.tiles, w, x, y));
            assert(cell(l1.tiles, w, x, y) == cell(l0.tiles, w, x, y));
            assert(cell(l0.tiles, w, x, y));
        }
    }
    assert(is_open(l1.tiles, w, h, pa.0, pa.1));
    assert(is_open(t3, w, h, pa.0, pa.1));
    assert forall|i: int|
        l0.rooms.len() <= i < l3.rooms.len() implies room_fits(#[trigger] l3.rooms[i], region, c) by {
        if i < l1.rooms.len() {
            assert(room_fits(l1.rooms[i], lower, c));
            assert(l2.rooms[i] == l1.rooms[i]);
        } else {
            assert(room_fits(l2.rooms[i], upper, c));
        }
    }
    assert forall|i: int|
        l0.rooms.len() <= i < l3.rooms.len() implies room_carved(t3, w, h, #[trigger] l3.rooms[i]) by {
        if i < l1.rooms.len() {
            assert(room_carved(l1.tiles, w, h, l1.rooms[i]));
            assert(l2.rooms[i] == l1.rooms[i]);
            lemma_carved_kept(l1.tiles, t3, w, h, l1.rooms[i]);
        } else {
            assert(room_carved(l2.tiles, w, h, l2.rooms[i]));
            lemma_carved_kept(l2.tiles, t3, w, h, l2.rooms[i]);
        }
    }
    assert forall|i: int| 0 <= i < l0.rooms.len() implies l3.rooms[i] == l0.rooms[i] by {
        assert(l1.rooms[i] == l0.rooms[i]);
    }
}

/// Growing both children of a split and joining their tiles with a
/// corridor grows the parent region.
pub proof fn lemma_join_grown(
    l0: Layout,
    l1: Layout,
    l2: Layout,
    lower: Room,
    upper: Room,
    region: Room,
    c: MazeConfig,
    a: Position,
    b: Position,
)
    requires
        c.valid(),
        region_ok(region, c),
        split_ok(lower, upper, region, c),
        grid_shape(l0.tiles, c.width as int, c.height as int),
        grown(l0, l1, lower, c, a),
        grown(l1, l2, upper, c, b),
    ensures
        grown(l0, connect_spec(l2, c, a, b), region, c, a),
{
    let w = c.width as int;
    let h = c.height as int;
    let l3 = connect_spec(l2, c, a, b);
    let t3 = l3.tiles;
    let pa = (a.x as int, a.y as int);
    let pb = (b.x as int, b.y as int);
    lemma_corridor(l2.tiles, w, h, a, b);
    assert(grows(l2.tiles, t3, w, h)) by {
        assert forall|x: int, y: int| is_open(l2.tiles, w, h, x, y) implies #[trigger] is_open(t3, w, h, x, y) by {
            assert(is_open(t3, w, h, x, y) == (is_open(l2.tiles, w, h, x, y) || (in_grid(w, h, x, y)
                && on_corridor(a, b, x, y))));
        }
    }
    lemma_grows_trans(l1.tiles, l2.tiles, t3, w, h);
    lemma_grows_trans(l0.tiles, l1.tiles, t3, w, h);
    assert forall|x: int, y: int| in_grid(w, h, x, y) && !in_room(region, x, y) implies #[trigger] cell(
        t3,
        w,
        x,
        y,
    ) == cell(l0.tiles, w, x, y) by {
        assert(is_open(t3, w, h, x, y) == (is_open(l2.tiles, w, h, x, y) || (in_grid(w, h, x, y)
            && on_corridor(a, b, x, y))));
        assert(!on_corridor(a, b, x, y));
        assert(cell(l2.tiles, w, x, y) == cell(l1.tiles, w, x, y));
        assert(cell(l1.tiles, w, x, y) == cell(l0.tiles, w, x, y));
    }
    assert forall|i: int|
        l0.rooms.len() <= i < l3.rooms.len() implies room_fits(#[trigger] l3.rooms[i], region, c) by {
        if i < l1.rooms.len() {
            assert(room_fits(l1.rooms[i], lower, c));
            assert(l2.rooms[i] == l1.rooms[i]);
        } else {
            assert(room_fits(l2.rooms[i], upper, c));
        }
    }
    assert forall|i: int|
        l0.rooms.len() <= i < l3.rooms.len() implies room_carved(t3, w, h, #[trigger] l3.rooms[i]) by {
        if i < l1.rooms.len() {
            assert(room_carved(l1.tiles, w, h, l1.rooms[i]));
            assert(l2.rooms[i] == l1.rooms[i]);
            lemma_carved_kept(l1.tiles, t3, w, h, l1.rooms[i]);
        } else {
            assert(room_carved(l2.tiles, w, h, l2.rooms[i]));
            lemma_carved_kept(l2.tiles, t3, w, h, l2.rooms[i]);
        }
    }
    assert forall|i: int| 0 <= i < l0.rooms.len() implies l3.rooms[i] == l0.rooms[i] by {
        assert(l1.rooms[i] == l0.rooms[i]);
    }
}

impl Maze {
    /// Recursive BSP step. Splits the region along a random axis when both
    /// children remain useful, otherwise along the other axis, and carves a
    /// leaf room when neither cut is kept. Returns a tile from which every
    /// open tile of the region can be reached.
    fn split(&mut self, region: Room, config: MazeConfig, rng: &mut Rng) -> (anchor: Position)
        requires
            config.valid(),
            region_ok(region, config),
            old(self).wf(),
            old(self).width == config.width,
            old(self).height == config.height,
        ensures
            (final(self).layout(), final(rng)@, anchor) == split_spec(old(self).layout(), region, config, old(rng)@),
            final(self).wf(),
            final(self).width == config.width,
            final(self).height == config.height,
            grown(old(self).layout(), final(self).layout(), region, config, anchor),
            all_walls(old(self).tiles@, config.width as int, region) ==> filled(
                old(self).layout(),
                final(self).layout(),
                region,
                config,
                anchor,
            ),
        decreases measure(region), 1int,
    {
        proof {
            lemma_valid_bounds(config);
            lemma_area_bound(region.width as int, region.height as int, config.width as int, config.height as int);
        }
        let split_horizontally = rng.below(2) == 0;
        let ghost s1 = rng@;
        if let Some((lower, upper)) = self.try_split(region, split_horizontally, config, rng) {
            self.join(lower, upper, region, config, rng)
        } else {
            let ghost s2 = rng@;
            let second = self.try_split(region, !split_horizontally, config, rng);
            proof {
                assert(split_spec(self.layout(), region, config, old(rng)@) == second_split_spec(
                    self.layout(),
                    region,
                    !split_horizontally,
                    config,
                    s2,
                ));
            }
            if let Some((lower, upper)) = second {
                self.join(lower, upper, region, config, rng)
            } else {
                self.carve_room(region, config, rng)
            }
        }
    }

    /// Fill both children of a split, then join their anchors with a corridor.
    fn join(&mut self, lower: Room, upper: Room, region: Room, config: MazeConfig, rng: &mut Rng) -> (anchor: Position)
        requires
            config.valid(),
            region_ok(region, config),
            split_ok(lower, upper, region, config),
            old(self).wf(),
            old(self).width == config.width,
            old(self).height == config.height,
        ensures
            (final(self).layout(), final(rng)@, anchor) == join_spec(
                old(self).layout(),
                lower,
                upper,
                region,
                config,
                old(rng)@,
            ),
            final(self).wf(),
            final(self).width == config.width,
            final(self).height == config.height,
            grown(old(self).layout(), final(self).layout(), region, config, anchor),
            all_walls(old(self).tiles@, config.width as int, region) ==> filled(
                old(self).layout(),
                final(self).layout(),
                region,
                config,
                anchor,
            ),
        decreases measure(region), 0int,
    {
        let ghost l0 = self.layout();
        let ghost walls = all_walls(l0.tiles, config.width as int, region);
        proof {
            if walls {
                assert(all_walls(l0.tiles, config.width as int, lower));
            }
        }
        let lower_anchor = self.split(lower, config, rng);
        let ghost l1 = self.layout();
        proof {
            if walls {
                lemma_walls_kept(l0, l1, lower, upper, region, config);
            }
        }
        let upper_anchor = self.split(upper, config, rng);
        let ghost l2 = self.layout();
        proof {
            lemma_join_grown(l0, l1, l2, lower, upper, region, config, lower_anchor, upper_anchor);
            if walls {
                lemma_join_filled(l0, l1, l2, lower, upper, region, config, lower_anchor, upper_anchor);
            }
        }
        self.connect(lower_anchor, upper_anchor);
        lower_anchor
    }
}

/// Filling a region separated from `r` keeps `r` anchored.
pub proof fn lemma_anchored_kept(t0: Seq<bool>, t1: Seq<bool>, w: int, h: int, r: Room, a: Position, other: Room)
    requires
        anchored(t0, w, h, r, a),
        same_outside(t0, t1, w, h, other),
        grows(t0, t1, w, h),
        separated(r, other),
    ensures
        anchored(t1, w, h, r, a),
{
    let pa = (a.x as int, a.y as int);
    assert forall|x: int, y: int| in_room(r, x, y) && is_open(t1, w, h, x, y) implies #[trigger] reachable(
        t1,
        w,
        h,
        pa,
        (x, y),
    ) by {
        assert(!in_room(other, x, y));
        assert(cell(t1, w, x, y) == cell(t0, w, x, y));
        assert(is_open(t0, w, h, x, y));
        assert(reachable(t0, w, h, pa, (x, y)));
        lemma_reach_mono(t0, t1, w, h, pa, (x, y));
    }
    assert(is_open(t0, w, h, pa.0, pa.1));
}

/// A corridor between two tiles of the grid only opens tiles, leaves every
/// tile off the corridor as it was, and joins its ends.
pub proof fn lemma_connect_step(t: Seq<bool>, w: int, h: int, a: Position, b: Position)
    requires
        grid_shape(t, w, h),
        in_grid(w, h, a.x as int, a.y as int),
        in_grid(w, h, b.x as int, b.y as int),
    ensures
        grid_shape(carve_cells(t, w, corridor(a, b)), w, h),
        grows(t, carve_cells(t, w, corridor(a, b)), w, h),
        forall|x: int, y: int|
            in_grid(w, h, x, y) && !on_corridor(a, b, x, y) ==> #[trigger] cell(
                carve_cells(t, w, corridor(a, b)),
                w,
                x,
                y,
            ) == cell(t, w, x, y),
        forall|x: int, y: int|
            #[trigger] is_open(carve_cells(t, w, corridor(a, b)), w, h, x, y) ==> (is_open(t, w, h, x, y)
                || on_corridor(a, b, x, y)),
        forall|x: int, y: int|
            on_corridor(a, b, x, y) ==> #[trigger] reachable(
                carve_cells(t, w, corridor(a, b)),
                w,
                h,
                (a.x as int, a.y as int),
                (x, y),
            ),
        reachable(carve_cells(t, w, corridor(a, b)), w, h, (a.x as int, a.y as int), (b.x as int, b.y as int)),
{
    let t2 = carve_cells(t, w, corridor(a, b));
    lemma_corridor(t, w, h, a, b);
    assert forall|x: int, y: int| is_open(t, w, h, x, y) implies #[trigger] is_open(t2, w, h, x, y) by {
        assert(is_open(t2, w, h, x, y) == (is_open(t, w, h, x, y) || (in_grid(w, h, x, y) && on_corridor(
            a,
            b,
            x,
            y,
        ))));
    }
    assert forall|x: int, y: int| in_grid(w, h, x, y) && !on_corridor(a, b, x, y) implies #[trigger] cell(
        t2,
        w,
        x,
        y,
    ) == cell(t, w, x, y) by {
        assert(is_open(t2, w, h, x, y) == (is_open(t, w, h, x, y) || (in_grid(w, h, x, y) && on_corridor(
            a,
            b,
            x,
            y,
        ))));
    }
}

pub open spec fn quadrants_ok(root: Room, c: MazeConfig) -> bool {
    let (nw, ne, sw, se) = quadrants(root);
    &&& region_ok(nw, c) && region_ok(ne, c) && region_ok(sw, c) && region_ok(se, c)
    &&& within(nw, root) && within(ne, root) && within(sw, root) && within(se, root)
    &&& separated(nw, ne) && separated(nw, sw) && separated(nw, se)
    &&& separated(ne, sw) && separated(ne, se) && separated(sw, se)
}

/// The open tiles of the four filled quadrants, after the four corridors of
/// the root are carved, all hang together around the north-west anchor.
pub proof fn lemma_quadrants_filled(
    l0: Layout,
    l1: Layout,
    l2: Layout,
    l3: Layout,
    l4: Layout,
    root: Room,
    c: MazeConfig,
    a: Position,
    b: Position,
    d: Position,
    e: Position,
)
    requires
        c.valid(),
        region_ok(root, c),
        quadrants_ok(root, c),
        grid_shape(l0.tiles, c.width as int, c.height as int),
        all_walls(l0.tiles, c.width as int, root),
        filled(l0, l1, quadrants(root).0, c, a),
        filled(l1, l2, quadrants(root).1, c, b),
        filled(l2, l3, quadrants(root).2, c, d),
        filled(l3, l4, quadrants(root).3, c, e),
    ensures
        filled(
            l0,
            connect_spec(connect_spec(connect_spec(connect_spec(l4, c, a, b), c, a, d), c, b, e), c, d, e),
            root,
            c,
            a,
        ),
        l4.rooms.len() >= l0.rooms.len() + 4,
{
    let w = c.width as int;
    let h = c.height as int;
    let (nw, ne, sw, se) = quadrants(root);
    let t0 = l0.tiles;
    let t4 = l4.tiles;
    // Each quadrant stays anchored while the others are filled.
    lemma_anchored_kept(l1.tiles, l2.tiles, w, h, nw, a, ne);
    lemma_anchored_kept(l2.tiles, l3.tiles, w, h, nw, a, sw);
    lemma_anchored_kept(l3.tiles, t4, w, h, nw, a, se);
    lemma_anchored_kept(l2.tiles, l3.tiles, w, h, ne, b, sw);
    lemma_anchored_kept(l3.tiles, t4, w, h, ne, b, se);
    lemma_anchored_kept(l3.tiles, t4, w, h, sw, d, se);
    lemma_grows_trans(t0, l1.tiles, l2.tiles, w, h);
    lemma_grows_trans(t0, l2.tiles, l3.tiles, w, h);
    lemma_grows_trans(t0, l3.tiles, t4, w, h);
    lemma_grows_trans(l1.tiles, l2.tiles, l3.tiles, w, h);
    lemma_grows_trans(l1.tiles, l3.tiles, t4, w, h);
    lemma_grows_trans(l2.tiles, l3.tiles, t4, w, h);
    // Tiles of the root outside the quadrants, and tiles outside the root,
    // are untouched by the four fills.
    assert forall|x: int, y: int|
        in_grid(w, h, x, y) && !in_room(nw, x, y) && !in_room(ne, x, y) && !in_room(sw, x, y) && !in_room(
            se,
            x,
            y,
        ) implies #[trigger] cell(t4, w, x, y) == cell(t0, w, x, y) by {
        assert(cell(l1.tiles, w, x, y) == cell(t0, w, x, y));
        assert(cell(l2.tiles, w, x, y) == cell(l1.tiles, w, x, y));
        assert(cell(l3.tiles, w, x, y) == cell(l2.tiles, w, x, y));
    }
    let pa = (a.x as int, a.y as int);
    let pb = (b.x as int, b.y as int);
    let pd = (d.x as int, d.y as int);
    let pe = (e.x as int, e.y as int);
    assert(in_grid(w, h, pa.0, pa.1) && in_grid(w, h, pb.0, pb.1) && in_grid(w, h, pd.0, pd.1) && in_grid(
        w,
        h,
        pe.0,
        pe.1,
    ));
    let l5 = connect_spec(l4, c, a, b);
    let l6 = connect_spec(l5, c, a, d);
    let l7 = connect_spec(l6, c, b, e);
    let l8 = connect_spec(l7, c, d, e);
    let t5 = l5.tiles;
    let t6 = l6.tiles;
    let t7 = l7.tiles;
    let t8 = l8.tiles;
    lemma_connect_step(t4, w, h, a, b);
    lemma_connect_step(t5, w, h, a, d);
    lemma_connect_step(t6, w, h, b, e);
    lemma_connect_step(t7, w, h, d, e);
    lemma_grows_trans(t4, t5, t6, w, h);
    lemma_grows_trans(t4, t6, t7, w, h);
    lemma_grows_trans(t4, t7, t8, w, h);
    lemma_grows_trans(t5, t6, t7, w, h);
    lemma_grows_trans(t5, t7, t8, w, h);
    lemma_grows_trans(t6, t7, t8, w, h);
    lemma_grows_trans(t0, t4, t8, w, h);
    lemma_grows_trans(l1.tiles, t4, t8, w, h);
    lemma_grows_trans(l2.tiles, t4, t8, w, h);
    lemma_grows_trans(l3.tiles, t4, t8, w, h);
    // The anchors are joined.
    lemma_reach_mono(t5, t8, w, h, pa, pb);
    lemma_reach_mono(t6, t8, w, h, pa, pd);
    lemma_reach_mono(t7, t8, w, h, pb, pe);
    lemma_reach_trans(t8, w, h, pa, pb, pe);
    assert forall|x: int, y: int| in_grid(w, h, x, y) && !in_room(root, x, y) implies #[trigger] cell(
        t8,
        w,
        x,
        y,
    ) == cell(t0, w, x, y) by {
        assert(!on_corridor(a, b, x, y) && !on_corridor(a, d, x, y) && !on_corridor(b, e, x, y)
            && !on_corridor(d, e, x, y));
        assert(cell(t5, w, x, y) == cell(t4, w, x, y));
        assert(cell(t6, w, x, y) == cell(t5, w, x, y));
        assert(cell(t7, w, x, y) == cell(t6, w, x, y));
        assert(cell(t8, w, x, y) == cell(t7, w, x, y));
    }
    assert forall|x: int, y: int| in_room(root, x, y) && is_open(t8, w, h, x, y) implies #[trigger] reachable(
        t8,
        w,
        h,
        pa,
        (x, y),
    ) by {
        if on_corridor(d, e, x, y) {
            lemma_reach_trans(t8, w, h, pa, pd, (x, y));
        } else if on_corridor(b, e, x, y) {
            lemma_reach_mono(t7, t8, w, h, pb, (x, y));
            lemma_reach_trans(t8, w, h, pa, pb, (x, y));
        } else if on_corridor(a, d, x, y) {
            lemma_reach_mono(t6, t8, w, h, pa, (x, y));
        } else if on_corridor(a, b, x, y) {
            lemma_reach_mono(t5, t8, w, h, pa, (x, y));
        } else {
            assert(is_open(t7, w, h, x, y));
            assert(is_open(t6, w, h, x, y));
            assert(is_open(t5, w, h, x, y));
            assert(is_open(t4, w, h, x, y));
            if in_room(nw, x, y) {
                assert(reachable(t4, w, h, pa, (x, y)));
                lemma_reach_mono(t4, t8, w, h, pa, (x, y));
            } else if in_room(ne, x, y) {
                assert(reachable(t4, w, h, pb, (x, y)));
                lemma_reach_mono(t4, t8, w, h, pb, (x, y));
                lemma_reach_trans(t8, w, h, pa, pb, (x, y));
            } else if in_room(sw, x, y) {
                assert(reachable(t4, w, h, pd, (x, y)));
                lemma_reach_mono(t4, t8, w, h, pd, (x, y));
                lemma_reach_trans(t8, w, h, pa, pd, (x, y));
            } else if in_room(se, x, y) {
                assert(reachable(t4, w, h, pe, (x, y)));
                lemma_reach_mono(t4, t8, w, h, pe, (x, y));
                lemma_reach_trans(t8, w, h, pa, pe, (x, y));
            } else {
                assert(cell(t4, w, x, y) == cell(t0, w, x, y));
                assert(cell(t0, w, x, y));
            }
        }
    }
    assert(is_open(t8, w, h, pa.0, pa.1));
    assert forall|i: int|
        l0.rooms.len() <= i < l8.rooms.len() implies room_fits(#[trigger] l8.rooms[i], root, c)
        && room_carved(t8, w, h, l8.rooms[i]) by {
        if i < l1.rooms.len() {
            assert(room_fits(l1.rooms[i], nw, c));
            assert(l4.rooms[i] == l1.rooms[i]);
            lemma_carved_kept(l1.tiles, t8, w, h, l1.rooms[i]);
        } else if i < l2.rooms.len() {
            assert(room_fits(l2.rooms[i], ne, c));
            assert(l4.rooms[i] == l2.rooms[i]);
            lemma_carved_kept(l2.tiles, t8, w, h, l2.rooms[i]);
        } else if i < l3.rooms.len() {
            assert(room_fits(l3.rooms[i], sw, c));
            assert(l4.rooms[i] == l3.rooms[i]);
            lemma_carved_kept(l3.tiles, t8, w, h, l3.rooms[i]);
        } else {
            assert(room_fits(l4.rooms[i], se, c));
            lemma_carved_kept(t4, t8, w, h, l4.rooms[i]);
        }
    }
    assert forall|i: int| 0 <= i < l0.rooms.len() implies l8.rooms[i] == l0.rooms[i] by {
        assert(l1.rooms[i] == l0.rooms[i]);
        assert(l2.rooms[i] == l1.rooms[i]);
        assert(l3.rooms[i] == l2.rooms[i]);
    }
}

/// Growing the four quadrants and carving the four corridors of the root
/// grows the root, with at least one room per quadrant.
pub proof fn lemma_quadrants_grown(
    l0: Layout,
    l1: Layout,
    l2: Layout,
    l3: Layout,
    l4: Layout,
    root: Room,
    c: MazeConfig,
    a: Position,
    b: Position,
    d: Position,
    e: Position,
)
    requires
        c.valid(),
        region_ok(root, c),
        quadrants_ok(root, c),
        grid_shape(l0.tiles, c.width as int, c.height as int),
        grown(l0, l1, quadrants(root).0, c, a),
        grown(l1, l2, quadrants(root).1, c, b),
        grown(l2, l3, quadrants(root).2, c, d),
        grown(l3, l4, quadrants(root).3, c, e),
    ensures
        grown(
            l0,
            connect_spec(connect_spec(connect_spec(connect_spec(l4, c, a, b), c, a, d), c, b, e), c, d, e),
            root,
            c,
            a,
        ),
        l4.rooms.len() >= l0.rooms.len() + 4,
{
    let w = c.width as int;
    let h = c.height as int;
    let (nw, ne, sw, se) = quadrants(root);
    let t0 = l0.tiles;
    let t4 = l4.tiles;
    lemma_grows_trans(t0, l1.tiles, l2.tiles, w, h);
    lemma_grows_trans(t0, l2.tiles, l3.tiles, w, h);
    lemma_grows_trans(t0, l3.tiles, t4, w, h);
    lemma_grows_trans(l1.tiles, l2.tiles, l3.tiles, w, h);
    lemma_grows_trans(l1.tiles, l3.tiles, t4, w, h);
    lemma_grows_trans(l2.tiles, l3.tiles, t4, w, h);
    // Tiles of the root outside the quadrants, and tiles outside the root,
    // are untouched by the four fills.
    assert forall|x: int, y: int|
        in_grid(w, h, x, y) && !in_room(nw, x, y) && !in_room(ne, x, y) && !in_room(sw, x, y) && !in_room(
            se,
            x,
            y,
        ) implies #[trigger] cell(t4, w, x, y) == cell(t0, w, x, y) by {
        assert(cell(l1.tiles, w, x, y) == cell(t0, w, x, y));
        assert(cell(l2.tiles, w, x, y) == cell(l1.tiles, w, x, y));
        assert(cell(l3.tiles, w, x, y) == cell(l2.tiles, w, x, y));
    }
    let pa = (a.x as int, a.y as int);
    let pb = (b.x as int, b.y as int);
    let pd = (d.x as int, d.y as int);
    let pe = (e.x as int, e.y as int);
    assert(in_grid(w, h, pa.0, pa.1) && in_grid(w, h, pb.0, pb.1) && in_grid(w, h, pd.0, pd.1) && in_grid(
        w,
        h,
        pe.0,
        pe.1,
    ));
    let l5 = connect_spec(l4, c, a, b);
    let l6 = connect_spec(l5, c, a, d);
    let l7 = connect_spec(l6, c, b, e);
    let l8 = connect_spec(l7, c, d, e);
    let t5 = l5.tiles;
    let t6 = l6.tiles;
    let t7 = l7.tiles;
    let t8 = l8.tiles;
    lemma_connect_step(t4, w, h, a, b);
    lemma_connect_step(t5, w, h, a, d);
    lemma_connect_step(t6, w, h, b, e);
    lemma_connect_step(t7, w, h, d, e);
    lemma_grows_trans(t4, t5, t6, w, h);
    lemma_grows_trans(t4, t6, t7, w, h);
    lemma_grows_trans(t4, t7, t8, w, h);
    lemma_grows_trans(t5, t6, t7, w, h);
    lemma_grows_trans(t5, t7, t8, w, h);
    lemma_grows_trans(t6, t7, t8, w, h);
    lemma_grows_trans(t0, t4, t8, w, h);
    lemma_grows_trans(l1.tiles, t4, t8, w, h);
    lemma_grows_trans(l2.tiles, t4, t8, w, h);
    lemma_grows_trans(l3.tiles, t4, t8, w, h);
    assert forall|x: int, y: int| in_grid(w, h, x, y) && !in_room(root, x, y) implies #[trigger] cell(
        t8,
        w,
        x,
        y,
    ) == cell(t0, w, x, y) by {
        assert(!on_corridor(a, b, x, y) && !on_corridor(a, d, x, y) && !on_corridor(b, e, x, y)
            && !on_corridor(d, e, x, y));
        assert(cell(t5, w, x, y) == cell(t4, w, x, y));
        assert(cell(t6, w, x, y) == cell(t5, w, x, y));
        assert(cell(t7, w, x, y) == cell(t6, w, x, y));
        assert(cell(t8, w, x, y) == cell(t7, w, x, y));
    }
    assert forall|i: int|
        l0.rooms.len() <= i < l8.rooms.len() implies room_fits(#[trigger] l8.rooms[i], root, c)
        && room_carved(t8, w, h, l8.rooms[i]) by {
        if i < l1.rooms.len() {
            assert(room_fits(l1.rooms[i], nw, c));
            assert(l4.rooms[i] == l1.rooms[i]);
            lemma_carved_kept(l1.tiles, t8, w, h, l1.rooms[i]);
        } else if i < l2.rooms.len() {
            assert(room_fits(l2.rooms[i], ne, c));
            assert(l4.rooms[i] == l2.rooms[i]);
            lemma_carved_kept(l2.tiles, t8, w, h, l2.rooms[i]);
        } else if i < l3.rooms.len() {
            assert(room_fits(l3.rooms[i], sw, c));
            assert(l4.rooms[i] == l3.rooms[i]);
            lemma_carved_kept(l3.tiles, t8, w, h, l3.rooms[i]);
        } else {
            assert(room_fits(l4.rooms[i], se, c));
            lemma_carved_kept(t4, t8, w, h, l4.rooms[i]);
        }
    }
    assert forall|i: int| 0 <= i < l0.rooms.len() implies l8.rooms[i] == l0.rooms[i] by {
        assert(l1.rooms[i] == l0.rooms[i]);
        assert(l2.rooms[i] == l1.rooms[i]);
        assert(l3.rooms[i] == l2.rooms[i]);
    }
}

/// A root wide and tall enough for two minimum rooms side by side splits
/// into four valid, separated quadrants.
pub proof fn lemma_quadrants_ok(root: Room, c: MazeConfig)
    requires
        c.valid(),
        region_ok(root, c),
        root.width >= c.min_room * 2 + 1,
        root.height >= c.min_room * 2 + 1,
    ensures
        quadrants_ok(root, c),
{
}

/// Every open tile of a filled root lies in the root and is joined to every
/// other open tile.
pub proof fn lemma_root_connected(l0: Layout, l1: Layout, c: MazeConfig, a: Position)
    requires
        c.valid(),
        l0 == solid_layout(c),
        filled(l0, l1, root_region(c), c, a),
    ensures
        connected(l1.tiles, c.width as int, c.height as int),
        forall|x: int, y: int|
            #[trigger] is_open(l1.tiles, c.width as int, c.height as int, x, y) ==> in_room(
                root_region(c),
                x,
                y,
            ),
{
    let w = c.width as int;
    let h = c.height as int;
    let t = l1.tiles;
    let root = root_region(c);
    let pa = (a.x as int, a.y as int);
    assert forall|x: int, y: int| #[trigger] is_open(t, w, h, x, y) implies in_room(root, x, y) by {
        if !in_room(root, x, y) {
            lemma_index(w, h, x, y);
            assert(cell(t, w, x, y) == cell(l0.tiles, w, x, y));
        }
    }
    assert forall|p: Cell, q: Cell|
        is_open(t, w, h, p.0, p.1) && is_open(t, w, h, q.0, q.1) implies #[trigger] reachable(t, w, h, p, q) by {
        assert(in_room(root, p.0, p.1));
        assert(in_room(root, q.0, q.1));
        assert(reachable(t, w, h, pa, (p.0, p.1)));
        assert(reachable(t, w, h, pa, (q.0, q.1)));
        lemma_reach_sym(t, w, h, pa, p);
        lemma_reach_trans(t, w, h, p, pa, q);
    }
}

impl Maze {
    /// Split the root into four regions before the randomized BSP splits,
    /// so a camp plus three destination rooms are guaranteed without
    /// retrying a seed; a root too small for that is split directly.
    fn split_root(&mut self, root: Room, config: MazeConfig, rng: &mut Rng)
        requires
            config.valid(),
            region_ok(root, config),
            old(self).wf(),
            old(self).width == config.width,
            old(self).height == config.height,
        ensures
            (final(self).layout(), final(rng)@) == split_root_spec(old(self).layout(), root, config, old(rng)@),
            final(self).wf(),
            final(self).width == config.width,
            final(self).height == config.height,
            exists|a: Position| grown(old(self).layout(), final(self).layout(), root, config, a),
            all_walls(old(self).tiles@, config.width as int, root) ==> exists|a: Position|
                filled(old(self).layout(), final(self).layout(), root, config, a),
            // A root wide and tall enough for two rooms each way gets a room in
            // each of its four quadrants.
            root.width >= config.min_room * 2 + 1 && root.height >= config.min_room * 2 + 1
                ==> final(self).rooms@.len() >= old(self).rooms@.len() + 4,
    {
        proof {
            lemma_valid_bounds(config);
        }
        let minimum_span = config.min_room * 2 + 1;
        if root.width < minimum_span || root.height < minimum_span {
            let anchor = self.split(root, config, rng);
            return;
        }
        let left_width = root.width / 2;
        let top_height = root.height / 2;
        let right_width = root.width - left_width - 1;
        let bottom_height = root.height - top_height - 1;
        let north_west = Room { left: root.left, top: root.top, width: left_width, height: top_height };
        let north_east = Room {
            left: root.left + left_width + 1,
            top: root.top,
            width: right_width,
            height: top_height,
        };
        let south_west = Room {
            left: root.left,
            top: root.top + top_height + 1,
            width: left_width,
            height: bottom_height,
        };
        let south_east = Room {
            left: root.left + left_width + 1,
            top: root.top + top_height + 1,
            width: right_width,
            height: bottom_height,
        };
        proof {
            lemma_quadrants_ok(root, config);
            assert(quadrants(root) == (north_west, north_east, south_west, south_east));
        }
        let ghost l0 = self.layout();
        let ghost walls = all_walls(l0.tiles, config.width as int, root);
        proof {
            if walls {
                assert(all_walls(l0.tiles, config.width as int, north_west));
            }
        }
        let north_west_anchor = self.split(north_west, config, rng);
        let ghost l1 = self.layout();
        proof {
            if walls {
                lemma_walls_kept(l0, l1, north_west, north_east, root, config);
                lemma_walls_kept(l0, l1, north_west, south_west, root, config);
                lemma_walls_kept(l0, l1, north_west, south_east, root, config);
            }
        }
        let north_east_anchor = self.split(north_east, config, rng);
        let ghost l2 = self.layout();
        proof {
            if walls {
                lemma_walls_kept(l1, l2, north_east, south_west, south_west, config);
                lemma_walls_kept(l1, l2, north_east, south_east, south_east, config);
            }
        }
        let south_west_anchor = self.split(south_west, config, rng);
        let ghost l3 = self.layout();
        proof {
            if walls {
                lemma_walls_kept(l2, l3, south_west, south_east, south_east, config);
            }
        }
        let south_east_anchor = self.split(south_east, config, rng);
        let ghost l4 = self.layout();
        proof {
            lemma_quadrants_grown(
                l0,
                l1,
                l2,
                l3,
                l4,
                root,
                config,
                north_west_anchor,
                north_east_anchor,
                south_west_anchor,
                south_east_anchor,
            );
            if walls {
                lemma_quadrants_filled(
                    l0,
                    l1,
                    l2,
                    l3,
                    l4,
                    root,
                    config,
                    north_west_anchor,
                    north_east_anchor,
                    south_west_anchor,
                    south_east_anchor,
                );
            }
        }
        self.connect(north_west_anchor, north_east_anchor);
        self.connect(north_west_anchor, south_west_anchor);
        self.connect(north_east_anchor, south_east_anchor);
        self.connect(south_west_anchor, south_east_anchor);
    }

    /// Generate a maze for the configuration from the generator. The same
    /// configuration and generator state always give the same maze.
    pub fn new(config: MazeConfig, rng: &mut Rng) -> (maze: Maze)
        requires
            config.valid(),
        ensures
            maze.width == config.width,
            maze.height == config.height,
            maze.wf(),
            (maze.layout(), final(rng)@) == generate(config, old(rng)@),
            // The border stays solid.
            forall|x: int, y: int|
                in_grid(config.width as int, config.height as int, x, y) && (x == 0 || y == 0 || x
                    == config.width - 1 || y == config.height - 1) ==> !#[trigger] maze.open_at(x, y),
            // The open tiles form one connected region.
            connected(maze.tiles@, config.width as int, config.height as int),
            maze.rooms@.len() >= 1,
            forall|i: int|
                0 <= i < maze.rooms@.len() ==> room_fits(#[trigger] maze.rooms@[i], root_region(config), config)
                    && room_carved(maze.tiles@, config.width as int, config.height as int, maze.rooms@[i]),
            quartered(config) ==> maze.rooms@.len() >= 4,
            // No two rooms overlap.
            rooms_apart(maze.rooms@, 0),
    {
        proof {
            lemma_valid_bounds(config);
        }
        let n = (config.width * config.height) as usize;
        let mut maze = Maze {
            width: config.width,
            height: config.height,
            tiles: vec![true; n],
            rooms: Vec::new(),
        };
        let root = Room { left: 1, top: 1, width: config.width - 2, height: config.height - 2 };
        proof {
            assert(maze.tiles@ =~= solid_layout(config).tiles);
            assert(maze.layout() == solid_layout(config));
            assert forall|x: int, y: int| in_room(root, x, y) implies #[trigger] cell(
                maze.tiles@,
                config.width as int,
                x,
                y,
            ) by {
                lemma_index(config.width as int, config.height as int, x, y);
            }
        }
        let ghost l0 = maze.layout();
        maze.split_root(root, config, rng);
        proof {
            let a = choose|a: Position| filled(l0, maze.layout(), root, config, a);
            lemma_root_connected(l0, maze.layout(), config, a);
        }
        maze
    }
}

/// Bounds that follow from a valid configuration.
pub proof fn lemma_valid_bounds(c: MazeConfig)
    requires
        c.valid(),
    ensures
        c.width <= i32::MAX / 3,
        c.height <= i32::MAX / 3,
        c.min_room * 2 + 1 <= i32::MAX,
{
    assert(c.width * 3 <= c.width * c.height) by (nonlinear_arith)
        requires
            c.height >= 3,
            c.width >= 0,
    ;
    assert(c.height * 3 <= c.width * c.height) by (nonlinear_arith)
        requires
            c.width >= 3,
            c.height >= 0,
    ;
}

/// A sub-rectangle's area is at most the grid's.
pub proof fn lemma_area_bound(a: int, b: int, w: int, h: int)
    requires
        0 <= a <= w,
        0 <= b <= h,
    ensures
        0 <= a * b <= w * h,
{
    assert(0 <= a * b <= w * h) by (nonlinear_arith)
        requires
            0 <= a <= w,
            0 <= b <= h,
    ;
}

} // verus!
