//! Simulation systems: grid movement, treat collection, destination
//! detection and camp proximity. Each is a plain function over the world
//! and the maze; the engine chooses the order.

use vstd::prelude::*;
use crate::components::Collected;
use crate::components::Direction;
use crate::components::GridMotion;
use crate::components::ObjectKind;
use crate::components::Player;
use crate::components::Position;
use crate::components::Section;
use crate::components::Treat;
use crate::components::TreatKind;
use crate::components::direction_delta;
use crate::components::treat_value;
use crate::maze::Maze;
use crate::placement::blocked;
use crate::placement::is_blocked_by_collider;
use crate::placement::near;
use crate::placement::near_defined;
use crate::state::Input;
use crate::world::Entity;
use crate::world::World;
use crate::world::WorldView;
use crate::world::keys;
use crate::world::lookup;
use crate::world::unique_keys;
use crate::world::upsert;
use crate::world::lemma_unique_preserved;
use crate::world::lemma_lookup_upsert;

verus! {

/// Frames used to travel one full tile.
pub const GRID_STEP_FRAMES: u32 = 8;

/// Frames the status line lingers on the "treat acquired" message.
pub const TREAT_MESSAGE_FRAMES: u32 = 90;

/// The direction the input asks for: none while no movement key is held,
/// else the explicitly preferred one, else a single unopposed held key,
/// checked left, right, up, down.
pub open spec fn preferred(input: Input) -> Option<Direction> {
    if !(input.up || input.down || input.left || input.right) {
        None
    } else if input.preferred_direction is Some {
        input.preferred_direction
    } else if input.left && !input.right {
        Some(Direction::Left)
    } else if input.right && !input.left {
        Some(Direction::Right)
    } else if input.up && !input.down {
        Some(Direction::Up)
    } else if input.down && !input.up {
        Some(Direction::Down)
    } else {
        None
    }
}

/// Whether the movement key for `d` is held.
pub open spec fn held(input: Input, d: Direction) -> bool {
    match d {
        Direction::Up => input.up,
        Direction::Down => input.down,
        Direction::Left => input.left,
        Direction::Right => input.right,
    }
}

/// The direction facing the other way.
pub open spec fn opposite(d: Direction) -> Direction {
    match d {
        Direction::Up => Direction::Down,
        Direction::Down => Direction::Up,
        Direction::Left => Direction::Right,
        Direction::Right => Direction::Left,
    }
}

/// Which way the input asks to go. With no movement key held, nowhere. With
/// a key held and a preferred direction given, that direction. Otherwise a
/// direction is chosen only if its key is held and the opposite key is not;
/// a single held key is always followed; a lone horizontal key wins over
/// the vertical ones; and nothing is chosen only when every held key is
/// cancelled by its opposite.
pub proof fn lemma_preferred(input: Input)
    ensures
        (forall|d: Direction| !held(input, d)) ==> preferred(input) is None,
        (exists|d: Direction| held(input, d)) && input.preferred_direction is Some ==> preferred(input)
            == input.preferred_direction,
        input.preferred_direction is None ==> forall|d: Direction|
            preferred(input) == Some(d) ==> held(input, d) && !held(input, opposite(d)),
        input.preferred_direction is None ==> forall|d: Direction|
            #[trigger] held(input, d) && (forall|d2: Direction| held(input, d2) ==> d2 == d) ==> preferred(input)
                == Some(d),
        input.preferred_direction is None && preferred(input) is None ==> forall|d: Direction|
            #[trigger] held(input, d) ==> held(input, opposite(d)),
        // A lone horizontal key wins over the vertical ones.
        input.preferred_direction is None && input.left != input.right ==> preferred(input) == if input.left {
            Some(Direction::Left)
        } else {
            Some(Direction::Right)
        },
        input.preferred_direction is None && input.left == input.right && input.up != input.down ==> preferred(
            input,
        ) == if input.up {
            Some(Direction::Up)
        } else {
            Some(Direction::Down)
        },
{
    assert(held(input, Direction::Up) == input.up);
    assert(held(input, Direction::Down) == input.down);
    assert(held(input, Direction::Left) == input.left);
    assert(held(input, Direction::Right) == input.right);
}

fn preferred_direction(input: &Input) -> (r: Option<Direction>)
    ensures
        r == preferred(*input),
        input.preferred_direction is None ==> forall|d: Direction|
            r == Some(d) ==> held(*input, d) && !held(*input, opposite(d)),
        input.preferred_direction is None ==> forall|d: Direction|
            #[trigger] held(*input, d) && (forall|d2: Direction| held(*input, d2) ==> d2 == d) ==> r == Some(d),
{
    proof {
        lemma_preferred(*input);
    }
    if !(input.up || input.down || input.left || input.right) {
        return None;
    }
    if input.preferred_direction.is_some() {
        return input.preferred_direction;
    }
    if input.left && !input.right {
        return Some(Direction::Left);
    }
    if input.right && !input.left {
        return Some(Direction::Right);
    }
    if input.up && !input.down {
        return Some(Direction::Up);
    }
    if input.down && !input.up {
        return Some(Direction::Down);
    }
    None
}

/// The player's tile, read from its grid motion.
pub open spec fn tile_of(w: WorldView, player: Entity) -> Option<Position> {
    match lookup(w.motions, player) {
        Some(m) => Some(Position { x: m.tile_x, y: m.tile_y }),
        None => None,
    }
}

fn player_tile_position(world: &World, player: Entity) -> (r: Option<Position>)
    requires
        world@.wf(),
    ensures
        r == tile_of(world@, player),
{
    match world.component::<GridMotion>(player) {
        Some(motion) => Some(Position { x: motion.tile_x, y: motion.tile_y }),
        None => None,
    }
}

/// The tile one step from `(x, y)` in direction `d` is an `i32` coordinate.
pub open spec fn step_fits(x: int, y: int, d: Direction) -> bool {
    &&& i32::MIN <= x + direction_delta(d).0 <= i32::MAX
    &&& i32::MIN <= y + direction_delta(d).1 <= i32::MAX
}

/// The player may stand on the tile: it is open floor and no collider is
/// on it.
pub open spec fn walkable(w: WorldView, maze: &Maze, x: int, y: int) -> bool {
    maze.open_at(x, y) && !blocked(w, Position { x: x as i32, y: y as i32 })
}

/// The tile one step from `(x, y)` in direction `d` is walkable.
pub open spec fn step_allowed(w: WorldView, maze: &Maze, x: int, y: int, d: Direction) -> bool {
    walkable(w, maze, x + direction_delta(d).0, y + direction_delta(d).1)
}

fn can_step(world: &World, maze: &Maze, tile_x: i32, tile_y: i32, direction: Direction) -> (r: bool)
    requires
        world@.wf(),
        maze.wf(),
        step_fits(tile_x as int, tile_y as int, direction),
    ensures
        r == step_allowed(world@, maze, tile_x as int, tile_y as int, direction),
{
    let (dx, dy) = direction.delta();
    let destination_x = tile_x + dx;
    let destination_y = tile_y + dy;

    if maze.is_wall(destination_x, destination_y) {
        return false;
    }

    !is_blocked_by_collider(world, Position { x: destination_x, y: destination_y })
}

/// The motion after trying to start the buffered step: a step starts only
/// when none is in flight, a direction is buffered and the tile that way is
/// walkable.
pub open spec fn start_step(w: WorldView, maze: &Maze, m: GridMotion) -> GridMotion {
    if m.active_direction is Some {
        m
    } else {
        match m.buffered_direction {
            None => m,
            Some(d) => if step_allowed(w, maze, m.tile_x as int, m.tile_y as int, d) {
                GridMotion { active_direction: Some(d), frames_remaining: GRID_STEP_FRAMES, ..m }
            } else {
                m
            },
        }
    }
}

fn start_buffered_step(world: &World, motion: &mut GridMotion, maze: &Maze)
    requires
        world@.wf(),
        maze.wf(),
        old(motion).active_direction is None && old(motion).buffered_direction is Some ==> step_fits(
            old(motion).tile_x as int,
            old(motion).tile_y as int,
            old(motion).buffered_direction->0,
        ),
    ensures
        *final(motion) == start_step(world@, maze, *old(motion)),
{
    if motion.active_direction.is_some() {
        return;
    }
    let direction = match motion.buffered_direction {
        Some(d) => d,
        None => {
            return;
        },
    };
    if !can_step(world, maze, motion.tile_x, motion.tile_y, direction) {
        return;
    }
    motion.active_direction = Some(direction);
    motion.frames_remaining = GRID_STEP_FRAMES;
}

/// One frame of tile-step motion: start the buffered step if idle, advance
/// the step in flight, and on arrival move to the next tile and try to
/// chain the buffered direction at once.
pub open spec fn advance_motion(w: WorldView, maze: &Maze, m: GridMotion) -> GridMotion {
    let m1 = start_step(w, maze, m);
    match m1.active_direction {
        Some(d) => {
            let m2 = GridMotion { frames_remaining: (m1.frames_remaining - 1) as u32, ..m1 };
            if m2.frames_remaining == 0 {
                let m3 = GridMotion {
                    tile_x: (m2.tile_x + direction_delta(d).0) as i32,
                    tile_y: (m2.tile_y + direction_delta(d).1) as i32,
                    active_direction: None,
                    ..m2
                };
                start_step(w, maze, m3)
            } else {
                m2
            }
        },
        None => m1,
    }
}

/// The arithmetic of one motion frame stays in range: a step in flight has
/// frames left, and every tile the frame computes one step away is an `i32`
/// coordinate.
pub open spec fn motion_defined(w: WorldView, maze: &Maze, m: GridMotion) -> bool {
    let m1 = start_step(w, maze, m);
    &&& (m.active_direction is None && m.buffered_direction is Some) ==> step_fits(
        m.tile_x as int,
        m.tile_y as int,
        m.buffered_direction->0,
    )
    &&& m.active_direction is Some ==> m.frames_remaining >= 1
    &&& (m1.active_direction is Some && m1.frames_remaining == 1) ==> step_fits(
        m1.tile_x as int,
        m1.tile_y as int,
        m1.active_direction->0,
    )
    &&& (m1.active_direction is Some && m1.frames_remaining == 1 && m1.buffered_direction is Some) ==> step_fits(
        m1.tile_x + direction_delta(m1.active_direction->0).0,
        m1.tile_y + direction_delta(m1.active_direction->0).1,
        m1.buffered_direction->0,
    )
}

/// A step in flight has one to `GRID_STEP_FRAMES` frames left and heads
/// for a walkable tile.
pub open spec fn motion_ok(w: WorldView, maze: &Maze, m: GridMotion) -> bool {
    match m.active_direction {
        Some(d) => 1 <= m.frames_remaining <= GRID_STEP_FRAMES && step_allowed(
            w,
            maze,
            m.tile_x as int,
            m.tile_y as int,
            d,
        ),
        None => true,
    }
}

/// One frame of movement keeps the motion well-formed, and the player's
/// tile either stays or moves one step to a walkable neighbour.
pub proof fn lemma_motion_step(w: WorldView, maze: &Maze, m: GridMotion)
    requires
        motion_ok(w, maze, m),
        motion_defined(w, maze, m),
    ensures
        motion_ok(w, maze, advance_motion(w, maze, m)),
        ({
            let m2 = advance_motion(w, maze, m);
            ||| (m2.tile_x == m.tile_x && m2.tile_y == m.tile_y)
            ||| exists|d: Direction|
                #[trigger] step_allowed(w, maze, m.tile_x as int, m.tile_y as int, d) && m2.tile_x == m.tile_x
                    + direction_delta(d).0 && m2.tile_y == m.tile_y + direction_delta(d).1
        }),
{
    let m1 = start_step(w, maze, m);
    if let Some(d) = m1.active_direction {
        assert(step_allowed(w, maze, m.tile_x as int, m.tile_y as int, d));
    }
}

/// Record the latest held direction so movement can turn at the next tile
/// center. With no movement key held the buffer is cleared.
pub fn apply_input(world: &mut World, player: Entity, input: &Input)
    requires
        old(world)@.wf(),
    ensures
        final(world)@.wf(),
        match lookup(old(world)@.motions, player) {
            Some(m) => final(world)@ == (WorldView {
                motions: upsert(
                    old(world)@.motions,
                    player,
                    GridMotion { buffered_direction: preferred(*input), ..m },
                ),
                ..old(world)@
            }),
            None => final(world)@ == old(world)@,
        },
{
    proof {
        lemma_unique_preserved(
            world@.motions,
            player,
            GridMotion { buffered_direction: preferred(*input), ..world@.motions[0].1 },
        );
    }
    match world.component_mut::<GridMotion>(player) {
        Some(motion) => {
            motion.buffered_direction = preferred_direction(input);
        },
        None => {},
    }
}

/// Advance the player by one frame of tile-step motion. The player moves
/// only between adjacent walkable tiles; the latest buffered direction is
/// reused at each tile so held input continues or turns.
pub fn move_with_collision(world: &mut World, maze: &Maze, player: Entity)
    requires
        old(world)@.wf(),
        maze.wf(),
        match lookup(old(world)@.motions, player) {
            Some(m) => motion_defined(old(world)@, maze, m),
            None => true,
        },
    ensures
        final(world)@.wf(),
        match lookup(old(world)@.motions, player) {
            Some(m) => final(world)@ == (WorldView {
                motions: upsert(old(world)@.motions, player, advance_motion(old(world)@, maze, m)),
                ..old(world)@
            }),
            None => final(world)@ == old(world)@,
        },
{
    let mut motion = match world.component::<GridMotion>(player) {
        Some(m) => *m,
        None => {
            return;
        },
    };
    let ghost m0 = motion;

    start_buffered_step(world, &mut motion, maze);

    if motion.active_direction.is_some() {
        motion.frames_remaining = motion.frames_remaining - 1;
        if motion.frames_remaining == 0 {
            let direction = match motion.active_direction {
                Some(d) => d,
                None => Direction::Up,
            };
            let (dx, dy) = direction.delta();
            motion.tile_x = motion.tile_x + dx;
            motion.tile_y = motion.tile_y + dy;
            motion.active_direction = None;
            start_buffered_step(world, &mut motion, maze);
        }
    }
    proof {
        assert(motion == advance_motion(world@, maze, m0));
    }
    world.insert(player, motion);
}

/// State of the treat-collection pass: the world so far, the last kind
/// collected, and whether every step stayed free of overflow.
pub struct CollectState {
    pub world: WorldView,
    pub kind: Option<TreatKind>,
    pub ok: bool,
}

/// Visit one entity: an uncollected treat standing on tile `p` is marked
/// collected, its value is added to the player's score and the player is
/// flagged; the treat's kind becomes the result.
pub open spec fn collect_step(st: CollectState, player: Entity, p: Position, e: Entity) -> CollectState {
    let w = st.world;
    if lookup(w.kinds, e) != Some(ObjectKind::Treat) {
        st
    } else if lookup(w.collected, e) == Some(Collected(true)) {
        st
    } else {
        match (lookup(w.positions, e), lookup(w.treats, e)) {
            (Some(pos), Some(t)) => if pos == p {
                let w1 = WorldView { collected: upsert(w.collected, e, Collected(true)), ..w };
                match lookup(w1.players, player) {
                    Some(pl) => if pl.score + treat_value(t.kind) <= u32::MAX {
                        CollectState {
                            world: WorldView {
                                players: upsert(
                                    w1.players,
                                    player,
                                    Player {
                                        score: (pl.score + treat_value(t.kind)) as u32,
                                        just_collected_treat: true,
                                    },
                                ),
                                ..w1
                            },
                            kind: Some(t.kind),
                            ok: st.ok,
                        }
                    } else {
                        CollectState { world: w1, kind: Some(t.kind), ok: false }
                    },
                    None => CollectState { world: w1, kind: Some(t.kind), ok: st.ok },
                }
            } else {
                st
            },
            _ => st,
        }
    }
}

/// The collection pass over the first `n` entities of `es`.
pub open spec fn collect_upto(w: WorldView, player: Entity, p: Position, es: Seq<Entity>, n: int) -> CollectState
    decreases n,
{
    if n <= 0 {
        CollectState { world: w, kind: None, ok: true }
    } else {
        collect_step(collect_upto(w, player, p, es, n - 1), player, p, es[n - 1])
    }
}

/// The full collection pass over the object entities, in table order.
pub open spec fn collect_pass(w: WorldView, player: Entity, p: Position) -> CollectState {
    collect_upto(w, player, p, keys(w.kinds), w.kinds.len() as int)
}

/// Collection keeps the player's score within `u32`.
pub open spec fn collect_defined(w: WorldView, player: Entity) -> bool {
    match tile_of(w, player) {
        Some(p) => collect_pass(w, player, p).ok,
        None => true,
    }
}

pub proof fn lemma_collect_ok_prefix(w: WorldView, player: Entity, p: Position, es: Seq<Entity>, i: int, n: int)
    requires
        0 <= i <= n,
        collect_upto(w, player, p, es, n).ok,
    ensures
        collect_upto(w, player, p, es, i).ok,
    decreases n - i,
{
    if i < n {
        lemma_collect_ok_prefix(w, player, p, es, i + 1, n);
    }
}

/// A collection step only touches the collected and player tables, keeps
/// the world free of duplicates, and never removes an entry.
pub proof fn lemma_collect_step(st: CollectState, player: Entity, p: Position, e: Entity)
    requires
        st.world.wf(),
    ensures
        collect_step(st, player, p, e).world.wf(),
        collect_step(st, player, p, e).world.kinds == st.world.kinds,
        collect_step(st, player, p, e).world.positions == st.world.positions,
        collect_step(st, player, p, e).world.treats == st.world.treats,
        collect_step(st, player, p, e).world.motions == st.world.motions,
        collect_step(st, player, p, e).world.next == st.world.next,
{
    let w = st.world;
    lemma_unique_preserved(w.collected, e, Collected(true));
    let w1 = WorldView { collected: upsert(w.collected, e, Collected(true)), ..w };
    lemma_unique_preserved(w1.players, player, Player { score: 0, just_collected_treat: true });
    match lookup(w1.players, player) {
        Some(pl) => {
            lemma_unique_preserved(
                w1.players,
                player,
                Player { score: (pl.score + treat_value(lookup(w.treats, e)->0.kind)) as u32, just_collected_treat: true },
            );
        },
        None => {},
    }
}

/// A treat standing on tile `p` that the collection pass can take.
pub open spec fn takeable(w: WorldView, p: Position, e: Entity) -> bool {
    &&& lookup(w.kinds, e) == Some(ObjectKind::Treat)
    &&& lookup(w.positions, e) == Some(p)
    &&& lookup(w.treats, e) is Some
}

/// After the first `n` steps of a pass, every treat on `p` among the
/// entities visited is collected, and the kind, position and treat tables
/// are as they were.
pub proof fn lemma_collect_marks(w: WorldView, player: Entity, p: Position, es: Seq<Entity>, n: int)
    requires
        w.wf(),
        0 <= n <= es.len(),
    ensures
        collect_upto(w, player, p, es, n).world.wf(),
        collect_upto(w, player, p, es, n).world.kinds == w.kinds,
        collect_upto(w, player, p, es, n).world.positions == w.positions,
        collect_upto(w, player, p, es, n).world.treats == w.treats,
        forall|i: int|
            0 <= i < n && #[trigger] takeable(w, p, es[i]) ==> lookup(
                collect_upto(w, player, p, es, n).world.collected,
                es[i],
            ) == Some(Collected(true)),
    decreases n,
{
    if n > 0 {
        lemma_collect_marks(w, player, p, es, n - 1);
        let st = collect_upto(w, player, p, es, n - 1);
        let e = es[n - 1];
        lemma_collect_step(st, player, p, e);
        let w2 = collect_upto(w, player, p, es, n).world;
        assert forall|i: int| 0 <= i < n && #[trigger] takeable(w, p, es[i]) implies lookup(w2.collected, es[i])
            == Some(Collected(true)) by {
            if w2.collected != st.world.collected {
                lemma_lookup_upsert(st.world.collected, e, Collected(true), es[i]);
            }
        }
    }
}

/// A pass over entities whose treats on `p` are all collected takes
/// nothing and changes nothing.
pub proof fn lemma_collect_idle(w: WorldView, player: Entity, p: Position, es: Seq<Entity>, n: int)
    requires
        0 <= n <= es.len(),
        forall|i: int|
            0 <= i < n && #[trigger] takeable(w, p, es[i]) ==> lookup(w.collected, es[i]) == Some(Collected(true)),
    ensures
        collect_upto(w, player, p, es, n) == (CollectState { world: w, kind: None, ok: true }),
    decreases n,
{
    if n > 0 {
        lemma_collect_idle(w, player, p, es, n - 1);
        assert(takeable(w, p, es[n - 1]) ==> lookup(w.collected, es[n - 1]) == Some(Collected(true)));
    }
}

/// Collecting twice from the same tile: the second pass takes nothing and
/// changes nothing.
pub proof fn lemma_collect_twice(w: WorldView, player: Entity, p: Position)
    requires
        w.wf(),
    ensures
        collect_pass(collect_pass(w, player, p).world, player, p) == (CollectState {
            world: collect_pass(w, player, p).world,
            kind: None,
            ok: true,
        }),
{
    let es = keys(w.kinds);
    lemma_collect_marks(w, player, p, es, es.len() as int);
    let w1 = collect_pass(w, player, p).world;
    assert(keys(w1.kinds) == es);
    assert forall|i: int| 0 <= i < es.len() && #[trigger] takeable(w1, p, es[i]) implies lookup(
        w1.collected,
        es[i],
    ) == Some(Collected(true)) by {
        assert(takeable(w, p, es[i]));
    }
    lemma_collect_idle(w1, player, p, es, es.len() as int);
}

/// The steps of a pass before any visit of `e` leave `e`'s collected flag
/// as it was.
pub proof fn lemma_collect_untouched(w: WorldView, player: Entity, p: Position, es: Seq<Entity>, n: int, e: Entity)
    requires
        w.wf(),
        0 <= n <= es.len(),
        forall|i: int| 0 <= i < n ==> #[trigger] es[i] != e,
    ensures
        lookup(collect_upto(w, player, p, es, n).world.collected, e) == lookup(w.collected, e),
    decreases n,
{
    if n > 0 {
        lemma_collect_untouched(w, player, p, es, n - 1, e);
        lemma_collect_marks(w, player, p, es, n - 1);
        let st = collect_upto(w, player, p, es, n - 1);
        assert(es[n - 1] != e);
        lemma_lookup_upsert(st.world.collected, es[n - 1], Collected(true), e);
    }
}

/// A pass changes the collected flag of no entity but the treats standing
/// on `p` among those it visits.
pub proof fn lemma_collect_changes(w: WorldView, player: Entity, p: Position, es: Seq<Entity>, n: int, e: Entity)
    requires
        w.wf(),
        0 <= n <= es.len(),
        lookup(collect_upto(w, player, p, es, n).world.collected, e) != lookup(w.collected, e),
    ensures
        exists|i: int| 0 <= i < n && #[trigger] es[i] == e && takeable(w, p, es[i]),
    decreases n,
{
    lemma_collect_marks(w, player, p, es, n - 1);
    let st = collect_upto(w, player, p, es, n - 1);
    let f = es[n - 1];
    lemma_lookup_upsert(st.world.collected, f, Collected(true), e);
    if lookup(st.world.collected, e) != lookup(w.collected, e) {
        lemma_collect_changes(w, player, p, es, n - 1, e);
    } else {
        assert(e == f && takeable(w, p, es[n - 1]));
    }
}

/// What a pass over distinct entities reports: kind `k` only when one of
/// them was an uncollected treat of kind `k` standing on `p`, and nothing
/// only when every treat among them standing on `p` was collected already.
pub proof fn lemma_collect_kind(w: WorldView, player: Entity, p: Position, es: Seq<Entity>, n: int)
    requires
        w.wf(),
        0 <= n <= es.len(),
        forall|i: int, j: int| 0 <= i < j < es.len() ==> es[i] != es[j],
    ensures
        collect_upto(w, player, p, es, n).kind matches Some(k) ==> exists|i: int|
            0 <= i < n && #[trigger] takeable(w, p, es[i]) && lookup(w.treats, es[i])->0.kind == k && lookup(
                w.collected,
                es[i],
            ) != Some(Collected(true)),
        collect_upto(w, player, p, es, n).kind is None ==> forall|i: int|
            0 <= i < n && #[trigger] takeable(w, p, es[i]) ==> lookup(w.collected, es[i]) == Some(Collected(true)),
    decreases n,
{
    if n > 0 {
        lemma_collect_kind(w, player, p, es, n - 1);
        lemma_collect_marks(w, player, p, es, n - 1);
        assert forall|i: int| 0 <= i < n - 1 implies #[trigger] es[i] != es[n - 1] by {}
        lemma_collect_untouched(w, player, p, es, n - 1, es[n - 1]);
        let e = es[n - 1];
        if lookup(w.kinds, e) == Some(ObjectKind::Treat) && lookup(w.collected, e) != Some(Collected(true))
            && lookup(w.positions, e) == Some(p) && lookup(w.treats, e) is Some {
            assert(takeable(w, p, es[n - 1]));
            assert(collect_upto(w, player, p, es, n).kind == Some(lookup(w.treats, e)->0.kind));
        } else {
            assert(collect_upto(w, player, p, es, n).kind == collect_upto(w, player, p, es, n - 1).kind);
            if collect_upto(w, player, p, es, n).kind is None {
                assert(takeable(w, p, es[n - 1]) ==> lookup(w.collected, es[n - 1]) == Some(Collected(true)));
            }
        }
    }
}

/// What collecting on tile `p` reports and does: kind `k` only when an
/// entity of kind treat with a treat of kind `k`, standing on `p` and not
/// yet collected, is collected by the pass; nothing only when every treat
/// standing on `p` was collected already.
pub proof fn lemma_collect_pass_kind(w: WorldView, player: Entity, p: Position)
    requires
        w.wf(),
    ensures
        collect_pass(w, player, p).kind matches Some(k) ==> exists|e: Entity|
            #[trigger] lookup(w.treats, e) is Some && lookup(w.treats, e)->0.kind == k && lookup(w.kinds, e) == Some(
                ObjectKind::Treat,
            ) && lookup(w.positions, e) == Some(p) && lookup(w.collected, e) != Some(Collected(true)) && lookup(
                collect_pass(w, player, p).world.collected,
                e,
            ) == Some(Collected(true)),
        collect_pass(w, player, p).kind is None ==> forall|e: Entity|
            #[trigger] lookup(w.treats, e) is Some && lookup(w.kinds, e) == Some(ObjectKind::Treat) && lookup(
                w.positions,
                e,
            ) == Some(p) ==> lookup(w.collected, e) == Some(Collected(true)),        forall|e: Entity|
            #[trigger] lookup(collect_pass(w, player, p).world.collected, e) != lookup(w.collected, e) ==> lookup(
                w.kinds,
                e,
            ) == Some(ObjectKind::Treat) && lookup(w.positions, e) == Some(p) && lookup(w.treats, e) is Some,
{
    assert forall|e: Entity|
        #[trigger] lookup(collect_pass(w, player, p).world.collected, e) != lookup(w.collected, e) implies lookup(
        w.kinds,
        e,
    ) == Some(ObjectKind::Treat) && lookup(w.positions, e) == Some(p) && lookup(w.treats, e) is Some by {
        lemma_collect_changes(w, player, p, keys(w.kinds), w.kinds.len() as int, e);
        let i = choose|i: int| 0 <= i < w.kinds.len() && #[trigger] keys(w.kinds)[i] == e && takeable(
            w,
            p,
            keys(w.kinds)[i],
        );
    }
    let es = keys(w.kinds);
    let n = w.kinds.len() as int;
    assert forall|i: int, j: int| 0 <= i < j < es.len() implies es[i] != es[j] by {
        assert(es[i] == w.kinds[i].0 && es[j] == w.kinds[j].0);
    }
    lemma_collect_kind(w, player, p, es, n);
    lemma_collect_marks(w, player, p, es, n);
    if collect_pass(w, player, p).kind is None {
        assert forall|e: Entity|
            #[trigger] lookup(w.treats, e) is Some && lookup(w.kinds, e) == Some(ObjectKind::Treat) && lookup(
                w.positions,
                e,
            ) == Some(p) implies lookup(w.collected, e) == Some(Collected(true)) by {
            lemma_kind_key(w, e);
            let i = choose|i: int| 0 <= i < w.kinds.len() && #[trigger] keys(w.kinds)[i] == e;
            assert(es[i] == e);
            assert(takeable(w, p, es[i]));
        }
    }
}

/// Collect any uncollected treat overlapping the player's current tile.
/// Returns the kind collected last so the caller can report its name and
/// value; the player's score grows by each collected treat's value and the
/// player is flagged for the snapshot.
pub fn collect_treats(world: &mut World, player: Entity) -> (r: Option<TreatKind>)
    requires
        old(world)@.wf(),
        collect_defined(old(world)@, player),
    ensures
        final(world)@.wf(),
        match tile_of(old(world)@, player) {
            Some(p) => final(world)@ == collect_pass(old(world)@, player, p).world && r == collect_pass(
                old(world)@,
                player,
                p,
            ).kind,
            None => final(world)@ == old(world)@ && r is None,
        },
        // The kind reported is that of a treat on the player's tile that was
        // still to collect and is collected now.
        r matches Some(k) ==> exists|e: Entity|
            #[trigger] lookup(old(world)@.treats, e) is Some && lookup(old(world)@.treats, e)->0.kind == k && lookup(
                old(world)@.kinds,
                e,
            ) == Some(ObjectKind::Treat) && tile_of(old(world)@, player) is Some && lookup(old(world)@.positions, e)
                == tile_of(old(world)@, player) && lookup(old(world)@.collected, e) != Some(Collected(true))
                && lookup(final(world)@.collected, e) == Some(Collected(true)),
        // Nothing is reported only when no treat on the player's tile was
        // still to collect.
        r is None ==> forall|e: Entity|
            #[trigger] lookup(old(world)@.treats, e) is Some && lookup(old(world)@.kinds, e) == Some(ObjectKind::Treat)
                && tile_of(old(world)@, player) is Some && lookup(old(world)@.positions, e) == tile_of(
                old(world)@,
                player,
            ) ==> lookup(old(world)@.collected, e) == Some(Collected(true)),
        // Only treats on the player's tile change their collected flag.
        forall|e: Entity|
            #[trigger] lookup(final(world)@.collected, e) != lookup(old(world)@.collected, e) ==> lookup(
                old(world)@.kinds,
                e,
            ) == Some(ObjectKind::Treat) && tile_of(old(world)@, player) is Some && lookup(old(world)@.positions, e)
                == tile_of(old(world)@, player) && lookup(old(world)@.treats, e) is Some,
{
    proof {
        match tile_of(old(world)@, player) {
            Some(p) => lemma_collect_pass_kind(old(world)@, player, p),
            None => {},
        }
    }
    let pos = match player_tile_position(world, player) {
        Some(p) => p,
        None => {
            return None;
        },
    };
    let ghost w0 = world@;
    let treat_entities = world.entities_with::<ObjectKind>();
    let ghost es = treat_entities@;
    let n = treat_entities.len();
    let mut collected_kind: Option<TreatKind> = None;
    let mut i: usize = 0;
    while i < n
        invariant
            n == es.len(),
            es == keys(w0.kinds),
            es == treat_entities@,
            i <= n,
            collect_upto(w0, player, pos, es, n as int).ok,
            world@ == collect_upto(w0, player, pos, es, i as int).world,
            collected_kind == collect_upto(w0, player, pos, es, i as int).kind,
            world@.wf(),
        decreases n - i,
    {
        let entity = treat_entities[i];
        let ghost st = collect_upto(w0, player, pos, es, i as int);
        proof {
            lemma_collect_ok_prefix(w0, player, pos, es, i + 1, n as int);
            lemma_collect_step(st, player, pos, entity);
        }
        let is_treat = match world.component::<ObjectKind>(entity) {
            Some(ObjectKind::Treat) => true,
            _ => false,
        };
        if is_treat {
            let already_collected = match world.component::<Collected>(entity) {
                Some(Collected(true)) => true,
                _ => false,
            };
            if !already_collected {
                let found = match world.component::<Position>(entity) {
                    Some(position) => match world.component::<Treat>(entity) {
                        Some(treat) => Some((*position, treat.kind)),
                        None => None,
                    },
                    None => None,
                };
                match found {
                    Some((position, kind)) => {
                        if position == pos {
                            proof {
                                lemma_unique_preserved(world@.collected, entity, Collected(true));
                            }
                            world.insert(entity, Collected(true));
                            match world.component_mut::<Player>(player) {
                                Some(player_state) => {
                                    player_state.score = player_state.score + kind.value();
                                    player_state.just_collected_treat = true;
                                },
                                None => {},
                            }
                            collected_kind = Some(kind);
                        }
                    },
                    None => {},
                }
            }
        }
        i = i + 1;
    }
    collected_kind
}

/// The section of the first destination, in table order, whose door is
/// on tile `p`, among the first `n` entities of `es`.
pub open spec fn destination_upto(w: WorldView, p: Position, es: Seq<Entity>, n: int) -> Option<Section>
    decreases n,
{
    if n <= 0 {
        None
    } else {
        match destination_upto(w, p, es, n - 1) {
            Some(s) => Some(s),
            None => match lookup(w.kinds, es[n - 1]) {
                Some(ObjectKind::Destination { section }) => if lookup(w.positions, es[n - 1]) == Some(p) {
                    Some(section)
                } else {
                    None
                },
                _ => None,
            },
        }
    }
}

pub open spec fn destination_at(w: WorldView, player: Entity) -> Option<Section> {
    match tile_of(w, player) {
        Some(p) => destination_upto(w, p, keys(w.kinds), w.kinds.len() as int),
        None => None,
    }
}

/// The destination scan finds only a door standing on `p`, and finds one
/// whenever some destination door among the entities stands there.
pub proof fn lemma_destination_upto(w: WorldView, p: Position, es: Seq<Entity>, n: int)
    requires
        0 <= n <= es.len(),
    ensures
        destination_upto(w, p, es, n) matches Some(s) ==> exists|i: int|
            0 <= i < n && lookup(w.kinds, #[trigger] es[i]) == Some(ObjectKind::Destination { section: s })
                && lookup(w.positions, es[i]) == Some(p),
        destination_upto(w, p, es, n) is None ==> forall|i: int|
            0 <= i < n && #[trigger] lookup(w.kinds, es[i]) is Some && lookup(w.kinds, es[i])->0 is Destination
                ==> lookup(w.positions, es[i]) != Some(p),
    decreases n,
{
    if n > 0 {
        lemma_destination_upto(w, p, es, n - 1);
    }
}

/// An entity with a kind is listed among the keys of the kind table.
pub proof fn lemma_kind_key(w: WorldView, e: Entity)
    requires
        lookup(w.kinds, e) is Some,
    ensures
        exists|i: int| 0 <= i < w.kinds.len() && #[trigger] keys(w.kinds)[i] == e,
{
    let i = crate::world::key_index(w.kinds, e);
    assert(keys(w.kinds)[i] == e);
}

/// The destination reported for the player is the section of a
/// destination entity whose door stands exactly on the player's tile, and
/// none is reported when no destination door stands there.
pub proof fn lemma_destination_at(w: WorldView, player: Entity)
    ensures
        destination_at(w, player) matches Some(s) ==> exists|e: Entity|
            #[trigger] lookup(w.kinds, e) == Some(ObjectKind::Destination { section: s }) && tile_of(w, player)
                is Some && lookup(w.positions, e) == tile_of(w, player),
        destination_at(w, player) is None ==> forall|e: Entity|
            #[trigger] lookup(w.kinds, e) is Some && lookup(w.kinds, e)->0 is Destination ==> tile_of(w, player)
                is None || lookup(w.positions, e) != tile_of(w, player),
{
    match tile_of(w, player) {
        Some(p) => {
            let es = keys(w.kinds);
            lemma_destination_upto(w, p, es, w.kinds.len() as int);
            if destination_at(w, player) is None {
                assert forall|e: Entity|
                    #[trigger] lookup(w.kinds, e) is Some && lookup(w.kinds, e)->0 is Destination implies lookup(
                    w.positions,
                    e,
                ) != Some(p) by {
                    lemma_kind_key(w, e);
                    let i = choose|i: int| 0 <= i < w.kinds.len() && #[trigger] keys(w.kinds)[i] == e;
                    assert(es[i] == e);
                }
            }
        },
        None => {},
    }
}

/// Returns the section whose destination door occupies the player's tile.
pub fn active_destination(world: &World, player: Entity) -> (r: Option<Section>)
    requires
        world@.wf(),
    ensures
        r == destination_at(world@, player),
        r matches Some(s) ==> exists|e: Entity|
            #[trigger] lookup(world@.kinds, e) == Some(ObjectKind::Destination { section: s }) && tile_of(
                world@,
                player,
            ) is Some && lookup(world@.positions, e) == tile_of(world@, player),
        r is None ==> forall|e: Entity|
            #[trigger] lookup(world@.kinds, e) is Some && lookup(world@.kinds, e)->0 is Destination ==> tile_of(
                world@,
                player,
            ) is None || lookup(world@.positions, e) != tile_of(world@, player),
{
    proof {
        lemma_destination_at(world@, player);
    }
    let pos = match player_tile_position(world, player) {
        Some(p) => p,
        None => {
            return None;
        },
    };
    let entities = world.entities_with::<ObjectKind>();
    let n = entities.len();
    let mut i: usize = 0;
    while i < n
        invariant
            world@.wf(),
            entities@ == keys(world@.kinds),
            n == entities@.len(),
            i <= n,
            tile_of(world@, player) == Some(pos),
            destination_upto(world@, pos, entities@, i as int) is None,
        decreases n - i,
    {
        let entity = entities[i];
        match world.component::<ObjectKind>(entity) {
            Some(ObjectKind::Destination { section }) => match world.component::<Position>(entity) {
                Some(position) => {
                    if pos.x == position.x && pos.y == position.y {
                        proof {
                            assert(*position == pos);
                            assert(destination_upto(world@, pos, entities@, i + 1) == Some(*section));
                            lemma_destination_found(world@, pos, entities@, i as int + 1, n as int);
                            assert(keys(world@.kinds).len() == world@.kinds.len());
                        }
                        return Some(*section);
                    }
                },
                None => {},
            },
            _ => {},
        }
        i = i + 1;
    }
    None
}

/// Once a destination is found, later entities do not change the answer.
pub proof fn lemma_destination_found(w: WorldView, p: Position, es: Seq<Entity>, i: int, n: int)
    requires
        0 < i <= n,
    ensures
        destination_upto(w, p, es, i) is Some ==> destination_upto(w, p, es, n) == destination_upto(w, p, es, i),
    decreases n - i,
{
    if i < n {
        lemma_destination_found(w, p, es, i + 1, n);
    }
}

/// Whether some camp entity among the first `n` of `es` lies within one tile
/// of `p`, and whether every check up to the first such camp stays in range.
pub open spec fn camp_near_upto(w: WorldView, p: Position, es: Seq<Entity>, n: int) -> (bool, bool)
    decreases n,
{
    if n <= 0 {
        (false, true)
    } else {
        let (found, ok) = camp_near_upto(w, p, es, n - 1);
        if found {
            (found, ok)
        } else {
            match (lookup(w.kinds, es[n - 1]), lookup(w.positions, es[n - 1])) {
                (Some(ObjectKind::Camp), Some(pos)) => (near(p, pos), ok && near_defined(p, pos)),
                _ => (false, ok),
            }
        }
    }
}

pub open spec fn camp_near(w: WorldView, player: Entity) -> (bool, bool) {
    match tile_of(w, player) {
        Some(p) => camp_near_upto(w, p, keys(w.kinds), w.kinds.len() as int),
        None => (false, true),
    }
}

pub proof fn lemma_camp_found(w: WorldView, p: Position, es: Seq<Entity>, i: int, n: int)
    requires
        0 <= i <= n,
    ensures
        camp_near_upto(w, p, es, i).0 ==> camp_near_upto(w, p, es, n) == camp_near_upto(w, p, es, i),
        camp_near_upto(w, p, es, n).1 ==> camp_near_upto(w, p, es, i).1,
    decreases n - i,
{
    if i < n {
        lemma_camp_found(w, p, es, i + 1, n);
    }
}

/// Both tiles are known and `q` is within one tile of `p` (Chebyshev
/// distance at most one).
pub open spec fn within_one(q: Option<Position>, p: Option<Position>) -> bool {
    match (q, p) {
        (Some(q), Some(p)) => -1 <= q.x - p.x <= 1 && -1 <= q.y - p.y <= 1,
        _ => false,
    }
}

/// The camp scan finds only a camp entity within one tile of `p`, and
/// finds one whenever some camp among the entities is that close.
pub proof fn lemma_camp_near_upto(w: WorldView, p: Position, es: Seq<Entity>, n: int)
    requires
        0 <= n <= es.len(),
    ensures
        camp_near_upto(w, p, es, n).0 ==> exists|i: int|
            0 <= i < n && lookup(w.kinds, #[trigger] es[i]) == Some(ObjectKind::Camp) && within_one(lookup(w.positions, es[i]), Some(p)),
        !camp_near_upto(w, p, es, n).0 ==> forall|i: int|
            0 <= i < n && #[trigger] lookup(w.kinds, es[i]) == Some(ObjectKind::Camp) ==> !within_one(lookup(w.positions, es[i]), Some(p)),
    decreases n,
{
    if n > 0 {
        lemma_camp_near_upto(w, p, es, n - 1);
    }
}

/// The player counts as near the camp exactly when some entity of kind
/// camp stands within one tile (Chebyshev distance at most one) of the
/// player's tile.
pub proof fn lemma_camp_near(w: WorldView, player: Entity)
    ensures
        camp_near(w, player).0 ==> exists|e: Entity|
            #[trigger] lookup(w.kinds, e) == Some(ObjectKind::Camp) && within_one(lookup(w.positions, e), tile_of(w, player)),
        !camp_near(w, player).0 ==> forall|e: Entity|
            #[trigger] lookup(w.kinds, e) == Some(ObjectKind::Camp) ==> !within_one(lookup(w.positions, e), tile_of(w, player)),
{
    match tile_of(w, player) {
        Some(p) => {
            let es = keys(w.kinds);
            lemma_camp_near_upto(w, p, es, w.kinds.len() as int);
            if camp_near(w, player).0 {
                let i = choose|i: int|
                    0 <= i < w.kinds.len() && lookup(w.kinds, #[trigger] es[i]) == Some(ObjectKind::Camp) && within_one(lookup(w.positions, es[i]), Some(p));
                assert(lookup(w.kinds, es[i]) == Some(ObjectKind::Camp));
            } else {
                assert forall|e: Entity| #[trigger] lookup(w.kinds, e) == Some(ObjectKind::Camp) implies !within_one(lookup(w.positions, e), Some(p)) by {
                    lemma_kind_key(w, e);
                    let i = choose|i: int| 0 <= i < w.kinds.len() && #[trigger] keys(w.kinds)[i] == e;
                    assert(es[i] == e);
                }
            }
        },
        None => {},
    }
}

/// Returns `true` when the player is within one tile of a camp marker.
pub fn is_near_camp(world: &World, player: Entity) -> (r: bool)
    requires
        world@.wf(),
        camp_near(world@, player).1,
    ensures
        r == camp_near(world@, player).0,
        r ==> exists|e: Entity|
            #[trigger] lookup(world@.kinds, e) == Some(ObjectKind::Camp) && within_one(lookup(world@.positions, e), tile_of(world@, player)),
        !r ==> forall|e: Entity|
            #[trigger] lookup(world@.kinds, e) == Some(ObjectKind::Camp) ==> !within_one(lookup(world@.positions, e), tile_of(world@, player)),
{
    proof {
        lemma_camp_near(world@, player);
    }
    let pos = match player_tile_position(world, player) {
        Some(p) => p,
        None => {
            return false;
        },
    };
    let entities = world.entities_with::<ObjectKind>();
    let n = entities.len();
    let mut i: usize = 0;
    while i < n
        invariant
            world@.wf(),
            entities@ == keys(world@.kinds),
            n == entities@.len(),
            i <= n,
            tile_of(world@, player) == Some(pos),
            camp_near_upto(world@, pos, entities@, n as int).1,
            !camp_near_upto(world@, pos, entities@, i as int).0,
        decreases n - i,
    {
        let entity = entities[i];
        proof {
            lemma_camp_found(world@, pos, entities@, i + 1, n as int);
        }
        match world.component::<ObjectKind>(entity) {
            Some(ObjectKind::Camp) => match world.component::<Position>(entity) {
                Some(position) => {
                    let dx = pos.x - position.x;
                    if -1 <= dx && dx <= 1 {
                        let dy = pos.y - position.y;
                        if -1 <= dy && dy <= 1 {
                            proof {
                                assert(camp_near_upto(world@, pos, entities@, i + 1).0);
                                lemma_camp_found(world@, pos, entities@, i + 1, n as int);
                                assert(keys(world@.kinds).len() == world@.kinds.len());
                            }
                            return true;
                        }
                    }
                },
                None => {},
            },
            _ => {},
        }
        i = i + 1;
    }
    false
}

/// Number of treats among the first `n` entities of `es` not yet collected.
pub open spec fn remaining_upto(w: WorldView, es: Seq<Entity>, n: int) -> int
    decreases n,
{
    if n <= 0 {
        0
    } else {
        remaining_upto(w, es, n - 1) + if lookup(w.kinds, es[n - 1]) == Some(ObjectKind::Treat) && lookup(
            w.collected,
            es[n - 1],
        ) != Some(Collected(true)) {
            1int
        } else {
            0int
        }
    }
}

pub proof fn lemma_remaining_bound(w: WorldView, es: Seq<Entity>, n: int)
    requires
        0 <= n,
    ensures
        0 <= remaining_upto(w, es, n) <= n,
    decreases n,
{
    if n > 0 {
        lemma_remaining_bound(w, es, n - 1);
    }
}

/// Count of treats still uncollected.
pub fn remaining_treats(world: &World) -> (r: u32)
    requires
        world@.wf(),
        world@.kinds.len() <= u32::MAX,
    ensures
        r == remaining_upto(world@, keys(world@.kinds), world@.kinds.len() as int),
{
    let entities = world.entities_with::<ObjectKind>();
    let n = entities.len();
    let mut count: u32 = 0;
    let mut i: usize = 0;
    while i < n
        invariant
            world@.wf(),
            entities@ == keys(world@.kinds),
            n == entities@.len(),
            n <= u32::MAX,
            i <= n,
            count == remaining_upto(world@, entities@, i as int),
        decreases n - i,
    {
        let entity = entities[i];
        proof {
            lemma_remaining_bound(world@, entities@, i as int);
        }
        let is_treat = match world.component::<ObjectKind>(entity) {
            Some(ObjectKind::Treat) => true,
            _ => false,
        };
        if is_treat {
            let collected = match world.component::<Collected>(entity) {
                Some(Collected(true)) => true,
                _ => false,
            };
            if !collected {
                count = count + 1;
            }
        }
        i = i + 1;
    }
    count
}

} // verus!
