//! Placing gameplay objects into a generated maze: wall colliders, the camp,
//! the three destination buildings and the treats.

use vstd::prelude::*;
use crate::components::Collected;
use crate::components::Collider;
use crate::components::ObjectKind;
use crate::components::Position;
use crate::components::Section;
use crate::components::Sprite;
use crate::components::SpriteId;
use crate::components::Treat;
use crate::components::TreatKind;
use crate::grid::cell;
use crate::grid::connected;
use crate::grid::grid_shape;
use crate::grid::is_open;
use crate::grid::reachable;
use crate::grid::in_grid;
use crate::grid::lemma_index;
use crate::maze::Layout;
use crate::maze::Maze;
use crate::maze::Room;
use crate::maze::can_host;
use crate::maze::center_fits;
use crate::maze::in_room;
use crate::maze::lemma_center_inside;
use crate::maze::room_carved;
use crate::maze::rooms_apart;
use crate::maze::separated;
use crate::maze::room_center;
use crate::rng::Rng;
use crate::rng::RngState;
use crate::rng::draw_below;
use crate::rng::lemma_truncate_le;
use crate::routes::hosts;
use crate::routes::in_footprint;
use crate::routes::in_some_footprint;
use crate::routes::lemma_connected_around_buildings;
use crate::routes::lemma_footprint_inside;
use crate::routes::lemma_with_buildings;
use crate::routes::sited;
use crate::routes::with_buildings;
use crate::world::Entity;
use crate::world::Spawn;
use crate::world::World;
use crate::world::WorldView;
use crate::world::has_key;
use crate::world::key_index;
use crate::world::keys;
use crate::world::lemma_fresh_upsert;
use crate::world::lemma_key_index;
use crate::world::lemma_spawn_all;
use crate::world::lemma_spawn_all_concat;
use crate::world::lemma_spawn_all_push;
use crate::world::lemma_spawn_one;
use crate::world::lookup;
use crate::world::no_components;
use crate::world::push_opt;
use crate::world::spawn_all;
use crate::world::spawn_one;
use crate::world::unique_keys;

verus! {

/// Number of treats placed in each maze.
pub const TREAT_COUNT: usize = 8;

/// The treat inventory placed in each maze, in placement order: positions
/// are seed-driven while the total available score stays the same.
pub open spec fn treat_kinds() -> Seq<TreatKind> {
    seq![
        TreatKind::Cheeseburger,
        TreatKind::Snail,
        TreatKind::Frog,
        TreatKind::Banana,
        TreatKind::Cherries,
        TreatKind::Berries,
        TreatKind::Berries,
        TreatKind::Apple,
    ]
}

fn treat_kind(index: usize) -> (k: TreatKind)
    requires
        index < TREAT_COUNT,
    ensures
        k == treat_kinds()[index as int],
{
    match index {
        0 => TreatKind::Cheeseburger,
        1 => TreatKind::Snail,
        2 => TreatKind::Frog,
        3 => TreatKind::Banana,
        4 => TreatKind::Cherries,
        5 => TreatKind::Berries,
        6 => TreatKind::Berries,
        _ => TreatKind::Apple,
    }
}

/// The section served by the `k`-th destination.
pub open spec fn section_at(k: int) -> Section {
    if k == 0 {
        Section::About
    } else if k == 1 {
        Section::Blog
    } else {
        Section::Projects
    }
}

/// `a` is within one tile of `b` (Chebyshev distance at most one).
pub open spec fn near(a: Position, b: Position) -> bool {
    -1 <= a.x - b.x <= 1 && -1 <= a.y - b.y <= 1
}

/// The differences `is_near` computes fit an `i32` and have an absolute value.
pub open spec fn near_defined(a: Position, b: Position) -> bool {
    &&& i32::MIN < a.x - b.x <= i32::MAX
    &&& (-1 <= a.x - b.x <= 1 ==> i32::MIN < a.y - b.y <= i32::MAX)
}

/// The tile differences between `q` and any tile of a `w` by `h` grid fit
/// an `i32`, so nearness to `q` can be checked for every tile.
pub open spec fn near_checkable(q: Position, w: int, h: int) -> bool {
    q.x >= w - 1 - i32::MAX && q.y >= h - 1 - i32::MAX
}

/// Returns `true` when `a` is within one tile (Chebyshev distance <= 1) of `b`.
fn is_near(a: Position, b: Position) -> (r: bool)
    requires
        near_defined(a, b),
    ensures
        r == near(a, b),
{
    let dx = a.x - b.x;
    if dx < -1 || dx > 1 {
        return false;
    }
    let dy = a.y - b.y;
    -1 <= dy && dy <= 1
}

pub open spec fn near_some(p: Position, ps: Seq<Position>) -> bool {
    exists|k: int| 0 <= k < ps.len() && near(p, #[trigger] ps[k])
}

fn near_any(p: Position, ps: &[Position]) -> (r: bool)
    requires
        forall|k: int| 0 <= k < ps@.len() ==> near_defined(p, #[trigger] ps@[k]),
    ensures
        r == near_some(p, ps@),
{
    let mut k: usize = 0;
    while k < ps.len()
        invariant
            k <= ps@.len(),
            forall|j: int| 0 <= j < ps@.len() ==> near_defined(p, #[trigger] ps@[j]),
            forall|j: int| 0 <= j < k ==> !near(p, #[trigger] ps@[j]),
        decreases ps@.len() - k,
    {
        if is_near(p, ps[k]) {
            return true;
        }
        k = k + 1;
    }
    false
}

/// Some collider entity of the world stands on tile `p`.
pub open spec fn blocked(w: WorldView, p: Position) -> bool {
    exists|i: int| 0 <= i < w.colliders.len() && lookup(w.positions, #[trigger] w.colliders[i].0) == Some(p)
}

/// Returns whether an existing solid object occupies a tile.
pub(crate) fn is_blocked_by_collider(world: &World, position: Position) -> (r: bool)
    requires
        world@.wf(),
    ensures
        r == blocked(world@, position),
{
    let entities = world.entities_with::<Collider>();
    let n = entities.len();
    let mut i: usize = 0;
    while i < n
        invariant
            world@.wf(),
            entities@ == keys(world@.colliders),
            n == entities@.len(),
            i <= n,
            forall|j: int| 0 <= j < i ==> lookup(world@.positions, #[trigger] world@.colliders[j].0) != Some(position),
        decreases n - i,
    {
        let entity = entities[i];
        match world.component::<Position>(entity) {
            Some(occupied) => {
                if *occupied == position {
                    return true;
                }
            },
            None => {},
        }
        i = i + 1;
    }
    false
}

/// Appending an entry for a fresh entity leaves every other lookup alone.
pub proof fn lemma_lookup_push_fresh<T>(s: Seq<(Entity, T)>, e: Entity, v: T, e2: Entity)
    requires
        unique_keys(s),
        crate::world::below_next(s, e.0),
        e2 != e,
    ensures
        lookup(s.push((e, v)), e2) == lookup(s, e2),
{
    let t = s.push((e, v));
    lemma_fresh_upsert(s, e, v);
    if has_key(s, e2) {
        let i = key_index(s, e2);
        assert(s[i].0 == e2);
        lemma_key_index(s, e2, i);
        assert(t[i] == s[i]);
        lemma_key_index(t, e2, i);
    } else if has_key(t, e2) {
        let i = key_index(t, e2);
        assert(t[i].0 == e2);
        if i < s.len() {
            assert(s[i].0 == e2);
        }
    }
}

/// Spawning a treat adds no collider and does not move one.
pub proof fn lemma_blocked_after_treat(w: WorldView, c: Position, kind: TreatKind, p: Position)
    requires
        w.sound(),
        w.next < u32::MAX,
    ensures
        blocked(spawn_one(w, treat_spawn(c, kind)), p) == blocked(w, p),
{
    let w2 = spawn_one(w, treat_spawn(c, kind));
    let e = Entity(w.next);
    assert(w2.colliders == w.colliders);
    assert(w2.positions == w.positions.push((e, c)));
    assert forall|i: int| 0 <= i < w.colliders.len() implies lookup(w2.positions, #[trigger] w.colliders[i].0)
        == lookup(w.positions, w.colliders[i].0) by {
        assert(w.colliders[i].0.0 < w.next);
        lemma_lookup_push_fresh(w.positions, e, c, w.colliders[i].0);
    }
    if blocked(w, p) {
        let i = choose|i: int| 0 <= i < w.colliders.len() && lookup(w.positions, #[trigger] w.colliders[i].0) == Some(p);
        assert(lookup(w2.positions, w2.colliders[i].0) == Some(p));
    }
    if blocked(w2, p) {
        let i = choose|i: int| 0 <= i < w2.colliders.len() && lookup(w2.positions, #[trigger] w2.colliders[i].0) == Some(p);
        assert(lookup(w.positions, w.colliders[i].0) == Some(p));
    }
}

/// Placing treats leaves the blocked tiles as they were.
pub proof fn lemma_blocked_treats(w: WorldView, placed: Seq<Position>, p: Position)
    requires
        w.sound(),
        w.next + placed.len() <= u32::MAX,
        placed.len() <= TREAT_COUNT,
    ensures
        blocked(spawn_all(w, treat_spawns(placed)), p) == blocked(w, p),
    decreases placed.len(),
{
    if placed.len() > 0 {
        let prev = placed.drop_last();
        lemma_blocked_treats(w, prev, p);
        assert(treat_spawns(placed).drop_last() =~= treat_spawns(prev));
        lemma_spawn_all(w, treat_spawns(prev));
        lemma_blocked_after_treat(
            spawn_all(w, treat_spawns(prev)),
            placed.last(),
            treat_kinds()[prev.len() as int],
            p,
        );
    }
}

/// The open-tile scan lists open tiles of the grid.
pub proof fn lemma_open_tiles(tiles: Seq<bool>, w: int, h: int, n: int)
    requires
        crate::grid::grid_shape(tiles, w, h),
        0 <= n <= w * h,
        w <= i32::MAX,
        h <= i32::MAX,
    ensures
        open_tiles(tiles, w, n).len() <= n,
        forall|k: int|
            0 <= k < open_tiles(tiles, w, n).len() ==> {
                let p = #[trigger] open_tiles(tiles, w, n)[k];
                crate::grid::is_open(tiles, w, h, p.x as int, p.y as int)
            },
    decreases n,
{
    if n > 0 {
        lemma_open_tiles(tiles, w, h, n - 1);
        crate::grid::lemma_index_inverse(w, h, n - 1);
        let i = n - 1;
        let prev = open_tiles(tiles, w, n - 1);
        let cur = open_tiles(tiles, w, n);
        assert(i / w * w + i % w == i);
        assert(cell(tiles, w, i % w, i / w) == tiles[i]);
        assert forall|k: int| 0 <= k < cur.len() implies {
            let p = #[trigger] cur[k];
            crate::grid::is_open(tiles, w, h, p.x as int, p.y as int)
        } by {
            if k < prev.len() {
                assert(cur[k] == prev[k]);
            }
        }
    }
}

/// The scan of hostable rooms lists hostable room indices.
pub proof fn lemma_hostable_rooms(rooms: Seq<Room>, n: int)
    requires
        0 <= n <= rooms.len(),
        n <= usize::MAX,
    ensures
        hostable_rooms(rooms, n).len() <= n,
        forall|k: int|
            0 <= k < hostable_rooms(rooms, n).len() ==> (#[trigger] hostable_rooms(rooms, n)[k] as int) < n
                && can_host(rooms[hostable_rooms(rooms, n)[k] as int]),
    decreases n,
{
    if n > 0 {
        lemma_hostable_rooms(rooms, n - 1);
        let prev = hostable_rooms(rooms, n - 1);
        let cur = hostable_rooms(rooms, n);
        assert forall|k: int| 0 <= k < cur.len() implies (#[trigger] cur[k] as int) < n && can_host(
            rooms[cur[k] as int],
        ) by {
            if k < prev.len() {
                assert(cur[k] == prev[k]);
            }
        }
    }
}

/// The camp scan lists the indices below `n` that are not taken, and every
/// such index.
pub proof fn lemma_camp_rooms(taken: Seq<usize>, n: int)
    requires
        0 <= n <= usize::MAX,
    ensures
        camp_rooms(taken, n).len() <= n,
        forall|k: int|
            0 <= k < camp_rooms(taken, n).len() ==> (#[trigger] camp_rooms(taken, n)[k] as int) < n
                && !taken.contains(camp_rooms(taken, n)[k]),
        forall|i: usize| (i as int) < n && !taken.contains(i) ==> #[trigger] camp_rooms(taken, n).contains(i),
    decreases n,
{
    if n > 0 {
        lemma_camp_rooms(taken, n - 1);
        let prev = camp_rooms(taken, n - 1);
        assert forall|i: usize| (i as int) < n && !taken.contains(i) implies #[trigger] camp_rooms(taken, n).contains(
            i,
        ) by {
            if (i as int) < n - 1 {
                assert(prev.contains(i));
                let k = choose|k: int| 0 <= k < prev.len() && prev[k] == i;
                assert(camp_rooms(taken, n)[k] == i);
            } else {
                assert(camp_rooms(taken, n)[prev.len() as int] == i);
            }
        }
    }
}

/// Sequences without repeated entries.
pub open spec fn distinct(s: Seq<usize>) -> bool {
    forall|i: int, j: int| 0 <= i < s.len() && 0 <= j < s.len() && i != j ==> s[i] != s[j]
}

/// Drawing without replacement yields distinct entries of the pool, as many
/// as asked for while the pool lasts.
pub proof fn lemma_pick_run(pool: Seq<usize>, picked: Seq<usize>, count: int, s: RngState, limit: int)
    requires
        distinct(pool + picked),
        forall|i: int| 0 <= i < pool.len() ==> (#[trigger] pool[i] as int) < limit,
        forall|i: int| 0 <= i < picked.len() ==> (#[trigger] picked[i] as int) < limit,
        picked.len() <= count,
        pool.len() <= usize::MAX,
    ensures
        distinct(pick_run(pool, picked, count, s).0),
        forall|i: int|
            0 <= i < pick_run(pool, picked, count, s).0.len() ==> (#[trigger] pick_run(pool, picked, count, s).0[i]
                as int) < limit,
        pick_run(pool, picked, count, s).0.len() == if picked.len() + pool.len() < count {
            (picked.len() + pool.len()) as int
        } else {
            count
        },
    decreases pool.len(),
{
    if picked.len() < count && pool.len() > 0 {
        let (v, s2) = draw_below(s, pool.len() as u32);
        let vi = v as int;
        lemma_truncate_le(pool.len() as usize);
        assert(vi < pool.len());
        let pool2 = pool.remove(vi);
        let picked2 = picked.push(pool[vi]);
        assert forall|i: int, j: int|
            0 <= i < (pool2 + picked2).len() && 0 <= j < (pool2 + picked2).len() && i != j implies (pool2
            + picked2)[i] != (pool2 + picked2)[j] by {
            let a = pool + picked;
            let map = |k: int|
                if k < vi {
                    k
                } else if k < pool.len() - 1 {
                    k + 1
                } else if k < pool.len() - 1 + picked.len() {
                    k + 1
                } else {
                    vi
                };
            assert((pool2 + picked2)[i] == a[map(i)]);
            assert((pool2 + picked2)[j] == a[map(j)]);
        }
        assert forall|i: int| 0 <= i < pool2.len() implies (#[trigger] pool2[i] as int) < limit by {
            if i < vi {
                assert(pool2[i] == pool[i]);
            } else {
                assert(pool2[i] == pool[i + 1]);
            }
        }
        assert forall|i: int| 0 <= i < picked2.len() implies (#[trigger] picked2[i] as int) < limit by {
            if i < picked.len() {
                assert(picked2[i] == picked[i]);
            }
        }
        lemma_pick_run(pool2, picked2, count, s2, limit);
    } else {
        let r = pick_run(pool, picked, count, s).0;
        assert(r == picked);
        assert forall|i: int, j: int| 0 <= i < r.len() && 0 <= j < r.len() && i != j implies r[i] != r[j] by {
            assert((pool + picked)[pool.len() + i] == picked[i]);
            assert((pool + picked)[pool.len() + j] == picked[j]);
        }
    }
}

/// Placed treats keep their distance: none is within one tile of the camp,
/// a destination door or another treat, and none stands on a collider.
pub open spec fn treats_spaced(placed: Seq<Position>, camp: Position, doors: Seq<Position>, w: WorldView) -> bool {
    forall|j: int|
        0 <= j < placed.len() ==> {
            &&& !near(#[trigger] placed[j], camp)
            &&& !near_some(placed[j], doors)
            &&& !blocked(w, placed[j])
            &&& !near_some(placed[j], placed.take(j))
        }
}

pub open spec fn all_open(ps: Seq<Position>, tiles: Seq<bool>, wd: int, ht: int) -> bool {
    forall|j: int| 0 <= j < ps.len() ==> crate::grid::is_open(tiles, wd, ht, (#[trigger] ps[j]).x as int, ps[j].y as int)
}

/// Treat placement puts at most `TREAT_COUNT` treats, all on open tiles
/// drawn from the candidates and spaced apart.
pub proof fn lemma_treat_run(
    st: TreatState,
    camp: Position,
    doors: Seq<Position>,
    w: WorldView,
    tiles: Seq<bool>,
    wd: int,
    ht: int,
)
    requires
        st.placed.len() <= TREAT_COUNT,
        treats_spaced(st.placed, camp, doors, w),
        all_open(st.placed, tiles, wd, ht),
        all_open(st.candidates, tiles, wd, ht),
    ensures
        treat_run(st, camp, doors, w).placed.len() <= TREAT_COUNT,
        treats_spaced(treat_run(st, camp, doors, w).placed, camp, doors, w),
        all_open(treat_run(st, camp, doors, w).placed, tiles, wd, ht),
    decreases st.candidates.len(),
{
    if st.placed.len() < TREAT_COUNT && st.candidates.len() > 0 {
        let (v, s2) = draw_below(st.rng, st.candidates.len() as u32);
        if (v as int) < st.candidates.len() {
            let cand = st.candidates[v as int];
            let rest = st.candidates.update(v as int, st.candidates.last()).drop_last();
            let placed = if rejected(cand, camp, doors, w, st.placed) {
                st.placed
            } else {
                st.placed.push(cand)
            };
            assert forall|j: int| 0 <= j < rest.len() implies crate::grid::is_open(
                tiles,
                wd,
                ht,
                (#[trigger] rest[j]).x as int,
                rest[j].y as int,
            ) by {
                if j == v as int {
                    assert(rest[j] == st.candidates.last());
                } else {
                    assert(rest[j] == st.candidates[j]);
                }
            }
            if !rejected(cand, camp, doors, w, st.placed) {
                assert forall|j: int| 0 <= j < placed.len() implies {
                    &&& !near(#[trigger] placed[j], camp)
                    &&& !near_some(placed[j], doors)
                    &&& !blocked(w, placed[j])
                    &&& !near_some(placed[j], placed.take(j))
                } by {
                    if j < st.placed.len() {
                        assert(placed[j] == st.placed[j]);
                        assert(placed.take(j) =~= st.placed.take(j));
                    } else {
                        assert(placed.take(j) =~= st.placed);
                    }
                }
                assert forall|j: int| 0 <= j < placed.len() implies crate::grid::is_open(
                    tiles,
                    wd,
                    ht,
                    (#[trigger] placed[j]).x as int,
                    placed[j].y as int,
                ) by {
                    if j < st.placed.len() {
                        assert(placed[j] == st.placed[j]);
                    }
                }
            }
            lemma_treat_run(TreatState { candidates: rest, placed, rng: s2 }, camp, doors, w, tiles, wd, ht);
        }
    }
}

/// The rooms plan picks three distinct rooms that can host a destination,
/// with their centers as doors, and a camp in a different room.
pub proof fn lemma_plan_rooms(rooms: Seq<Room>, s: RngState)
    requires
        rooms.len() <= usize::MAX,
        hostable_rooms(rooms, rooms.len() as int).len() >= 3,
        rooms.len() > 3,
    ensures
        ({
            let p = plan_rooms(rooms, s).0;
            &&& p.destination_rooms.len() == 3
            &&& p.doors.len() == 3
            &&& forall|k: int|
                0 <= k < 3 ==> (#[trigger] p.destination_rooms[k] as int) < rooms.len() && can_host(
                    rooms[p.destination_rooms[k] as int],
                ) && p.doors[k] == room_center(rooms[p.destination_rooms[k] as int])
            &&& forall|j: int, k: int|
                0 <= j < 3 && 0 <= k < 3 && j != k ==> p.destination_rooms[j] != p.destination_rooms[k]
            &&& (p.camp_room as int) < rooms.len()
            &&& !p.destination_rooms.contains(p.camp_room)
            &&& p.camp == room_center(rooms[p.camp_room as int])
        }),
{
    let n = rooms.len() as int;
    let candidates = hostable_rooms(rooms, n);
    lemma_hostable_rooms(rooms, n);
    assert(distinct(index_range(candidates.len() as int) + Seq::<usize>::empty())) by {
        assert(index_range(candidates.len() as int) + Seq::<usize>::empty() =~= index_range(candidates.len() as int));
    }
    lemma_pick_run(index_range(candidates.len() as int), Seq::empty(), 3, s, candidates.len() as int);
    let (picked, s1) = pick_run(index_range(candidates.len() as int), Seq::empty(), 3, s);
    let dest = Seq::new(picked.len(), |k: int| candidates[picked[k] as int]);
    assert forall|j: int, k: int| 0 <= j < 3 && 0 <= k < 3 && j != k implies dest[j] != dest[k] by {
        assert(picked[j] != picked[k]);
        assert(candidates[picked[j] as int] == dest[j]);
        assert(candidates[picked[k] as int] == dest[k]);
        // Hostable indices are strictly increasing, hence distinct.
        lemma_hostable_increasing(rooms, n);
    }
    assert forall|k: int| 0 <= k < 3 implies (#[trigger] dest[k] as int) < n && can_host(rooms[dest[k] as int]) by {
        assert(dest[k] == candidates[picked[k] as int]);
    }
    lemma_camp_rooms(dest, n);
    lemma_free_index(dest);
    let free = choose|f: usize| f < 4 && !dest.contains(f);
    let camp_candidates = camp_rooms(dest, n);
    assert(camp_candidates.contains(free));
    let (ci, s2) = draw_below(s1, camp_candidates.len() as u32);
    lemma_truncate_le(camp_candidates.len() as usize);
    assert((ci as int) < camp_candidates.len());
    assert((camp_candidates[ci as int] as int) < n);
}

/// The scan of hostable rooms lists indices in increasing order.
pub proof fn lemma_hostable_increasing(rooms: Seq<Room>, n: int)
    requires
        0 <= n <= rooms.len(),
        n <= usize::MAX,
    ensures
        forall|i: int, j: int|
            0 <= i < j < hostable_rooms(rooms, n).len() ==> hostable_rooms(rooms, n)[i] < hostable_rooms(
                rooms,
                n,
            )[j],
    decreases n,
{
    if n > 0 {
        lemma_hostable_increasing(rooms, n - 1);
        lemma_hostable_rooms(rooms, n - 1);
        let prev = hostable_rooms(rooms, n - 1);
        let cur = hostable_rooms(rooms, n);
        assert forall|i: int, j: int| 0 <= i < j < cur.len() implies cur[i] < cur[j] by {
            if j < prev.len() {
                assert(cur[i] == prev[i] && cur[j] == prev[j]);
            } else {
                assert(cur[i] == prev[i]);
                assert((prev[i] as int) < n - 1);
            }
        }
    }
}

/// The treat inventory is worth 750 points.
pub proof fn lemma_treat_inventory_value()
    ensures
        treat_kinds().len() == TREAT_COUNT,
        crate::components::treat_value(treat_kinds()[0]) + crate::components::treat_value(treat_kinds()[1])
            + crate::components::treat_value(treat_kinds()[2]) + crate::components::treat_value(treat_kinds()[3])
            + crate::components::treat_value(treat_kinds()[4]) + crate::components::treat_value(treat_kinds()[5])
            + crate::components::treat_value(treat_kinds()[6]) + crate::components::treat_value(treat_kinds()[7])
            == 750,
{
}

/// The indices `0..n` in order.
pub open spec fn index_range(n: int) -> Seq<usize> {
    Seq::new(n as nat, |i: int| i as usize)
}

/// Drawing without replacement: repeatedly draw an index into the pool and
/// move that entry to the picked list, until `count` are picked or the pool
/// is empty.
pub open spec fn pick_run(pool: Seq<usize>, picked: Seq<usize>, count: int, s: RngState) -> (Seq<usize>, RngState)
    decreases pool.len(),
{
    if picked.len() < count && pool.len() > 0 {
        let (v, s2) = draw_below(s, pool.len() as u32);
        if (v as int) < pool.len() {
            pick_run(pool.remove(v as int), picked.push(pool[v as int]), count, s2)
        } else {
            (picked, s)
        }
    } else {
        (picked, s)
    }
}

/// Pick `count` distinct indices in `[0, limit)` without replacement.
fn pick_distinct(rng: &mut Rng, limit: usize, count: usize) -> (r: Vec<usize>)
    ensures
        (r@, final(rng)@) == pick_run(index_range(limit as int), Seq::empty(), count as int, old(rng)@),
{
    let mut pool: Vec<usize> = Vec::new();
    let mut i: usize = 0;
    while i < limit
        invariant
            i <= limit,
            pool@ == index_range(i as int),
        decreases limit - i,
    {
        pool.push(i);
        assert(pool@ =~= index_range(i + 1));
        i = i + 1;
    }
    let mut picked: Vec<usize> = Vec::new();
    let ghost target = pick_run(index_range(limit as int), Seq::empty(), count as int, rng@);
    while picked.len() < count && !pool.is_empty()
        invariant
            pool@.len() <= limit,
            pick_run(pool@, picked@, count as int, rng@) == target,
        decreases pool@.len(),
    {
        let idx = rng.below(pool.len() as u32) as usize;
        proof {
            lemma_truncate_le(pool.len());
        }
        let picked_index = pool.remove(idx);
        picked.push(picked_index);
    }
    picked
}

/// Indices of the rooms among the first `n` that can host a destination.
pub open spec fn hostable_rooms(rooms: Seq<Room>, n: int) -> Seq<usize>
    decreases n,
{
    if n <= 0 {
        Seq::empty()
    } else if can_host(rooms[n - 1]) {
        hostable_rooms(rooms, n - 1).push((n - 1) as usize)
    } else {
        hostable_rooms(rooms, n - 1)
    }
}

/// Indices among the first `n` that are not destination rooms.
pub open spec fn camp_rooms(taken: Seq<usize>, n: int) -> Seq<usize>
    decreases n,
{
    if n <= 0 {
        Seq::empty()
    } else if taken.contains((n - 1) as usize) {
        camp_rooms(taken, n - 1)
    } else {
        camp_rooms(taken, n - 1).push((n - 1) as usize)
    }
}

/// Open tiles among the first `n` in row-major order.
pub open spec fn open_tiles(tiles: Seq<bool>, w: int, n: int) -> Seq<Position>
    decreases n,
{
    if n <= 0 {
        Seq::empty()
    } else if tiles[n - 1] {
        open_tiles(tiles, w, n - 1)
    } else {
        open_tiles(tiles, w, n - 1).push(Position { x: ((n - 1) % w) as i32, y: ((n - 1) / w) as i32 })
    }
}

/// Wall tiles among the first `n` in row-major order.
pub open spec fn wall_tiles(tiles: Seq<bool>, w: int, n: int) -> Seq<Position>
    decreases n,
{
    if n <= 0 {
        Seq::empty()
    } else if tiles[n - 1] {
        wall_tiles(tiles, w, n - 1).push(Position { x: ((n - 1) % w) as i32, y: ((n - 1) / w) as i32 })
    } else {
        wall_tiles(tiles, w, n - 1)
    }
}

pub open spec fn collider_spawn(p: Position) -> Spawn {
    Spawn { position: Some(p), collider: true, ..no_components() }
}

pub open spec fn camp_spawn(p: Position) -> Spawn {
    Spawn { position: Some(p), kind: Some(ObjectKind::Camp), sprite: Some(Sprite(SpriteId::Camp)), ..no_components() }
}

pub open spec fn door_spawn(p: Position, section: Section) -> Spawn {
    Spawn {
        position: Some(p),
        kind: Some(ObjectKind::Destination { section }),
        sprite: Some(Sprite(SpriteId::Destination)),
        ..no_components()
    }
}

pub open spec fn treat_spawn(p: Position, kind: TreatKind) -> Spawn {
    Spawn {
        position: Some(p),
        kind: Some(ObjectKind::Treat),
        treat: Some(Treat { kind }),
        collected: Some(Collected(false)),
        sprite: Some(Sprite(SpriteId::Treat)),
        ..no_components()
    }
}

pub open spec fn collider_spawns(ps: Seq<Position>) -> Seq<Spawn> {
    Seq::new(ps.len(), |i: int| collider_spawn(ps[i]))
}

/// The solid tiles of a destination building whose door is `door`: the row
/// above the door and the tiles beside it. The door itself stays open.
pub open spec fn footprint(door: Position) -> Seq<Position> {
    seq![
        Position { x: (door.x - 1) as i32, y: (door.y - 1) as i32 },
        Position { x: door.x, y: (door.y - 1) as i32 },
        Position { x: (door.x + 1) as i32, y: (door.y - 1) as i32 },
        Position { x: (door.x - 1) as i32, y: door.y },
        Position { x: (door.x + 1) as i32, y: door.y },
    ]
}

/// A building's five solid tiles surround its door and never cover it.
pub proof fn lemma_footprint_spares_door(door: Position)
    requires
        footprint_fits(door),
    ensures
        footprint(door).len() == 5,
        !footprint(door).contains(door),
        forall|k: int| 0 <= k < 5 ==> near(#[trigger] footprint(door)[k], door),
{
    let f = footprint(door);
    assert forall|k: int| 0 <= k < 5 implies f[k] != door && near(#[trigger] f[k], door) by {
        assert(k == 0 || k == 1 || k == 2 || k == 3 || k == 4);
    }
}

/// The arithmetic of a building's footprint fits an `i32`.
pub open spec fn footprint_fits(door: Position) -> bool {
    i32::MIN < door.x < i32::MAX && i32::MIN < door.y
}

/// Destination entities with their buildings, for the first `n` doors.
pub open spec fn destination_spawns(doors: Seq<Position>, n: int) -> Seq<Spawn>
    decreases n,
{
    if n <= 0 {
        Seq::empty()
    } else {
        destination_spawns(doors, n - 1).push(door_spawn(doors[n - 1], section_at(n - 1))) + collider_spawns(
            footprint(doors[n - 1]),
        )
    }
}

pub open spec fn treat_spawns(placed: Seq<Position>) -> Seq<Spawn> {
    Seq::new(placed.len(), |j: int| treat_spawn(placed[j], treat_kinds()[j]))
}

/// State of the treat-placement loop.
pub struct TreatState {
    pub candidates: Seq<Position>,
    pub placed: Seq<Position>,
    pub rng: RngState,
}

/// A candidate tile is rejected when it is within one tile of the camp, a
/// destination or an earlier treat, or when a collider stands on it.
pub open spec fn rejected(p: Position, camp: Position, doors: Seq<Position>, w: WorldView, placed: Seq<Position>) -> bool {
    near(p, camp) || near_some(p, doors) || blocked(w, p) || near_some(p, placed)
}

/// Draw candidate tiles without replacement until all treats are placed or
/// the candidates run out.
pub open spec fn treat_run(st: TreatState, camp: Position, doors: Seq<Position>, w: WorldView) -> TreatState
    decreases st.candidates.len(),
{
    if st.placed.len() < TREAT_COUNT && st.candidates.len() > 0 {
        let (v, s2) = draw_below(st.rng, st.candidates.len() as u32);
        if (v as int) < st.candidates.len() {
            let cand = st.candidates[v as int];
            let rest = st.candidates.update(v as int, st.candidates.last()).drop_last();
            let placed = if rejected(cand, camp, doors, w, st.placed) {
                st.placed
            } else {
                st.placed.push(cand)
            };
            treat_run(TreatState { candidates: rest, placed, rng: s2 }, camp, doors, w)
        } else {
            st
        }
    } else {
        st
    }
}

/// The arithmetic populating does on each room stays within `i32`: its
/// center, the building around a door at its center, and nearness checks
/// between its center and every tile of the grid.
pub open spec fn rooms_fit(maze: &Maze) -> bool {
    forall|i: int|
        0 <= i < maze.rooms@.len() ==> {
            let r = #[trigger] maze.rooms@[i];
            &&& center_fits(r)
            &&& footprint_fits(room_center(r))
            &&& near_checkable(room_center(r), maze.width as int, maze.height as int)
        }
}

/// Every room of the maze lies on the grid with at least one tile.
pub open spec fn rooms_on_grid(maze: &Maze) -> bool {
    forall|i: int|
        0 <= i < maze.rooms@.len() ==> {
            let r = #[trigger] maze.rooms@[i];
            0 <= r.left && 0 <= r.top && 1 <= r.width && 1 <= r.height && r.left + r.width <= maze.width
                && r.top + r.height <= maze.height
        }
}

/// The camp, destination doors and treat tiles chosen for a maze, with the
/// generator state after the choices.
pub struct Plan {
    pub destination_rooms: Seq<usize>,
    pub camp_room: usize,
    pub camp: Position,
    pub doors: Seq<Position>,
}

/// Choose three distinct destination rooms among those that can host one,
/// then a camp room among the rest.
pub open spec fn plan_rooms(rooms: Seq<Room>, s: RngState) -> (Plan, RngState) {
    let candidates = hostable_rooms(rooms, rooms.len() as int);
    let (picked, s1) = pick_run(index_range(candidates.len() as int), Seq::empty(), 3, s);
    let dest = Seq::new(picked.len(), |k: int| candidates[picked[k] as int]);
    let camp_candidates = camp_rooms(dest, rooms.len() as int);
    let (ci, s2) = draw_below(s1, camp_candidates.len() as u32);
    let camp_room = camp_candidates[ci as int];
    (
        Plan {
            destination_rooms: dest,
            camp_room,
            camp: room_center(rooms[camp_room as int]),
            doors: Seq::new(dest.len(), |k: int| room_center(rooms[dest[k] as int])),
        },
        s2,
    )
}

/// The world after the camp and the destinations are placed.
pub open spec fn landmarks(w: WorldView, p: Plan) -> WorldView {
    spawn_all(w, seq![camp_spawn(p.camp)] + destination_spawns(p.doors, 3))
}

/// The world and generator state after populating a maze.
pub open spec fn populate_spec(layout: Layout, width: int, height: int, w: WorldView, s: RngState) -> (
    WorldView,
    RngState,
) {
    let (p, s1) = plan_rooms(layout.rooms, s);
    let w1 = landmarks(w, p);
    let st = treat_run(
        TreatState {
            candidates: open_tiles(layout.tiles, width, width * height),
            placed: Seq::empty(),
            rng: s1,
        },
        p.camp,
        p.doors,
        w1,
    );
    (spawn_all(w1, treat_spawns(st.placed)), st.rng)
}

impl Maze {
    fn place_collider(&self, world: &mut World, position: Position)
        requires
            old(world)@.sound(),
            old(world)@.next < u32::MAX,
        ensures
            final(world)@ == spawn_one(old(world)@, collider_spawn(position)),
            final(world)@.sound(),
    {
        let ghost w0 = world@;
        proof {
            lemma_spawn_one(w0, collider_spawn(position));
        }
        let entity = world.spawn();
        proof {
            lemma_fresh_upsert(w0.positions, entity, position);
            lemma_fresh_upsert(w0.colliders, entity, Collider);
        }
        world.insert(entity, position);
        world.insert(entity, Collider);
        assert(world@ =~= spawn_one(w0, collider_spawn(position)));
    }

    /// Marks a destination building as impassable while leaving its door
    /// open: the row above the door and the tiles on either side of it.
    fn place_destination_building_collision(&self, world: &mut World, door: Position)
        requires
            old(world)@.sound(),
            old(world)@.next + 5 <= u32::MAX,
            footprint_fits(door),
        ensures
            final(world)@ == spawn_all(old(world)@, collider_spawns(footprint(door))),
            final(world)@.sound(),
    {
        let ghost w0 = world@;
        let ghost fp = footprint(door);
        let mut x = door.x - 1;
        loop
            invariant_except_break
                world@ == spawn_all(w0, collider_spawns(fp.take(x - (door.x - 1)))),
                world@.next == w0.next + (x - (door.x - 1)),
            invariant
                door.x - 1 <= x <= door.x + 1,
                footprint_fits(door),
                world@.sound(),
                w0.next + 5 <= u32::MAX,
                fp == footprint(door),
            ensures
                world@ == spawn_all(w0, collider_spawns(fp.take(3))),
                world@.sound(),
                world@.next == w0.next + 3,
            decreases door.x + 1 - x,
        {
            let ghost k = x - (door.x - 1);
            let ghost before = world@;
            self.place_collider(world, Position { x, y: door.y - 1 });
            proof {
                assert(fp[k] == Position { x, y: (door.y - 1) as i32 });
                assert(collider_spawns(fp.take(k + 1)) =~= collider_spawns(fp.take(k)).push(collider_spawn(fp[k])));
                lemma_spawn_all_push(w0, collider_spawns(fp.take(k)), collider_spawn(fp[k]));
            }
            if x == door.x + 1 {
                break;
            }
            x = x + 1;
        }
        self.place_collider(world, Position { x: door.x - 1, y: door.y });
        proof {
            assert(collider_spawns(fp.take(4)) =~= collider_spawns(fp.take(3)).push(collider_spawn(fp[3])));
            lemma_spawn_all_push(w0, collider_spawns(fp.take(3)), collider_spawn(fp[3]));
        }
        self.place_collider(world, Position { x: door.x + 1, y: door.y });
        proof {
            assert(collider_spawns(fp.take(5)) =~= collider_spawns(fp.take(4)).push(collider_spawn(fp[4])));
            lemma_spawn_all_push(w0, collider_spawns(fp.take(4)), collider_spawn(fp[4]));
            assert(fp.take(5) =~= fp);
        }
    }

    /// Spawn a collider for every solid tile, in row-major order.
    pub fn spawn_walls(&self, world: &mut World)
        requires
            self.wf(),
            old(world)@.sound(),
            old(world)@.next + self.width * self.height <= u32::MAX,
        ensures
            final(world)@ == spawn_all(
                old(world)@,
                collider_spawns(wall_tiles(self.tiles@, self.width as int, self.width * self.height)),
            ),
            final(world)@.sound(),
    {
        let ghost w0 = world@;
        let ghost wd = self.width as int;
        let ghost ht = self.height as int;
        let mut y: i32 = 0;
        while y < self.height
            invariant
                self.wf(),
                wd == self.width,
                ht == self.height,
                0 <= y <= ht,
                world@ == spawn_all(w0, collider_spawns(wall_tiles(self.tiles@, wd, y * wd))),
                world@.sound(),
                world@.next == w0.next + wall_tiles(self.tiles@, wd, y * wd).len(),
                wall_tiles(self.tiles@, wd, y * wd).len() <= y * wd,
                w0.next + wd * ht <= u32::MAX,
            decreases ht - y,
        {
            let mut x: i32 = 0;
            while x < self.width
                invariant
                    self.wf(),
                    wd == self.width,
                    ht == self.height,
                    0 <= y < ht,
                    0 <= x <= wd,
                    world@ == spawn_all(w0, collider_spawns(wall_tiles(self.tiles@, wd, y * wd + x))),
                    world@.sound(),
                    world@.next == w0.next + wall_tiles(self.tiles@, wd, y * wd + x).len(),
                    wall_tiles(self.tiles@, wd, y * wd + x).len() <= y * wd + x,
                    w0.next + wd * ht <= u32::MAX,
                decreases wd - x,
            {
                let ghost k = y * wd + x;
                proof {
                    lemma_index(wd, ht, x as int, y as int);
                    assert(y * wd + x + 1 <= wd * ht) by (nonlinear_arith)
                        requires
                            0 <= y < ht,
                            0 <= x < wd,
                    ;
                }
                if self.is_wall(x, y) {
                    let ghost before = world@;
                    proof {
                        assert(cell(self.tiles@, wd, x as int, y as int));
                        assert(wall_tiles(self.tiles@, wd, k + 1) == wall_tiles(self.tiles@, wd, k).push(
                            Position { x, y },
                        ));
                        assert(collider_spawns(wall_tiles(self.tiles@, wd, k + 1)) =~= collider_spawns(
                            wall_tiles(self.tiles@, wd, k),
                        ).push(collider_spawn(Position { x, y })));
                        lemma_spawn_all_push(
                            w0,
                            collider_spawns(wall_tiles(self.tiles@, wd, k)),
                            collider_spawn(Position { x, y }),
                        );
                    }
                    let entity = world.spawn();
                    proof {
                        lemma_spawn_one(before, collider_spawn(Position { x, y }));
                        lemma_fresh_upsert(before.positions, entity, Position { x, y });
                        lemma_fresh_upsert(before.colliders, entity, Collider);
                    }
                    world.insert(entity, Position { x, y });
                    world.insert(entity, Collider);
                    assert(world@ =~= spawn_one(before, collider_spawn(Position { x, y })));
                } else {
                    proof {
                        assert(!cell(self.tiles@, wd, x as int, y as int));
                        assert(wall_tiles(self.tiles@, wd, k + 1) == wall_tiles(self.tiles@, wd, k));
                    }
                }
                x = x + 1;
            }
            proof {
                assert(y * wd + wd == (y + 1) * wd) by (nonlinear_arith);
            }
            y = y + 1;
        }
        proof {
            assert(y * wd == wd * ht) by (nonlinear_arith)
                requires
                    y == ht,
            ;
        }
    }
}

impl Maze {
    /// The open tiles of the maze in row-major order.
    fn open_tile_list(&self) -> (r: Vec<Position>)
        requires
            self.wf(),
        ensures
            r@ == open_tiles(self.tiles@, self.width as int, self.width * self.height),
    {
        let ghost wd = self.width as int;
        let ghost ht = self.height as int;
        let mut candidates: Vec<Position> = Vec::new();
        let mut y: i32 = 0;
        while y < self.height
            invariant
                self.wf(),
                wd == self.width,
                ht == self.height,
                0 <= y <= ht,
                candidates@ == open_tiles(self.tiles@, wd, y * wd),
            decreases ht - y,
        {
            let mut x: i32 = 0;
            while x < self.width
                invariant
                    self.wf(),
                    wd == self.width,
                    ht == self.height,
                    0 <= y < ht,
                    0 <= x <= wd,
                    candidates@ == open_tiles(self.tiles@, wd, y * wd + x),
                decreases wd - x,
            {
                let ghost k = y * wd + x;
                proof {
                    lemma_index(wd, ht, x as int, y as int);
                }
                if !self.is_wall(x, y) {
                    proof {
                        assert(!cell(self.tiles@, wd, x as int, y as int));
                    }
                    candidates.push(Position { x, y });
                } else {
                    proof {
                        assert(cell(self.tiles@, wd, x as int, y as int));
                    }
                }
                x = x + 1;
            }
            proof {
                assert(y * wd + wd == (y + 1) * wd) by (nonlinear_arith);
            }
            y = y + 1;
        }
        proof {
            assert(y * wd == wd * ht) by (nonlinear_arith)
                requires
                    y == ht,
            ;
        }
        candidates
    }

    /// Scatter up to `TREAT_COUNT` treats across open floor tiles, rejecting
    /// any tile within one tile of the camp, a destination or an earlier
    /// treat, and any tile a collider occupies.
    fn place_treats(&self, world: &mut World, rng: &mut Rng, camp: Position, destinations: &[Position])
        requires
            self.wf(),
            old(world)@.sound(),
            old(world)@.next + TREAT_COUNT <= u32::MAX,
            near_checkable(camp, self.width as int, self.height as int),
            forall|k: int|
                0 <= k < destinations@.len() ==> near_checkable(
                    #[trigger] destinations@[k],
                    self.width as int,
                    self.height as int,
                ),
        ensures
            ({
                let st = treat_run(
                    TreatState {
                        candidates: open_tiles(self.tiles@, self.width as int, self.width * self.height),
                        placed: Seq::empty(),
                        rng: old(rng)@,
                    },
                    camp,
                    destinations@,
                    old(world)@,
                );
                &&& final(world)@ == spawn_all(old(world)@, treat_spawns(st.placed))
                &&& final(rng)@ == st.rng
            }),
            final(world)@.sound(),
            // Fewer than all treats are placed only when every open tile is a
            // treat already or is turned down.
            ({
                let st = treat_run(
                    TreatState {
                        candidates: open_tiles(self.tiles@, self.width as int, self.width * self.height),
                        placed: Seq::empty(),
                        rng: old(rng)@,
                    },
                    camp,
                    destinations@,
                    old(world)@,
                );
                st.placed.len() < TREAT_COUNT ==> forall|x: int, y: int|
                    #[trigger] crate::grid::is_open(self.tiles@, self.width as int, self.height as int, x, y) ==> {
                        let t = Position { x: x as i32, y: y as i32 };
                        st.placed.contains(t) || rejected(t, camp, destinations@, old(world)@, st.placed)
                    }
            }),
    {
        proof {
            let wd = self.width as int;
            let ht = self.height as int;
            let init = TreatState { candidates: open_tiles(self.tiles@, wd, wd * ht), placed: Seq::empty(), rng: rng@ };
            lemma_open_tiles(self.tiles@, wd, ht, wd * ht);
            lemma_treat_run_exhausts(init, camp, destinations@, world@);
            let st = treat_run(init, camp, destinations@, world@);
            assert forall|x: int, y: int| #[trigger] crate::grid::is_open(self.tiles@, wd, ht, x, y) implies
                init.candidates.contains(Position { x: x as i32, y: y as i32 }) by {
                lemma_index(wd, ht, x, y);
                lemma_open_tiles_complete(self.tiles@, wd, ht, wd * ht, y * wd + x);
            }
        }
        let ghost wd = self.width as int;
        let ghost ht = self.height as int;
        let mut candidates = self.open_tile_list();
        proof {
            lemma_open_tiles(self.tiles@, wd, ht, wd * ht);
        }
        let mut placed: Vec<Position> = Vec::new();
        let ghost w1 = world@;
        let ghost target = treat_run(
            TreatState { candidates: candidates@, placed: Seq::empty(), rng: rng@ },
            camp,
            destinations@,
            w1,
        );
        proof {
            assert(treat_spawns(placed@) =~= Seq::<Spawn>::empty());
        }
        while placed.len() < TREAT_COUNT && !candidates.is_empty()
            invariant
                self.wf(),
                wd == self.width,
                ht == self.height,
                w1.sound(),
                w1.next + TREAT_COUNT <= u32::MAX,
                treat_run(TreatState { candidates: candidates@, placed: placed@, rng: rng@ }, camp, destinations@, w1)
                    == target,
                world@ == spawn_all(w1, treat_spawns(placed@)),
                world@.sound(),
                world@.next == w1.next + placed@.len(),
                placed@.len() <= TREAT_COUNT,
                candidates@.len() <= wd * ht,
                wd * ht <= i32::MAX,
                near_checkable(camp, wd, ht),
                forall|k: int| 0 <= k < destinations@.len() ==> near_checkable(#[trigger] destinations@[k], wd, ht),
                forall|k: int|
                    0 <= k < candidates@.len() ==> in_grid(
                        wd,
                        ht,
                        (#[trigger] candidates@[k]).x as int,
                        candidates@[k].y as int,
                    ),
                forall|k: int|
                    0 <= k < placed@.len() ==> in_grid(wd, ht, (#[trigger] placed@[k]).x as int, placed@[k].y as int),
            decreases candidates@.len(),
        {
            let idx = rng.below(candidates.len() as u32) as usize;
            let ghost before = candidates@;
            let candidate = candidates.swap_remove(idx);
            proof {
                assert forall|k: int| 0 <= k < candidates@.len() implies in_grid(
                    wd,
                    ht,
                    (#[trigger] candidates@[k]).x as int,
                    candidates@[k].y as int,
                ) by {
                    if k == idx {
                        assert(candidates@[k] == before.last());
                    } else {
                        assert(candidates@[k] == before[k]);
                    }
                }
                lemma_blocked_treats(w1, placed@, candidate);
            }

            if is_near(candidate, camp) {
                continue;
            }
            if near_any(candidate, destinations) {
                continue;
            }
            if is_blocked_by_collider(world, candidate) {
                continue;
            }
            if near_any(candidate, placed.as_slice()) {
                continue;
            }

            let kind = treat_kind(placed.len());
            let ghost w2 = world@;
            proof {
                lemma_spawn_one(w2, treat_spawn(candidate, kind));
                assert(treat_spawns(placed@.push(candidate)) =~= treat_spawns(placed@).push(
                    treat_spawn(candidate, kind),
                ));
                lemma_spawn_all_push(w1, treat_spawns(placed@), treat_spawn(candidate, kind));
            }
            let entity = world.spawn();
            proof {
                lemma_fresh_upsert(w2.positions, entity, candidate);
                lemma_fresh_upsert(w2.kinds, entity, ObjectKind::Treat);
                lemma_fresh_upsert(w2.treats, entity, Treat { kind });
                lemma_fresh_upsert(w2.collected, entity, Collected(false));
                lemma_fresh_upsert(w2.sprites, entity, Sprite(SpriteId::Treat));
            }
            world.insert(entity, candidate);
            world.insert(entity, ObjectKind::Treat);
            world.insert(entity, Treat { kind });
            world.insert(entity, Collected(false));
            world.insert(entity, Sprite(SpriteId::Treat));
            assert(world@ =~= spawn_one(w2, treat_spawn(candidate, kind)));
            placed.push(candidate);
        }
    }
}

fn contains_index(v: &Vec<usize>, i: usize) -> (r: bool)
    ensures
        r == v@.contains(i),
{
    let mut k: usize = 0;
    while k < v.len()
        invariant
            k <= v@.len(),
            forall|j: int| 0 <= j < k ==> v@[j] != i,
        decreases v@.len() - k,
    {
        if v[k] == i {
            return true;
        }
        k = k + 1;
    }
    false
}

/// Some index below four is missing from a list of three.
pub proof fn lemma_free_index(taken: Seq<usize>)
    requires
        taken.len() == 3,
    ensures
        exists|i: usize| i < 4 && !taken.contains(i),
{
    let a = taken[0];
    let b = taken[1];
    let c = taken[2];
    assert(taken.contains(0usize) ==> (a == 0 || b == 0 || c == 0));
    assert(taken.contains(1usize) ==> (a == 1 || b == 1 || c == 1));
    assert(taken.contains(2usize) ==> (a == 2 || b == 2 || c == 2));
    assert(taken.contains(3usize) ==> (a == 3 || b == 3 || c == 3));
    if !taken.contains(0usize) {
        assert(0usize < 4 && !taken.contains(0usize));
    } else if !taken.contains(1usize) {
        assert(1usize < 4 && !taken.contains(1usize));
    } else if !taken.contains(2usize) {
        assert(2usize < 4 && !taken.contains(2usize));
    } else {
        assert(3usize < 4 && !taken.contains(3usize));
    }
}

impl Maze {
    /// Place the camp, the three destinations with their buildings, and the
    /// treats in the generated rooms.
    pub fn populate(&self, world: &mut World, rng: &mut Rng)
        requires
            self.wf(),
            rooms_fit(self),
            hostable_rooms(self.rooms@, self.rooms@.len() as int).len() >= 3,
            self.rooms@.len() > 3,
            old(world)@.sound(),
            old(world)@.next + 27 <= u32::MAX,
        ensures
            (final(world)@, final(rng)@) == populate_spec(
                self.layout(),
                self.width as int,
                self.height as int,
                old(world)@,
                old(rng)@,
            ),
            final(world)@.sound(),
    {
        let ghost rooms = self.rooms@;
        let ghost n = rooms.len() as int;
        let ghost s0 = rng@;
        let ghost w0 = world@;
        let sections = [Section::About, Section::Blog, Section::Projects];
        let mut destination_room_candidates: Vec<usize> = Vec::new();
        let mut i: usize = 0;
        while i < self.rooms.len()
            invariant
                rooms == self.rooms@,
                i <= rooms.len(),
                destination_room_candidates@ == hostable_rooms(rooms, i as int),
            decreases rooms.len() - i,
        {
            if self.rooms[i].can_host_destination() {
                destination_room_candidates.push(i);
            }
            i = i + 1;
        }
        proof {
            lemma_hostable_rooms(rooms, n);
        }
        let ghost cands = destination_room_candidates@;
        let picked = pick_distinct(rng, destination_room_candidates.len(), 3);
        proof {
            assert(distinct(index_range(cands.len() as int) + Seq::<usize>::empty())) by {
                assert(index_range(cands.len() as int) + Seq::<usize>::empty() =~= index_range(cands.len() as int));
            }
            lemma_pick_run(index_range(cands.len() as int), Seq::empty(), 3, s0, cands.len() as int);
        }
        let ghost s1 = rng@;
        let mut destination_room_indices: Vec<usize> = Vec::new();
        let mut k: usize = 0;
        while k < picked.len()
            invariant
                picked@.len() == 3,
                k <= 3,
                forall|j: int| 0 <= j < 3 ==> (#[trigger] picked@[j] as int) < cands.len(),
                cands == destination_room_candidates@,
                destination_room_indices@ == Seq::new(k as nat, |j: int| cands[picked@[j] as int]),
            decreases 3 - k,
        {
            destination_room_indices.push(destination_room_candidates[picked[k]]);
            assert(destination_room_indices@ =~= Seq::new((k + 1) as nat, |j: int| cands[picked@[j] as int]));
            k = k + 1;
        }
        let ghost dest = destination_room_indices@;
        let mut camp_room_candidates: Vec<usize> = Vec::new();
        let mut i: usize = 0;
        while i < self.rooms.len()
            invariant
                rooms == self.rooms@,
                i <= rooms.len(),
                dest == destination_room_indices@,
                camp_room_candidates@ == camp_rooms(dest, i as int),
            decreases rooms.len() - i,
        {
            if !contains_index(&destination_room_indices, i) {
                camp_room_candidates.push(i);
            }
            i = i + 1;
        }
        proof {
            lemma_camp_rooms(dest, n);
            lemma_free_index(dest);
            let free = choose|f: usize| f < 4 && !dest.contains(f);
            assert(camp_room_candidates@.contains(free));
        }
        let ci = rng.below(camp_room_candidates.len() as u32) as usize;
        proof {
            lemma_truncate_le(camp_room_candidates.len());
        }
        let camp_room_index = camp_room_candidates[ci];
        proof {
            assert((camp_room_candidates@[ci as int] as int) < n);
            let r = self.rooms@[camp_room_index as int];
            assert(center_fits(r) && near_checkable(room_center(r), self.width as int, self.height as int));
        }
        let camp_pos = self.rooms[camp_room_index].center();
        let ghost s2 = rng@;
        let ghost plan = plan_rooms(rooms, s0).0;
        proof {
            assert(plan_rooms(rooms, s0).1 == s2);
            assert(plan.destination_rooms == dest);
            assert(plan.camp == camp_pos);
        }

        proof {
            lemma_spawn_one(w0, camp_spawn(camp_pos));
        }
        let camp = world.spawn();
        proof {
            lemma_fresh_upsert(w0.positions, camp, camp_pos);
            lemma_fresh_upsert(w0.kinds, camp, ObjectKind::Camp);
            lemma_fresh_upsert(w0.sprites, camp, Sprite(SpriteId::Camp));
        }
        world.insert(camp, camp_pos);
        world.insert(camp, ObjectKind::Camp);
        world.insert(camp, Sprite(SpriteId::Camp));
        proof {
            assert(world@ =~= spawn_one(w0, camp_spawn(camp_pos)));
            lemma_spawn_all_push(w0, Seq::empty(), camp_spawn(camp_pos));
            assert(Seq::<Spawn>::empty().push(camp_spawn(camp_pos)) =~= seq![camp_spawn(camp_pos)]);
            assert(spawn_all(w0, Seq::empty()) == w0);
            assert(seq![camp_spawn(camp_pos)] + destination_spawns(plan.doors, 0) =~= seq![camp_spawn(camp_pos)]);
        }

        let mut destination_positions: Vec<Position> = Vec::new();
        let mut k: usize = 0;
        while k < 3
            invariant
                k <= 3,
                rooms == self.rooms@,
                n == rooms.len(),
                self.wf(),
                rooms_fit(self),
                dest == destination_room_indices@,
                dest.len() == 3,
                plan == plan_rooms(rooms, s0).0,
                plan.destination_rooms == dest,
                plan.camp == camp_pos,
                forall|j: int| 0 <= j < 3 ==> (#[trigger] dest[j] as int) < n && can_host(rooms[dest[j] as int]),
                sections@ == seq![Section::About, Section::Blog, Section::Projects],
                destination_positions@ == plan.doors.take(k as int),
                world@ == spawn_all(w0, seq![camp_spawn(camp_pos)] + destination_spawns(plan.doors, k as int)),
                world@.sound(),
                world@.next == w0.next + 1 + 6 * k,
                w0.next + 27 <= u32::MAX,
            decreases 3 - k,
        {
            let room_index = destination_room_indices[k];
            proof {
                assert((dest[k as int] as int) < n && can_host(rooms[dest[k as int] as int]));
                let r = self.rooms@[room_index as int];
                assert(center_fits(r) && footprint_fits(room_center(r)));
            }
            let section = sections[k];
            let door = self.rooms[room_index].destination_door();
            proof {
                assert(door == plan.doors[k as int]);
                assert(section == section_at(k as int));
                assert(self.rooms@[room_index as int] == rooms[room_index as int]);
            }
            destination_positions.push(door);
            let ghost wk = world@;
            let ghost prefix = seq![camp_spawn(camp_pos)] + destination_spawns(plan.doors, k as int);
            proof {
                lemma_spawn_one(wk, door_spawn(door, section));
            }
            let entity = world.spawn();
            proof {
                lemma_fresh_upsert(wk.positions, entity, door);
                lemma_fresh_upsert(wk.kinds, entity, ObjectKind::Destination { section });
                lemma_fresh_upsert(wk.sprites, entity, Sprite(SpriteId::Destination));
            }
            world.insert(entity, door);
            world.insert(entity, ObjectKind::Destination { section });
            world.insert(entity, Sprite(SpriteId::Destination));
            proof {
                assert(world@ =~= spawn_one(wk, door_spawn(door, section)));
                lemma_spawn_all_push(w0, prefix, door_spawn(door, section));
            }
            let ghost wd = world@;
            self.place_destination_building_collision(world, door);
            proof {
                lemma_spawn_all(wd, collider_spawns(footprint(door)));
                lemma_spawn_all_concat(w0, prefix.push(door_spawn(door, section)), collider_spawns(footprint(door)));
                assert(prefix.push(door_spawn(door, section)) + collider_spawns(footprint(door)) =~= seq![
                    camp_spawn(camp_pos),
                ] + destination_spawns(plan.doors, k + 1));
                assert(destination_positions@ =~= plan.doors.take(k + 1));
            }
            k = k + 1;
        }
        proof {
            assert(destination_positions@ =~= plan.doors);
            assert(world@ == landmarks(w0, plan));
        }

        self.place_treats(world, rng, camp_pos, destination_positions.as_slice());
    }
}


/// The rooms that hold the destination doors of a plan, in door order.
pub open spec fn door_rooms(rooms: Seq<Room>, p: Plan) -> Seq<Room> {
    Seq::new(p.destination_rooms.len(), |k: int| rooms[p.destination_rooms[k] as int])
}

/// The treat tiles placed for a plan.
pub open spec fn placed_treats(layout: Layout, width: int, height: int, w: WorldView, s: RngState) -> Seq<Position> {
    let (p, s1) = plan_rooms(layout.rooms, s);
    treat_run(
        TreatState { candidates: open_tiles(layout.tiles, width, width * height), placed: Seq::empty(), rng: s1 },
        p.camp,
        p.doors,
        landmarks(w, p),
    ).placed
}

/// In a connected maze whose rooms are carved and pairwise apart, the
/// buildings placed by the plan leave the maze connected, and the camp,
/// every destination door and every treat stay open and can be reached from
/// the camp, walking around the buildings.
pub proof fn lemma_plan_reachable(layout: Layout, width: int, height: int, w: WorldView, s: RngState)
    requires
        0 < width <= 1_000_000,
        0 < height <= 1_000_000,
        width * height <= i32::MAX,
        grid_shape(layout.tiles, width, height),
        connected(layout.tiles, width, height),
        rooms_apart(layout.rooms, 0),
        forall|i: int|
            0 <= i < layout.rooms.len() ==> {
                let r = #[trigger] layout.rooms[i];
                &&& room_carved(layout.tiles, width, height, r)
                &&& 0 <= r.left && 0 <= r.top && 1 <= r.width && 1 <= r.height
                &&& r.left + r.width <= width && r.top + r.height <= height
            },
        layout.rooms.len() <= usize::MAX,
        layout.rooms.len() > 3,
        hostable_rooms(layout.rooms, layout.rooms.len() as int).len() >= 3,
    ensures
        ({
            let p = plan_rooms(layout.rooms, s).0;
            let placed = placed_treats(layout, width, height, w, s);
            let t = with_buildings(layout.tiles, width, p.doors);
            let camp = (p.camp.x as int, p.camp.y as int);
            &&& connected(t, width, height)
            &&& is_open(t, width, height, camp.0, camp.1)
            &&& forall|k: int|
                0 <= k < p.doors.len() ==> reachable(
                    t,
                    width,
                    height,
                    camp,
                    (#[trigger] p.doors[k].x as int, p.doors[k].y as int),
                )
            &&& forall|j: int|
                0 <= j < placed.len() ==> reachable(
                    t,
                    width,
                    height,
                    camp,
                    (#[trigger] placed[j].x as int, placed[j].y as int),
                )
        }),
{
    let rooms = layout.rooms;
    let tiles = layout.tiles;
    let (p, s1) = plan_rooms(rooms, s);
    lemma_plan_rooms(rooms, s);
    let dr = door_rooms(rooms, p);
    let t = with_buildings(tiles, width, p.doors);
    assert forall|k: int| 0 <= k < p.doors.len() implies hosts(#[trigger] dr[k], p.doors[k]) by {
        let r = rooms[p.destination_rooms[k] as int];
        assert(dr[k] == r);
        assert(can_host(r));
    }
    assert forall|k: int| 0 <= k < p.doors.len() implies room_carved(tiles, width, height, #[trigger] dr[k]) by {
        let r = rooms[p.destination_rooms[k] as int];
        assert(dr[k] == r);
    }
    assert forall|j: int, k: int| 0 <= j < dr.len() && 0 <= k < dr.len() && j != k implies separated(
        #[trigger] dr[j],
        #[trigger] dr[k],
    ) by {
        assert(p.destination_rooms[j] != p.destination_rooms[k]);
        let rj = p.destination_rooms[j] as int;
        let rk = p.destination_rooms[k] as int;
        assert(separated(rooms[rj], rooms[rk]));
    }
    assert(sited(tiles, width, height, p.doors, dr));
    lemma_connected_around_buildings(tiles, width, height, p.doors, dr);
    lemma_with_buildings(tiles, width, height, p.doors);
    // Buildings stand in their own rooms, apart from the camp's room.
    let cr = p.camp_room as int;
    let camp_room = rooms[cr];
    lemma_center_inside(camp_room);
    assert(is_open(tiles, width, height, p.camp.x as int, p.camp.y as int));
    assert(!in_some_footprint(p.doors, p.camp.x as int, p.camp.y as int)) by {
        if in_some_footprint(p.doors, p.camp.x as int, p.camp.y as int) {
            let k = choose|k: int| 0 <= k < p.doors.len() && #[trigger] in_footprint(
                p.doors[k],
                p.camp.x as int,
                p.camp.y as int,
            );
            lemma_footprint_inside(dr[k], p.doors[k], p.camp.x as int, p.camp.y as int, 0, 0);
            assert(p.destination_rooms[k] != p.camp_room);
            assert(separated(rooms[p.destination_rooms[k] as int], rooms[cr]));
        }
    }
    let camp = (p.camp.x as int, p.camp.y as int);
    assert forall|k: int| 0 <= k < p.doors.len() implies reachable(
        t,
        width,
        height,
        camp,
        (#[trigger] p.doors[k].x as int, p.doors[k].y as int),
    ) by {
        let d = p.doors[k];
        lemma_center_inside(dr[k]);
        assert(is_open(tiles, width, height, d.x as int, d.y as int));
        if in_some_footprint(p.doors, d.x as int, d.y as int) {
            let j = choose|j: int| 0 <= j < p.doors.len() && #[trigger] in_footprint(
                p.doors[j],
                d.x as int,
                d.y as int,
            );
            lemma_footprint_inside(dr[j], p.doors[j], d.x as int, d.y as int, 0, 0);
            assert(j != k);
            assert(separated(dr[j], dr[k]));
        }
        assert(is_open(t, width, height, d.x as int, d.y as int));
    }
    // Treats keep clear of the doors, so of the buildings.
    crate::placement::lemma_open_tiles(tiles, width, height, width * height);
    let init = TreatState { candidates: open_tiles(tiles, width, width * height), placed: Seq::empty(), rng: s1 };
    lemma_treat_run(init, p.camp, p.doors, landmarks(w, p), tiles, width, height);
    let placed = placed_treats(layout, width, height, w, s);
    assert forall|j: int| 0 <= j < placed.len() implies reachable(
        t,
        width,
        height,
        camp,
        (#[trigger] placed[j].x as int, placed[j].y as int),
    ) by {
        let q = placed[j];
        assert(crate::grid::is_open(tiles, width, height, q.x as int, q.y as int));
        assert(!near_some(q, p.doors));
        if in_some_footprint(p.doors, q.x as int, q.y as int) {
            let k = choose|k: int| 0 <= k < p.doors.len() && #[trigger] in_footprint(
                p.doors[k],
                q.x as int,
                q.y as int,
            );
            assert(near(q, p.doors[k]));
        }
        assert(is_open(t, width, height, q.x as int, q.y as int));
    }
}


/// Attaching an optional component to an entity a table has never seen.
pub proof fn lemma_lookup_push_opt<T>(s: Seq<(Entity, T)>, e_new: Entity, c: Option<T>, e: Entity)
    requires
        unique_keys(s),
        crate::world::below_next(s, e_new.0),
    ensures
        lookup(push_opt(s, e_new, c), e) == if e == e_new {
            c
        } else {
            lookup(s, e)
        },
{
    if has_key(s, e_new) {
        let i = key_index(s, e_new);
        assert(s[i].0 == e_new);
    }
    match c {
        Some(v) => {
            if e == e_new {
                let t = s.push((e_new, v));
                lemma_fresh_upsert(s, e_new, v);
                assert(t[s.len() as int].0 == e_new);
                lemma_key_index(t, e_new, s.len() as int);
            } else {
                lemma_lookup_push_fresh(s, e_new, v, e);
            }
        },
        None => {},
    }
}

/// What a world built from nothing by spawning records holds: entity `i`
/// carries exactly the components of record `i`.
pub proof fn lemma_spawned_from_empty(rs: Seq<Spawn>)
    requires
        rs.len() <= u32::MAX,
    ensures
        spawn_all(WorldView::empty(), rs).sound(),
        spawn_all(WorldView::empty(), rs).next == rs.len(),
        forall|e: Entity|
            #[trigger] lookup(spawn_all(WorldView::empty(), rs).positions, e) == if (e.0 as int) < rs.len() {
                rs[e.0 as int].position
            } else {
                None
            },
        forall|e: Entity|
            #[trigger] lookup(spawn_all(WorldView::empty(), rs).kinds, e) == if (e.0 as int) < rs.len() {
                rs[e.0 as int].kind
            } else {
                None
            },
        forall|e: Entity|
            #[trigger] lookup(spawn_all(WorldView::empty(), rs).collected, e) == if (e.0 as int) < rs.len() {
                rs[e.0 as int].collected
            } else {
                None
            },
        forall|e: Entity|
            #[trigger] lookup(spawn_all(WorldView::empty(), rs).treats, e) == if (e.0 as int) < rs.len() {
                rs[e.0 as int].treat
            } else {
                None
            },
        forall|e: Entity|
            #[trigger] has_key(spawn_all(WorldView::empty(), rs).colliders, e) == ((e.0 as int) < rs.len()
                && rs[e.0 as int].collider),
    decreases rs.len(),
{
    let w = spawn_all(WorldView::empty(), rs);
    if rs.len() == 0 {
        assert(WorldView::empty().sound());
    } else {
        let prev = rs.drop_last();
        lemma_spawned_from_empty(prev);
        let w0 = spawn_all(WorldView::empty(), prev);
        let r = rs.last();
        let en = Entity(w0.next);
        lemma_spawn_one(w0, r);
        assert(w == spawn_one(w0, r));
        assert forall|e: Entity| #[trigger] lookup(w.positions, e) == if (e.0 as int) < rs.len() {
            rs[e.0 as int].position
        } else {
            None
        } by {
            lemma_lookup_push_opt(w0.positions, en, r.position, e);
            if (e.0 as int) < prev.len() {
                assert(rs[e.0 as int] == prev[e.0 as int]);
            }
        }
        assert forall|e: Entity| #[trigger] lookup(w.kinds, e) == if (e.0 as int) < rs.len() {
            rs[e.0 as int].kind
        } else {
            None
        } by {
            lemma_lookup_push_opt(w0.kinds, en, r.kind, e);
            if (e.0 as int) < prev.len() {
                assert(rs[e.0 as int] == prev[e.0 as int]);
            }
        }
        assert forall|e: Entity| #[trigger] lookup(w.collected, e) == if (e.0 as int) < rs.len() {
            rs[e.0 as int].collected
        } else {
            None
        } by {
            lemma_lookup_push_opt(w0.collected, en, r.collected, e);
            if (e.0 as int) < prev.len() {
                assert(rs[e.0 as int] == prev[e.0 as int]);
            }
        }
        assert forall|e: Entity| #[trigger] lookup(w.treats, e) == if (e.0 as int) < rs.len() {
            rs[e.0 as int].treat
        } else {
            None
        } by {
            lemma_lookup_push_opt(w0.treats, en, r.treat, e);
            if (e.0 as int) < prev.len() {
                assert(rs[e.0 as int] == prev[e.0 as int]);
            }
        }
        assert forall|e: Entity| #[trigger] has_key(w.colliders, e) == ((e.0 as int) < rs.len()
            && rs[e.0 as int].collider) by {
            if (e.0 as int) < prev.len() {
                assert(rs[e.0 as int] == prev[e.0 as int]);
            }
            if has_key(w0.colliders, e) {
                let i = key_index(w0.colliders, e);
                assert(w0.colliders[i].0 == e);
                assert(w.colliders[i] == w0.colliders[i]);
            }
            if r.collider {
                assert(w.colliders[w0.colliders.len() as int].0 == en);
            }
            if has_key(w.colliders, e) {
                let i = key_index(w.colliders, e);
                assert(w.colliders[i].0 == e);
                if i < w0.colliders.len() {
                    assert(w0.colliders[i].0 == e);
                }
            }
        }
    }
}

/// A tile is blocked in a world built from nothing exactly when some record
/// with a collider stands on it.
pub proof fn lemma_blocked_from_empty(rs: Seq<Spawn>, q: Position)
    requires
        rs.len() <= u32::MAX,
    ensures
        blocked(spawn_all(WorldView::empty(), rs), q) == exists|j: int|
            0 <= j < rs.len() && (#[trigger] rs[j]).collider && rs[j].position == Some(q),
{
    let w = spawn_all(WorldView::empty(), rs);
    lemma_spawned_from_empty(rs);
    if blocked(w, q) {
        let i = choose|i: int| 0 <= i < w.colliders.len() && lookup(w.positions, #[trigger] w.colliders[i].0) == Some(q);
        let e = w.colliders[i].0;
        assert(has_key(w.colliders, e));
        assert(lookup(w.positions, e) == Some(q));
        let j = e.0 as int;
        assert(rs[j].collider && rs[j].position == Some(q));
    }
    if exists|j: int| 0 <= j < rs.len() && (#[trigger] rs[j]).collider && rs[j].position == Some(q) {
        let j = choose|j: int| 0 <= j < rs.len() && (#[trigger] rs[j]).collider && rs[j].position == Some(q);
        let e = Entity(j as u32);
        assert(has_key(w.colliders, e));
        let i = key_index(w.colliders, e);
        assert(w.colliders[i].0 == e);
        assert(lookup(w.positions, e) == Some(q));
    }
}


/// The records for the first `n` doors: the door of building `k` at index
/// `6 * k`, then the five solid tiles of its building.
pub proof fn lemma_destination_records(doors: Seq<Position>, n: int)
    requires
        0 <= n <= doors.len(),
    ensures
        destination_spawns(doors, n).len() == 6 * n,
        forall|i: int|
            0 <= i < 6 * n ==> #[trigger] destination_spawns(doors, n)[i] == if i % 6 == 0 {
                door_spawn(doors[i / 6], section_at(i / 6))
            } else {
                collider_spawn(footprint(doors[i / 6])[i % 6 - 1])
            },
    decreases n,
{
    if n > 0 {
        lemma_destination_records(doors, n - 1);
        let prev = destination_spawns(doors, n - 1);
        let cur = destination_spawns(doors, n);
        let door_rec = door_spawn(doors[n - 1], section_at(n - 1));
        let fp = collider_spawns(footprint(doors[n - 1]));
        assert(cur == prev.push(door_rec) + fp);
        assert forall|i: int| 0 <= i < 6 * n implies #[trigger] cur[i] == if i % 6 == 0 {
            door_spawn(doors[i / 6], section_at(i / 6))
        } else {
            collider_spawn(footprint(doors[i / 6])[i % 6 - 1])
        } by {
            if i < 6 * (n - 1) {
                assert(cur[i] == prev[i]);
            } else {
                vstd::arithmetic::div_mod::lemma_fundamental_div_mod_converse(i, 6, n - 1, i - 6 * (n - 1));
                if i > 6 * (n - 1) {
                    assert(cur[i] == fp[i - 6 * (n - 1) - 1]);
                }
            }
        }
    }
}


/// Records without a kind leave the kind table of a world built from
/// nothing empty.
pub proof fn lemma_no_kinds(rs: Seq<Spawn>)
    requires
        forall|j: int| 0 <= j < rs.len() ==> (#[trigger] rs[j]).kind is None,
    ensures
        spawn_all(WorldView::empty(), rs).kinds.len() == 0,
    decreases rs.len(),
{
    if rs.len() > 0 {
        let prev = rs.drop_last();
        assert forall|j: int| 0 <= j < prev.len() implies (#[trigger] prev[j]).kind is None by {
            assert(prev[j] == rs[j]);
        }
        lemma_no_kinds(prev);
        assert(rs.last() == rs[rs.len() - 1]);
    }
}

/// In a world built from nothing, the first entry of the kind table belongs
/// to the first record that carries a kind.
pub proof fn lemma_first_kind(rs: Seq<Spawn>, m: int)
    requires
        rs.len() <= u32::MAX,
        0 <= m < rs.len(),
        forall|j: int| 0 <= j < m ==> (#[trigger] rs[j]).kind is None,
        rs[m].kind is Some,
    ensures
        spawn_all(WorldView::empty(), rs).kinds.len() >= 1,
        spawn_all(WorldView::empty(), rs).kinds[0] == (Entity(m as u32), rs[m].kind->0),
    decreases rs.len(),
{
    let prev = rs.drop_last();
    if rs.len() == m + 1 {
        assert forall|j: int| 0 <= j < prev.len() implies (#[trigger] prev[j]).kind is None by {
            assert(prev[j] == rs[j]);
        }
        lemma_no_kinds(prev);
        lemma_spawned_from_empty(prev);
        assert(rs.last() == rs[m]);
    } else {
        assert forall|j: int| 0 <= j < m implies (#[trigger] prev[j]).kind is None by {
            assert(prev[j] == rs[j]);
        }
        assert(prev[m] == rs[m]);
        lemma_first_kind(prev, m);
    }
}


/// The kind table of a world built from nothing after the first `m`
/// records: one entry per record that carries a kind, in record order.
pub open spec fn kind_entries(rs: Seq<Spawn>, m: int) -> Seq<(Entity, ObjectKind)>
    decreases m,
{
    if m <= 0 {
        Seq::empty()
    } else {
        push_opt(kind_entries(rs, m - 1), Entity((m - 1) as u32), rs[m - 1].kind)
    }
}

/// The kind entries of a prefix only read the prefix.
pub proof fn lemma_kind_entries_prefix(rs: Seq<Spawn>, qs: Seq<Spawn>, m: int)
    requires
        0 <= m <= rs.len(),
        m <= qs.len(),
        forall|j: int| 0 <= j < m ==> rs[j] == qs[j],
    ensures
        kind_entries(rs, m) == kind_entries(qs, m),
    decreases m,
{
    if m > 0 {
        lemma_kind_entries_prefix(rs, qs, m - 1);
    }
}

/// A world built from nothing holds the kind entries of its records.
pub proof fn lemma_kinds_from_empty(rs: Seq<Spawn>)
    requires
        rs.len() <= u32::MAX,
    ensures
        spawn_all(WorldView::empty(), rs).kinds == kind_entries(rs, rs.len() as int),
    decreases rs.len(),
{
    if rs.len() > 0 {
        let prev = rs.drop_last();
        lemma_kinds_from_empty(prev);
        lemma_spawned_from_empty(prev);
        lemma_kind_entries_prefix(prev, rs, prev.len() as int);
        assert(rs.last() == rs[rs.len() - 1]);
    }
}


/// Treats run out only when the candidate tiles do: the placed treats only
/// grow, and when fewer than all treats are placed every candidate was placed
/// or is turned down by the treats finally placed.
pub proof fn lemma_treat_run_exhausts(st: TreatState, camp: Position, doors: Seq<Position>, w: WorldView)
    requires
        st.candidates.len() <= u32::MAX,
    ensures
        treat_run(st, camp, doors, w).placed.len() >= st.placed.len(),
        forall|i: int| 0 <= i < st.placed.len() ==> #[trigger] treat_run(st, camp, doors, w).placed[i] == st.placed[i],
        treat_run(st, camp, doors, w).placed.len() < TREAT_COUNT ==> forall|t: Position|
            #[trigger] st.candidates.contains(t) ==> treat_run(st, camp, doors, w).placed.contains(t) || rejected(
                t,
                camp,
                doors,
                w,
                treat_run(st, camp, doors, w).placed,
            ),
    decreases st.candidates.len(),
{
    let f = treat_run(st, camp, doors, w);
    if st.placed.len() < TREAT_COUNT && st.candidates.len() > 0 {
        let (v, s2) = draw_below(st.rng, st.candidates.len() as u32);
        lemma_truncate_le(st.candidates.len() as usize);
        assert((v as int) < st.candidates.len());
        let cand = st.candidates[v as int];
        let rest = st.candidates.update(v as int, st.candidates.last()).drop_last();
        let placed = if rejected(cand, camp, doors, w, st.placed) {
            st.placed
        } else {
            st.placed.push(cand)
        };
        let next = TreatState { candidates: rest, placed, rng: s2 };
        lemma_treat_run_exhausts(next, camp, doors, w);
        assert(f == treat_run(next, camp, doors, w));
        assert forall|i: int| 0 <= i < st.placed.len() implies #[trigger] f.placed[i] == st.placed[i] by {
            assert(placed[i] == st.placed[i]);
            assert(f.placed[i] == placed[i]);
        }
        if f.placed.len() < TREAT_COUNT {
            assert forall|t: Position| #[trigger] st.candidates.contains(t) implies f.placed.contains(t) || rejected(
                t,
                camp,
                doors,
                w,
                f.placed,
            ) by {
                if t == cand {
                    if rejected(cand, camp, doors, w, st.placed) {
                        if near_some(t, st.placed) {
                            let k = choose|k: int| 0 <= k < st.placed.len() && near(t, #[trigger] st.placed[k]);
                            assert(f.placed[k] == st.placed[k]);
                        }
                    } else {
                        let k = st.placed.len() as int;
                        assert(placed[k] == cand);
                        assert(f.placed[k] == placed[k]);
                    }
                } else {
                    let i = choose|i: int| 0 <= i < st.candidates.len() && st.candidates[i] == t;
                    if i == st.candidates.len() - 1 {
                        assert(rest[v as int] == t);
                    } else {
                        assert(rest[i] == t);
                    }
                    assert(rest.contains(t));
                }
            }
        }
    }
}

/// Every open tile of the grid is a candidate of the open-tile scan.
pub proof fn lemma_open_tiles_complete(tiles: Seq<bool>, w: int, h: int, n: int, i: int)
    requires
        crate::grid::grid_shape(tiles, w, h),
        0 <= i < n <= w * h,
        !tiles[i],
    ensures
        open_tiles(tiles, w, n).contains(Position { x: (i % w) as i32, y: (i / w) as i32 }),
    decreases n,
{
    let q = Position { x: (i % w) as i32, y: (i / w) as i32 };
    if i < n - 1 {
        lemma_open_tiles_complete(tiles, w, h, n - 1, i);
        let prev = open_tiles(tiles, w, n - 1);
        let k = choose|k: int| 0 <= k < prev.len() && prev[k] == q;
        if !tiles[n - 1] {
            assert(open_tiles(tiles, w, n)[k] == prev[k]);
        }
    } else {
        assert(open_tiles(tiles, w, n).last() == q);
    }
}

/// `p` moved by `(dx, dy)`.
pub open spec fn offset(p: Position, dx: int, dy: int) -> Position {
    Position { x: (p.x + dx) as i32, y: (p.y + dy) as i32 }
}

/// The tiles within one tile of `p`.
pub open spec fn window(p: Position) -> Set<Position> {
    Set::new(|t: Position| near(t, p))
}

/// The tiles within one tile of some position of `ps`.
pub open spec fn windows(ps: Seq<Position>) -> Set<Position>
    decreases ps.len(),
{
    if ps.len() == 0 {
        Set::empty()
    } else {
        windows(ps.drop_last()).union(window(ps.last()))
    }
}

/// The sixteen tiles at Chebyshev distance exactly two from `c`.
pub open spec fn ring(c: Position) -> Set<Position> {
    set![
        offset(c, -2, -2),
        offset(c, -1, -2),
        offset(c, 0, -2),
        offset(c, 1, -2),
        offset(c, 2, -2),
        offset(c, -2, 2),
        offset(c, -1, 2),
        offset(c, 0, 2),
        offset(c, 1, 2),
        offset(c, 2, 2),
        offset(c, -2, -1),
        offset(c, -2, 0),
        offset(c, -2, 1),
        offset(c, 2, -1),
        offset(c, 2, 0),
        offset(c, 2, 1)
    ]
}

/// A window holds at most nine tiles.
pub proof fn lemma_window_size(p: Position)
    ensures
        window(p).finite(),
        window(p).len() <= 9,
{
    let n = set![
        offset(p, -1, -1),
        offset(p, -1, 0),
        offset(p, -1, 1),
        offset(p, 0, -1),
        offset(p, 0, 0),
        offset(p, 0, 1),
        offset(p, 1, -1),
        offset(p, 1, 0),
        offset(p, 1, 1)
    ];
    assert forall|t: Position| window(p).contains(t) implies n.contains(t) by {
        assert(t == offset(p, t.x - p.x, t.y - p.y));
    }
    assert(n.finite() && n.len() <= 9);
    vstd::set_lib::lemma_len_subset(window(p), n);
}

/// The windows of `ps` hold at most nine tiles per position.
pub proof fn lemma_windows_size(ps: Seq<Position>)
    ensures
        windows(ps).finite(),
        windows(ps).len() <= 9 * ps.len(),
    decreases ps.len(),
{
    if ps.len() > 0 {
        lemma_windows_size(ps.drop_last());
        lemma_window_size(ps.last());
        vstd::set_lib::lemma_len_union(windows(ps.drop_last()), window(ps.last()));
    }
}

/// A tile near one of the positions lies in their windows.
pub proof fn lemma_windows_cover(ps: Seq<Position>, t: Position, k: int)
    requires
        0 <= k < ps.len(),
        near(t, ps[k]),
    ensures
        windows(ps).contains(t),
    decreases ps.len(),
{
    if k < ps.len() - 1 {
        lemma_windows_cover(ps.drop_last(), t, k);
    }
}

/// A ring holds sixteen tiles, each two tiles away from its center.
pub proof fn lemma_ring(c: Position)
    requires
        i32::MIN + 2 <= c.x <= i32::MAX - 2,
        i32::MIN + 2 <= c.y <= i32::MAX - 2,
    ensures
        ring(c).finite(),
        ring(c).len() == 16,
        forall|t: Position|
            #[trigger] ring(c).contains(t) ==> -2 <= t.x - c.x <= 2 && -2 <= t.y - c.y <= 2 && !near(t, c),
{
}

} // verus!
