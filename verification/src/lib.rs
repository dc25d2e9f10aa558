//! Game simulation engine for Wanderings and Misadventures.
//!
//! The engine owns world state, simulation logic and procedural generation.
//! Rendering and input handling live outside and consume the snapshots
//! produced here.

pub mod components;
pub mod grid;
pub mod maze;
pub mod placement;
pub mod rng;
pub mod routes;
pub mod state;
pub mod systems;
pub mod world;

use vstd::prelude::*;
use crate::components::ObjectKind;
use crate::components::Position;
use crate::components::Section;
use crate::components::Treat;
use crate::components::TreatKind;
use crate::components::Collected;
use crate::components::Collider;
use crate::components::section_href;
use crate::components::section_label;
use crate::components::treat_name;
use crate::components::treat_value;
use crate::components::GridMotion;
use crate::components::Player;
use crate::components::Sprite;
use crate::components::SpriteId;
use crate::maze::Maze;
use crate::maze::MazeConfig;
use crate::maze::Layout;
use crate::maze::generate;
use crate::placement::collider_spawns;
use crate::placement::near;
use crate::placement::near_defined;
use crate::placement::populate_spec;
use crate::placement::wall_tiles;
use crate::placement::open_tiles;
use crate::placement::plan_rooms;
use crate::placement::landmarks;
use crate::placement::treat_run;
use crate::placement::TreatState;
use crate::placement::treat_spawns;
use crate::placement::destination_spawns;
use crate::placement::camp_spawn;
use crate::placement::footprint;
use crate::placement::rooms_on_grid;
use crate::placement::hostable_rooms;
use crate::placement::placed_treats;
use crate::routes::with_buildings;
use crate::routes::in_some_footprint;
use crate::routes::in_footprint;
use crate::placement::blocked;
use crate::grid::connected;
use crate::grid::reachable;
use crate::maze::Room;
use crate::maze::can_host;
use crate::maze::room_center;
use crate::rng::Rng;
use crate::rng::seed_state;
use crate::state::DestinationInfo;
use crate::state::FrameUpdate;
use crate::state::InitState;
use crate::state::Input;
use crate::systems::CollectState;
use crate::systems::TREAT_MESSAGE_FRAMES;
use crate::systems::advance_motion;
use crate::systems::camp_near;
use crate::systems::collect_pass;
use crate::systems::destination_at;
use crate::systems::motion_ok;
use crate::systems::preferred;
use crate::systems::remaining_upto;
use crate::systems::collect_step;
use crate::systems::collect_upto;
use crate::systems::motion_defined;
use crate::systems::start_step;
use crate::systems::step_allowed;
use crate::systems::lemma_motion_step;
use crate::world::has_key;
use crate::world::key_index;
use crate::world::lemma_key_index;
use crate::world::lemma_unique_preserved;
use crate::world::unique_keys;
use crate::world::below_next;
use crate::world::lemma_below_next_upsert;
use crate::systems::tile_of;
use crate::systems::walkable;
use crate::world::Spawn;
use crate::world::no_components;
use crate::world::spawn_all;
use crate::world::spawn_one;
use crate::world::upsert;
use crate::state::TilePos;
use crate::state::TreatInfo;
use crate::world::Entity;
use crate::world::World;
use crate::world::WorldView;
use crate::world::keys;
use crate::world::lookup;
use crate::world::lemma_lookup_upsert;

verus! {

/// Bumped whenever the engine's public contract changes.
pub const PROTOCOL_VERSION: u32 = 5;

/// Tile size in pixels, matching the renderer's.
pub const TILE_PIXELS: i32 = 32;

/// The first camp position among the first `n` entities of `es`.
pub open spec fn camp_upto(w: WorldView, es: Seq<Entity>, n: int) -> Option<Position>
    decreases n,
{
    if n <= 0 {
        None
    } else {
        match camp_upto(w, es, n - 1) {
            Some(p) => Some(p),
            None => if lookup(w.kinds, es[n - 1]) == Some(ObjectKind::Camp) {
                lookup(w.positions, es[n - 1])
            } else {
                None
            },
        }
    }
}

/// The position of the first camp entity with a position, in table order.
pub open spec fn camp_of(w: WorldView) -> Option<Position> {
    camp_upto(w, keys(w.kinds), w.kinds.len() as int)
}

pub proof fn lemma_camp_found(w: WorldView, es: Seq<Entity>, i: int, n: int)
    requires
        0 <= i <= n,
    ensures
        camp_upto(w, es, i) is Some ==> camp_upto(w, es, n) == camp_upto(w, es, i),
    decreases n - i,
{
    if i < n {
        lemma_camp_found(w, es, i + 1, n);
    }
}

fn find_camp(world: &World) -> (r: Option<Position>)
    requires
        world@.wf(),
    ensures
        r == camp_of(world@),
{
    let entities = world.entities_with::<ObjectKind>();
    let n = entities.len();
    let mut i: usize = 0;
    while i < n
        invariant
            world@.wf(),
            entities@ == keys(world@.kinds),
            n == entities@.len(),
            i <= n,
            camp_upto(world@, entities@, i as int) is None,
        decreases n - i,
    {
        let entity = entities[i];
        match world.component::<ObjectKind>(entity) {
            Some(ObjectKind::Camp) => match world.component::<Position>(entity) {
                Some(position) => {
                    proof {
                        lemma_camp_found(world@, entities@, i + 1, n as int);
                        assert(keys(world@.kinds).len() == world@.kinds.len());
                    }
                    return Some(*position);
                },
                None => {},
            },
            _ => {},
        }
        i = i + 1;
    }
    None
}

/// Tile positions of the first `n` collider entities that have a position.
pub open spec fn wall_infos(w: WorldView, es: Seq<Entity>, n: int) -> Seq<TilePos>
    decreases n,
{
    if n <= 0 {
        Seq::empty()
    } else {
        match lookup(w.positions, es[n - 1]) {
            Some(p) => wall_infos(w, es, n - 1).push(TilePos { x: p.x, y: p.y }),
            None => wall_infos(w, es, n - 1),
        }
    }
}

fn collect_walls(world: &World) -> (r: Vec<TilePos>)
    requires
        world@.wf(),
    ensures
        r@ == wall_infos(world@, keys(world@.colliders), world@.colliders.len() as int),
{
    let entities = world.entities_with::<Collider>();
    let n = entities.len();
    let mut walls: Vec<TilePos> = Vec::new();
    let mut i: usize = 0;
    while i < n
        invariant
            world@.wf(),
            entities@ == keys(world@.colliders),
            n == entities@.len(),
            i <= n,
            walls@ == wall_infos(world@, entities@, i as int),
        decreases n - i,
    {
        let entity = entities[i];
        match world.component::<Position>(entity) {
            Some(position) => {
                walls.push(TilePos::new(position.x, position.y));
            },
            None => {},
        }
        i = i + 1;
    }
    walls
}

/// `(x, y, section)` of the first `n` destination entities with a position.
pub open spec fn destination_infos(w: WorldView, es: Seq<Entity>, n: int) -> Seq<(i32, i32, Section)>
    decreases n,
{
    if n <= 0 {
        Seq::empty()
    } else {
        match (lookup(w.kinds, es[n - 1]), lookup(w.positions, es[n - 1])) {
            (Some(ObjectKind::Destination { section }), Some(p)) => destination_infos(w, es, n - 1).push(
                (p.x, p.y, section),
            ),
            _ => destination_infos(w, es, n - 1),
        }
    }
}

/// The renderer's view of a destination list.
pub open spec fn destination_view(ds: Seq<DestinationInfo>) -> Seq<(i32, i32, Seq<char>, Seq<char>)> {
    Seq::new(ds.len(), |k: int| (ds[k].x, ds[k].y, ds[k].href@, ds[k].label@))
}

pub open spec fn destination_text(ds: Seq<(i32, i32, Section)>) -> Seq<(i32, i32, Seq<char>, Seq<char>)> {
    Seq::new(ds.len(), |k: int| (ds[k].0, ds[k].1, section_href(ds[k].2), section_label(ds[k].2)))
}

fn collect_destinations(world: &World) -> (r: Vec<DestinationInfo>)
    requires
        world@.wf(),
    ensures
        destination_view(r@) == destination_text(
            destination_infos(world@, keys(world@.kinds), world@.kinds.len() as int),
        ),
{
    let entities = world.entities_with::<ObjectKind>();
    let n = entities.len();
    let mut destinations: Vec<DestinationInfo> = Vec::new();
    let mut i: usize = 0;
    while i < n
        invariant
            world@.wf(),
            entities@ == keys(world@.kinds),
            n == entities@.len(),
            i <= n,
            destination_view(destinations@) == destination_text(destination_infos(world@, entities@, i as int)),
        decreases n - i,
    {
        let entity = entities[i];
        match world.component::<ObjectKind>(entity) {
            Some(ObjectKind::Destination { section }) => match world.component::<Position>(entity) {
                Some(position) => {
                    let info = DestinationInfo {
                        x: position.x,
                        y: position.y,
                        href: section.href().to_owned(),
                        label: section.label().to_owned(),
                    };
                    let ghost before = destinations@;
                    destinations.push(info);
                    proof {
                        assert(destination_view(destinations@) =~= destination_view(before).push(
                            (position.x, position.y, section_href(*section), section_label(*section)),
                        ));
                        assert(destination_text(destination_infos(world@, entities@, i + 1)) =~= destination_text(
                            destination_infos(world@, entities@, i as int),
                        ).push((position.x, position.y, section_href(*section), section_label(*section))));
                    }
                },
                None => {},
            },
            _ => {},
        }
        i = i + 1;
    }
    destinations
}

/// Treat infos of the first `n` treat entities that have a position and a
/// treat component; with `live_only`, collected treats are skipped.
pub open spec fn treat_infos(w: WorldView, es: Seq<Entity>, n: int, live_only: bool) -> Seq<TreatInfo>
    decreases n,
{
    if n <= 0 {
        Seq::empty()
    } else {
        let e = es[n - 1];
        let live = lookup(w.collected, e) != Some(Collected(true));
        match (lookup(w.kinds, e), lookup(w.positions, e), lookup(w.treats, e)) {
            (Some(ObjectKind::Treat), Some(p), Some(t)) => if !live_only || live {
                treat_infos(w, es, n - 1, live_only).push(TreatInfo { x: p.x, y: p.y, kind: t.kind })
            } else {
                treat_infos(w, es, n - 1, live_only)
            },
            _ => treat_infos(w, es, n - 1, live_only),
        }
    }
}

fn gather_treats(world: &World, live_only: bool) -> (r: Vec<TreatInfo>)
    requires
        world@.wf(),
    ensures
        r@ == treat_infos(world@, keys(world@.kinds), world@.kinds.len() as int, live_only),
{
    let entities = world.entities_with::<ObjectKind>();
    let n = entities.len();
    let mut treats: Vec<TreatInfo> = Vec::new();
    let mut i: usize = 0;
    while i < n
        invariant
            world@.wf(),
            entities@ == keys(world@.kinds),
            n == entities@.len(),
            i <= n,
            treats@ == treat_infos(world@, entities@, i as int, live_only),
        decreases n - i,
    {
        let entity = entities[i];
        let is_treat = match world.component::<ObjectKind>(entity) {
            Some(ObjectKind::Treat) => true,
            _ => false,
        };
        let collected = match world.component::<Collected>(entity) {
            Some(Collected(true)) => true,
            _ => false,
        };
        if is_treat && (!live_only || !collected) {
            match world.component::<Position>(entity) {
                Some(position) => match world.component::<Treat>(entity) {
                    Some(treat) => {
                        treats.push(TreatInfo::new(position.x, position.y, treat.kind));
                    },
                    None => {},
                },
                None => {},
            }
        }
        i = i + 1;
    }
    treats
}

/// Every placed treat with its position and kind.
fn collect_treats(world: &World) -> (r: Vec<TreatInfo>)
    requires
        world@.wf(),
    ensures
        r@ == treat_infos(world@, keys(world@.kinds), world@.kinds.len() as int, false),
{
    gather_treats(world, false)
}

/// Treats that have not yet been collected, with the kind the renderer uses
/// to select an asset.
fn collect_live_treats(world: &World) -> (r: Vec<TreatInfo>)
    requires
        world@.wf(),
    ensures
        r@ == treat_infos(world@, keys(world@.kinds), world@.kinds.len() as int, true),
{
    gather_treats(world, true)
}

fn str_eq(a: &str, b: &str) -> (r: bool)
    ensures
        r == (a@ == b@),
{
    let n = a.unicode_len();
    if n != b.unicode_len() {
        return false;
    }
    let mut i: usize = 0;
    while i < n
        invariant
            n == a@.len(),
            n == b@.len(),
            i <= n,
            forall|j: int| 0 <= j < i ==> a@[j] == b@[j],
        decreases n - i,
    {
        if a.get_char(i) != b.get_char(i) {
            return false;
        }
        i = i + 1;
    }
    assert(a@ =~= b@);
    true
}

/// The label of the section whose URL path is `href`, if any.
pub open spec fn label_for_href(href: Seq<char>) -> Option<Seq<char>> {
    if href == "/about/"@ {
        Some("About Brooke"@)
    } else if href == "/blog/"@ {
        Some("Field notes and posts"@)
    } else if href == "/projects/"@ {
        Some("Projects and experiments"@)
    } else {
        None
    }
}

fn section_label_for_href(href: &str) -> (r: Option<&'static str>)
    ensures
        match r {
            Some(l) => label_for_href(href@) == Some(l@),
            None => label_for_href(href@) is None,
        },
{
    if str_eq(href, "/about/") {
        Some("About Brooke")
    } else if str_eq(href, "/blog/") {
        Some("Field notes and posts")
    } else if str_eq(href, "/projects/") {
        Some("Projects and experiments")
    } else {
        None
    }
}

/// The decimal digits of `n`.
pub open spec fn decimal(n: nat) -> Seq<char>
    decreases n,
{
    if n < 10 {
        seq![digit_char(n)]
    } else {
        decimal(n / 10) + seq![digit_char(n % 10)]
    }
}

pub open spec fn digit_char(d: nat) -> char {
    if d == 0 {
        '0'
    } else if d == 1 {
        '1'
    } else if d == 2 {
        '2'
    } else if d == 3 {
        '3'
    } else if d == 4 {
        '4'
    } else if d == 5 {
        '5'
    } else if d == 6 {
        '6'
    } else if d == 7 {
        '7'
    } else if d == 8 {
        '8'
    } else {
        '9'
    }
}

fn digit_str(d: u32) -> (r: &'static str)
    requires
        d < 10,
    ensures
        r@ == seq![digit_char(d as nat)],
{
    proof {
        reveal_strlit("0");
        reveal_strlit("1");
        reveal_strlit("2");
        reveal_strlit("3");
        reveal_strlit("4");
        reveal_strlit("5");
        reveal_strlit("6");
        reveal_strlit("7");
        reveal_strlit("8");
        reveal_strlit("9");
    }
    match d {
        0 => "0",
        1 => "1",
        2 => "2",
        3 => "3",
        4 => "4",
        5 => "5",
        6 => "6",
        7 => "7",
        8 => "8",
        _ => "9",
    }
}

/// Append the decimal digits of `n`.
fn push_decimal(s: &mut String, n: u32)
    ensures
        final(s)@ == old(s)@ + decimal(n as nat),
    decreases n,
{
    if n >= 10 {
        push_decimal(s, n / 10);
    }
    s.append(digit_str(n % 10));
    proof {
        if n >= 10 {
            assert(final(s)@ =~= old(s)@ + decimal(n as nat));
        } else {
            assert(final(s)@ =~= old(s)@ + decimal(n as nat));
        }
    }
}

pub open spec fn label_or_empty(href: Seq<char>) -> Seq<char> {
    match label_for_href(href) {
        Some(l) => l,
        None => Seq::empty(),
    }
}

/// The status line: a recent treat's name and value, else the label of the
/// destination the player stands on, else whether the player is at camp.
pub open spec fn status_text(
    frames: u32,
    last: Option<TreatKind>,
    href: Option<Seq<char>>,
    at_camp: bool,
) -> Seq<char> {
    if frames > 0 && last is Some {
        treat_name(last->0) + " acquired! +"@ + decimal(treat_value(last->0) as nat)
    } else if href is Some {
        label_or_empty(href->0) + ". Press Enter to enter."@
    } else if at_camp {
        "Standing at camp."@
    } else {
        "Adventuring…"@
    }
}

pub open spec fn opt_view(s: Option<String>) -> Option<Seq<char>> {
    match s {
        Some(v) => Some(v@),
        None => None,
    }
}

/// Every coordinate the engine handles stays well inside `i32`.
pub open spec fn coord_ok(v: int) -> bool {
    -1_000_000 <= v <= 1_000_000
}

pub open spec fn positions_bounded(w: WorldView) -> bool {
    forall|i: int|
        0 <= i < w.positions.len() ==> coord_ok((#[trigger] w.positions[i]).1.x as int) && coord_ok(
            w.positions[i].1.y as int,
        )
}

/// Treats still to collect.
pub open spec fn remaining(w: WorldView) -> int {
    remaining_upto(w, keys(w.kinds), w.kinds.len() as int)
}

/// Total value of the collected treats among the first `n` entities of `es`.
pub open spec fn collected_value_upto(w: WorldView, es: Seq<Entity>, n: int) -> int
    decreases n,
{
    if n <= 0 {
        0
    } else {
        let e = es[n - 1];
        collected_value_upto(w, es, n - 1) + if lookup(w.kinds, e) == Some(ObjectKind::Treat) && lookup(
            w.collected,
            e,
        ) == Some(Collected(true)) {
            match lookup(w.treats, e) {
                Some(t) => treat_value(t.kind) as int,
                None => 0int,
            }
        } else {
            0int
        }
    }
}

/// Total value of the treats collected so far.
pub open spec fn collected_value(w: WorldView) -> int {
    collected_value_upto(w, keys(w.kinds), w.kinds.len() as int)
}


/// The world after the snapshot banks the player's points: the score
/// carried since the last snapshot is reset and the just-collected flag is
/// cleared.
pub open spec fn banked(w: WorldView, player: Entity) -> WorldView {
    match lookup(w.players, player) {
        Some(pl) => WorldView {
            players: upsert(w.players, player, Player { score: 0, just_collected_treat: false }),
            ..w
        },
        None => w,
    }
}

/// The player's score less the total value of the treats collected; a
/// collection pass keeps it.
pub open spec fn score_offset(w: WorldView, player: Entity) -> int {
    lookup(w.players, player)->0.score - collected_value(w)
}

/// Banking keeps a world sound and leaves the player with no score and no
/// flag.
pub proof fn lemma_banked(w: WorldView, player: Entity)
    requires
        w.sound(),
        lookup(w.players, player) is Some,
    ensures
        banked(w, player).sound(),
        lookup(banked(w, player).players, player) == Some(Player { score: 0, just_collected_treat: false }),
        banked(w, player).kinds == w.kinds,
        banked(w, player).collected == w.collected,
        banked(w, player).positions == w.positions,
        banked(w, player).colliders == w.colliders,
        banked(w, player).motions == w.motions,
        banked(w, player).treats == w.treats,
        banked(w, player).next == w.next,
{
    let z = Player { score: 0, just_collected_treat: false };
    let i = key_index(w.players, player);
    assert(w.players[i].0 == player);
    lemma_unique_preserved(w.players, player, z);
    lemma_below_next_upsert(w.players, player, z, w.next);
    lemma_lookup_upsert(w.players, player, z, player);
}

/// The player's score can absorb every remaining treat at the top value.
pub open spec fn score_room(w: WorldView, player: Entity) -> bool {
    match lookup(w.players, player) {
        Some(pl) => pl.score + 300 * remaining(w) <= u32::MAX,
        None => true,
    }
}

/// The configuration every engine generates its maze with.
pub open spec fn default_config() -> MazeConfig {
    MazeConfig { width: 30, height: 22, min_room: 5, max_room: 8, min_split_area: 36 }
}

pub open spec fn player_spawn(camp: Position) -> Spawn {
    Spawn {
        motion: Some(
            GridMotion {
                tile_x: camp.x,
                tile_y: camp.y,
                active_direction: None,
                buffered_direction: None,
                frames_remaining: 0,
            },
        ),
        player: Some(Player { score: 0, just_collected_treat: false }),
        sprite: Some(Sprite(SpriteId::PlayerRaccoon)),
        ..no_components()
    }
}

/// The generated maze, the populated world before the player arrives, and
/// where the player starts, for a seed.
pub open spec fn seeded(seed: u64) -> (Layout, WorldView, Position) {
    let c = default_config();
    let (layout, s1) = generate(c, seed_state(seed));
    let w1 = spawn_all(WorldView::empty(), collider_spawns(wall_tiles(layout.tiles, 30, 660)));
    let (w2, s2) = populate_spec(layout, 30, 22, w1, s1);
    let camp = match camp_of(w2) {
        Some(p) => p,
        None => Position { x: 1, y: 1 },
    };
    (layout, w2, camp)
}

/// Owning simulation context, built once from a seed and stepped each frame.
pub struct Engine {
    pub world: World,
    pub maze: Maze,
    pub player: Entity,
    pub active_destination_href: Option<String>,
    pub pending_navigation: Option<String>,
    pub last_collected_treat: Option<TreatKind>,
    pub treat_message_frames: u32,
}

/// The world after the input is buffered in the player's motion.
pub open spec fn after_input(w: WorldView, player: Entity, input: Input) -> WorldView {
    match lookup(w.motions, player) {
        Some(m) => WorldView {
            motions: upsert(w.motions, player, GridMotion { buffered_direction: preferred(input), ..m }),
            ..w
        },
        None => w,
    }
}

/// The world after one frame of movement.
pub open spec fn after_move(w: WorldView, maze: &Maze, player: Entity) -> WorldView {
    match lookup(w.motions, player) {
        Some(m) => WorldView { motions: upsert(w.motions, player, advance_motion(w, maze, m)), ..w },
        None => w,
    }
}

/// The collection pass, or nothing when the player has no tile.
pub open spec fn after_collect(w: WorldView, player: Entity) -> CollectState {
    match tile_of(w, player) {
        Some(p) => collect_pass(w, player, p),
        None => CollectState { world: w, kind: None, ok: true },
    }
}

/// The world with the player's just-collected flag cleared.
pub open spec fn cleared(w: WorldView, player: Entity) -> WorldView {
    match lookup(w.players, player) {
        Some(pl) => WorldView {
            players: upsert(w.players, player, Player { just_collected_treat: false, ..pl }),
            ..w
        },
        None => w,
    }
}

pub open spec fn href_of(s: Option<Section>) -> Option<Seq<char>> {
    match s {
        Some(sec) => Some(section_href(sec)),
        None => None,
    }
}

impl Engine {
    /// The engine's invariant: a sound world over a well-formed maze, small
    /// coordinates, a player standing on a walkable tile whose step in
    /// flight heads for a walkable tile, points banked by the last snapshot
    /// (no score carried, no just-collected flag), and room in the score for
    /// every remaining treat.
    pub open spec fn wf(&self) -> bool {
        let w = self.world@;
        &&& w.sound()
        &&& self.maze.wf()
        &&& self.maze.width <= 1_000_000 && self.maze.height <= 1_000_000
        &&& positions_bounded(w)
        &&& match lookup(w.motions, self.player) {
            Some(m) => motion_ok(w, &self.maze, m) && coord_ok(m.tile_x as int) && coord_ok(m.tile_y as int)
                && walkable(w, &self.maze, m.tile_x as int, m.tile_y as int),
            None => false,
        }
        &&& score_room(w, self.player)
        &&& lookup(w.players, self.player) == Some(Player { score: 0, just_collected_treat: false })
    }

    /// The world after a frame with this input, with the collected kind.
    pub open spec fn frame_world(&self, input: Input) -> (WorldView, Option<TreatKind>) {
        let w1 = after_input(self.world@, self.player, input);
        let w2 = after_move(w1, &self.maze, self.player);
        let c = after_collect(w2, self.player);
        (if c.kind is Some { c.world } else { cleared(c.world, self.player) }, c.kind)
    }

    /// The status line for the current state.
    pub fn compute_status(&self) -> (r: String)
        requires
            self.world@.wf(),
            camp_near(self.world@, self.player).1,
        ensures
            r@ == status_text(
                self.treat_message_frames,
                self.last_collected_treat,
                opt_view(self.active_destination_href),
                camp_near(self.world@, self.player).0,
            ),
    {
        if self.treat_message_frames > 0 {
            match self.last_collected_treat {
                Some(kind) => {
                    let mut s = kind.display_name().to_owned();
                    s.append(" acquired! +");
                    push_decimal(&mut s, kind.value());
                    return s;
                },
                None => {},
            }
        }
        match &self.active_destination_href {
            Some(href) => {
                let label = match section_label_for_href(href.as_str()) {
                    Some(l) => l,
                    None => "",
                };
                let mut s = label.to_owned();
                s.append(". Press Enter to enter.");
                proof {
                    reveal_strlit("");
                }
                return s;
            },
            None => {},
        }
        if systems::is_near_camp(&self.world, self.player) {
            return "Standing at camp.".to_owned();
        }
        "Adventuring…".to_owned()
    }
}

/// Marking an uncollected treat collected leaves one fewer to collect.
pub proof fn lemma_remaining_mark(w: WorldView, e: Entity)
    requires
        w.wf(),
        lookup(w.kinds, e) == Some(ObjectKind::Treat),
        lookup(w.collected, e) != Some(Collected(true)),
    ensures
        remaining(WorldView { collected: upsert(w.collected, e, Collected(true)), ..w }) == remaining(w) - 1,
        remaining(w) >= 1,
{
    let w2 = WorldView { collected: upsert(w.collected, e, Collected(true)), ..w };
    let es = keys(w.kinds);
    let k = key_index(w.kinds, e);
    assert(w.kinds[k].0 == e);
    lemma_remaining_mark_upto(w, e, es, k, w.kinds.len() as int);
}

pub proof fn lemma_remaining_mark_upto(w: WorldView, e: Entity, es: Seq<Entity>, k: int, n: int)
    requires
        w.wf(),
        lookup(w.kinds, e) == Some(ObjectKind::Treat),
        lookup(w.collected, e) != Some(Collected(true)),
        es == keys(w.kinds),
        0 <= k < w.kinds.len(),
        w.kinds[k].0 == e,
        0 <= n <= w.kinds.len(),
    ensures
        remaining_upto(WorldView { collected: upsert(w.collected, e, Collected(true)), ..w }, es, n)
            == remaining_upto(w, es, n) - if n > k {
            1int
        } else {
            0int
        },
        n > k ==> remaining_upto(w, es, n) >= 1,
    decreases n,
{
    let w2 = WorldView { collected: upsert(w.collected, e, Collected(true)), ..w };
    if n > 0 {
        lemma_remaining_mark_upto(w, e, es, k, n - 1);
        crate::systems::lemma_remaining_bound(w, es, n - 1);
        let e2 = es[n - 1];
        lemma_lookup_upsert(w.collected, e, Collected(true), e2);
        if n - 1 != k {
            assert(w.kinds[n - 1].0 != w.kinds[k].0);
        }
    }
}

/// Marking an uncollected treat collected adds its value to the total.
pub proof fn lemma_collected_mark(w: WorldView, e: Entity, t: Treat)
    requires
        w.wf(),
        lookup(w.kinds, e) == Some(ObjectKind::Treat),
        lookup(w.collected, e) != Some(Collected(true)),
        lookup(w.treats, e) == Some(t),
    ensures
        collected_value(WorldView { collected: upsert(w.collected, e, Collected(true)), ..w }) == collected_value(w)
            + treat_value(t.kind),
{
    let es = keys(w.kinds);
    let k = key_index(w.kinds, e);
    assert(w.kinds[k].0 == e);
    lemma_collected_mark_upto(w, e, t, es, k, w.kinds.len() as int);
}

pub proof fn lemma_collected_mark_upto(w: WorldView, e: Entity, t: Treat, es: Seq<Entity>, k: int, n: int)
    requires
        w.wf(),
        lookup(w.kinds, e) == Some(ObjectKind::Treat),
        lookup(w.collected, e) != Some(Collected(true)),
        lookup(w.treats, e) == Some(t),
        es == keys(w.kinds),
        0 <= k < w.kinds.len(),
        w.kinds[k].0 == e,
        0 <= n <= w.kinds.len(),
    ensures
        collected_value_upto(WorldView { collected: upsert(w.collected, e, Collected(true)), ..w }, es, n)
            == collected_value_upto(w, es, n) + if n > k {
            treat_value(t.kind) as int
        } else {
            0int
        },
    decreases n,
{
    if n > 0 {
        lemma_collected_mark_upto(w, e, t, es, k, n - 1);
        let e2 = es[n - 1];
        lemma_lookup_upsert(w.collected, e, Collected(true), e2);
        if n - 1 != k {
            assert(w.kinds[n - 1].0 != w.kinds[k].0);
        }
    }
}

/// The collected total reads only the object-kind, collected and treat
/// tables.
pub proof fn lemma_collected_frame(w1: WorldView, w2: WorldView, es: Seq<Entity>, n: int)
    requires
        w1.kinds == w2.kinds,
        w1.collected == w2.collected,
        w1.treats == w2.treats,
    ensures
        collected_value_upto(w1, es, n) == collected_value_upto(w2, es, n),
    decreases n,
{
    if n > 0 {
        lemma_collected_frame(w1, w2, es, n - 1);
    }
}

/// Nothing collected yet: the total is zero.
pub proof fn lemma_collected_none(w: WorldView, es: Seq<Entity>, n: int)
    requires
        forall|i: int|
            0 <= i < n ==> #[trigger] lookup(w.kinds, es[i]) == Some(ObjectKind::Treat) ==> lookup(
                w.collected,
                es[i],
            ) != Some(Collected(true)),
    ensures
        collected_value_upto(w, es, n) == 0,
    decreases n,
{
    if n > 0 {
        lemma_collected_none(w, es, n - 1);
    }
}

/// The remaining count reads only the object-kind and collected tables.
pub proof fn lemma_remaining_frame(w1: WorldView, w2: WorldView, es: Seq<Entity>, n: int)
    requires
        w1.kinds == w2.kinds,
        w1.collected == w2.collected,
    ensures
        remaining_upto(w1, es, n) == remaining_upto(w2, es, n),
    decreases n,
{
    if n > 0 {
        lemma_remaining_frame(w1, w2, es, n - 1);
    }
}

/// The collection pass keeps the world sound, touches only the collected
/// and player tables, never overflows, and keeps room in the score.
pub proof fn lemma_collect_fold(w0: WorldView, player: Entity, p: Position, es: Seq<Entity>, n: int)
    requires
        w0.wf(),
        positions_bounded(w0),
        coord_ok(p.x as int) && coord_ok(p.y as int),
        score_room(w0, player),
        0 <= n,
    ensures
        collect_upto(w0, player, p, es, n).ok,
        collect_upto(w0, player, p, es, n).world.wf(),
        collect_upto(w0, player, p, es, n).world.kinds == w0.kinds,
        collect_upto(w0, player, p, es, n).world.positions == w0.positions,
        collect_upto(w0, player, p, es, n).world.treats == w0.treats,
        collect_upto(w0, player, p, es, n).world.motions == w0.motions,
        collect_upto(w0, player, p, es, n).world.colliders == w0.colliders,
        collect_upto(w0, player, p, es, n).world.sprites == w0.sprites,
        collect_upto(w0, player, p, es, n).world.next == w0.next,
        score_room(collect_upto(w0, player, p, es, n).world, player),
        w0.spawned_only() ==> collect_upto(w0, player, p, es, n).world.spawned_only(),
        lookup(w0.players, player) is Some ==> lookup(collect_upto(w0, player, p, es, n).world.players, player) is Some
            && score_offset(collect_upto(w0, player, p, es, n).world, player) == score_offset(w0, player),
    decreases n,
{
    if n > 0 {
        lemma_collect_fold(w0, player, p, es, n - 1);
        let st = collect_upto(w0, player, p, es, n - 1);
        let e = es[n - 1];
        let w = st.world;
        crate::systems::lemma_collect_step(st, player, p, e);
        lemma_lookup_bounded(w, e);
        if w0.spawned_only() && lookup(w.kinds, e) is Some {
            let i = key_index(w.kinds, e);
            assert(w.kinds[i].0 == e);
            assert(e.0 < w.next);
            lemma_below_next_upsert(w.collected, e, Collected(true), w.next);
            if lookup(w.players, player) is Some {
                let j = key_index(w.players, player);
                assert(w.players[j].0 == player);
                lemma_below_next_upsert(w.players, player, Player { score: 0, just_collected_treat: true }, w.next);
                match (lookup(w.treats, e), lookup(w.players, player)) {
                    (Some(t), Some(pl)) => {
                        lemma_below_next_upsert(
                            w.players,
                            player,
                            Player { score: (pl.score + treat_value(t.kind)) as u32, just_collected_treat: true },
                            w.next,
                        );
                    },
                    _ => {},
                }
            }
        }
        if lookup(w.kinds, e) == Some(ObjectKind::Treat) && lookup(w.collected, e) != Some(Collected(true)) {
            match (lookup(w.positions, e), lookup(w.treats, e)) {
                (Some(pos), Some(t)) => {
                    if near(p, pos) {
                        lemma_remaining_mark(w, e);
                        let w1 = WorldView { collected: upsert(w.collected, e, Collected(true)), ..w };
                        match lookup(w1.players, player) {
                            Some(pl) => {
                                assert(treat_value(t.kind) <= 300);
                                lemma_unique_preserved(w1.players, player, Player { score: (pl.score + treat_value(t.kind)) as u32, just_collected_treat: true });
                                lemma_lookup_upsert(
                                    w1.players,
                                    player,
                                    Player { score: (pl.score + treat_value(t.kind)) as u32, just_collected_treat: true },
                                    player,
                                );
                                let w3 = WorldView {
                                    players: upsert(
                                        w1.players,
                                        player,
                                        Player { score: (pl.score + treat_value(t.kind)) as u32, just_collected_treat: true },
                                    ),
                                    ..w1
                                };
                                lemma_remaining_frame(w3, w1, keys(w3.kinds), w3.kinds.len() as int);
                                lemma_collected_mark(w, e, t);
                                lemma_collected_frame(w3, w1, keys(w3.kinds), w3.kinds.len() as int);
                            },
                            None => {},
                        }
                    }
                },
                _ => {},
            }
        }
    }
}

/// With small coordinates and a walkable step in flight, a frame of motion
/// is defined and keeps the motion well-formed and small.
pub proof fn lemma_motion_safe(w: WorldView, maze: &Maze, m: GridMotion)
    requires
        maze.wf(),
        maze.width <= 1_000_000 && maze.height <= 1_000_000,
        motion_ok(w, maze, m),
        coord_ok(m.tile_x as int) && coord_ok(m.tile_y as int),
        walkable(w, maze, m.tile_x as int, m.tile_y as int),
    ensures
        motion_defined(w, maze, m),
        motion_ok(w, maze, advance_motion(w, maze, m)),
        coord_ok(advance_motion(w, maze, m).tile_x as int) && coord_ok(advance_motion(w, maze, m).tile_y as int),
        walkable(w, maze, advance_motion(w, maze, m).tile_x as int, advance_motion(w, maze, m).tile_y as int),
{
    let m1 = start_step(w, maze, m);
    if let Some(d) = m1.active_direction {
        assert(step_allowed(w, maze, m1.tile_x as int, m1.tile_y as int, d));
    }
    lemma_motion_step(w, maze, m);
    let m2 = advance_motion(w, maze, m);
    if !(m2.tile_x == m.tile_x && m2.tile_y == m.tile_y) {
        let d = choose|d: crate::components::Direction|
            #[trigger] step_allowed(w, maze, m.tile_x as int, m.tile_y as int, d) && m2.tile_x == m.tile_x
                + crate::components::direction_delta(d).0 && m2.tile_y == m.tile_y + crate::components::direction_delta(d).1;
        assert(step_allowed(w, maze, m.tile_x as int, m.tile_y as int, d));
    }
}

/// Whether a step is allowed depends only on the collider and position
/// tables.
pub proof fn lemma_motion_frame(w1: WorldView, w2: WorldView, maze: &Maze, m: GridMotion)
    requires
        w1.colliders == w2.colliders,
        w1.positions == w2.positions,
    ensures
        motion_ok(w1, maze, m) == motion_ok(w2, maze, m),
        forall|x: int, y: int| #[trigger] walkable(w1, maze, x, y) == walkable(w2, maze, x, y),
{
}

impl Engine {
    /// The dynamic snapshot of the current state; banks the player's points
    /// and clears the just-collected flag, and hands out and clears any
    /// pending navigation.
    fn snapshot(&mut self, status: String, treats: Vec<TreatInfo>) -> (r: FrameUpdate)
        requires
            old(self).world@.wf(),
        ensures
            final(self).world@ == banked(old(self).world@, old(self).player),
            final(self).world@.wf(),
            final(self).maze == old(self).maze,
            final(self).player == old(self).player,
            final(self).active_destination_href == old(self).active_destination_href,
            final(self).last_collected_treat == old(self).last_collected_treat,
            final(self).treat_message_frames == old(self).treat_message_frames,
            final(self).pending_navigation is None,
            r.protocol_version == PROTOCOL_VERSION,
            r.motion == lookup(old(self).world@.motions, old(self).player),
            r.score == match lookup(old(self).world@.players, old(self).player) {
                Some(pl) => pl.score,
                None => 0,
            },
            r.just_collected_treat == match lookup(old(self).world@.players, old(self).player) {
                Some(pl) => pl.just_collected_treat,
                None => false,
            },
            r.treats == treats,
            r.status == status,
            opt_view(r.active_destination_href) == opt_view(old(self).active_destination_href),
            opt_view(r.pending_navigation) == opt_view(old(self).pending_navigation),
    {
        let player = match self.world.component::<Player>(self.player) {
            Some(p) => *p,
            None => Player::default(),
        };
        let motion = match self.world.component::<GridMotion>(self.player) {
            Some(m) => Some(*m),
            None => None,
        };
        proof {
            lemma_unique_preserved(self.world@.players, self.player, Player { score: 0, just_collected_treat: false });
        }
        match self.world.component_mut::<Player>(self.player) {
            Some(player_state) => {
                player_state.score = 0;
                player_state.just_collected_treat = false;
            },
            None => {},
        }
        let pending_navigation = self.pending_navigation.take();
        let active_destination_href = match &self.active_destination_href {
            Some(href) => Some(href.clone()),
            None => None,
        };
        FrameUpdate {
            protocol_version: PROTOCOL_VERSION,
            motion,
            score: player.score,
            treats,
            status,
            active_destination_href,
            pending_navigation,
            just_collected_treat: player.just_collected_treat,
        }
    }

    /// Advance the simulation one frame given the input, returning what the
    /// renderer should draw.
    pub fn step(&mut self, input: &Input) -> (r: FrameUpdate)
        requires
            old(self).wf(),
        ensures
            final(self).wf(),
            final(self).maze == old(self).maze,
            final(self).player == old(self).player,
            ({
                let (w, kind) = old(self).frame_world(*input);
                let last = if kind is Some {
                    kind
                } else {
                    old(self).last_collected_treat
                };
                let frames = if kind is Some {
                    TREAT_MESSAGE_FRAMES
                } else {
                    old(self).treat_message_frames
                };
                let href = href_of(destination_at(w, old(self).player));
                let pending = if input.enter && href is Some {
                    href
                } else {
                    opt_view(old(self).pending_navigation)
                };
                &&& final(self).world@ == banked(w, old(self).player)
                &&& final(self).last_collected_treat == last
                &&& opt_view(final(self).active_destination_href) == href
                &&& final(self).pending_navigation is None
                &&& final(self).treat_message_frames == if frames > 0 {
                    (frames - 1) as u32
                } else {
                    0
                }
                &&& r.status@ == status_text(frames, last, href, camp_near(w, old(self).player).0)
                &&& opt_view(r.active_destination_href) == href
                &&& opt_view(r.pending_navigation) == pending
                &&& r.treats@ == treat_infos(w, keys(w.kinds), w.kinds.len() as int, true)
                &&& r.motion == lookup(w.motions, old(self).player)
                &&& r.score == match lookup(w.players, old(self).player) {
                    Some(pl) => pl.score,
                    None => 0,
                }
                &&& r.just_collected_treat == match lookup(w.players, old(self).player) {
                    Some(pl) => pl.just_collected_treat,
                    None => false,
                }
                &&& r.protocol_version == PROTOCOL_VERSION
                // The points reported are the value of the treats collected this frame.
                &&& r.score == collected_value(w) - collected_value(old(self).world@)
                &&& message_step(old(self), final(self), kind, r.status@, href, camp_near(w, old(self).player).0)
            }),
    {
        let ghost w0 = self.world@;
        let ghost m0 = lookup(w0.motions, self.player)->0;
        let ghost player = self.player;
        proof {
            lemma_unique_preserved(w0.motions, player, GridMotion { buffered_direction: preferred(*input), ..m0 });
        }
        systems::apply_input(&mut self.world, self.player, input);
        let ghost w1 = self.world@;
        let ghost m1 = GridMotion { buffered_direction: preferred(*input), ..m0 };
        proof {
            lemma_lookup_upsert(w0.motions, player, m1, player);
            assert(lookup(w1.motions, player) == Some(m1));
            lemma_motion_frame(w0, w1, &self.maze, m1);
            lemma_motion_safe(w1, &self.maze, m1);
        }
        systems::move_with_collision(&mut self.world, &self.maze, self.player);
        let ghost w2 = self.world@;
        let ghost m2 = advance_motion(w1, &self.maze, m1);
        proof {
            lemma_lookup_upsert(w1.motions, player, m2, player);
            lemma_motion_frame(w1, w2, &self.maze, m2);
            lemma_remaining_frame(w2, w0, keys(w0.kinds), w0.kinds.len() as int);
            assert(score_room(w2, player));
            lemma_collected_frame(w2, w0, keys(w0.kinds), w0.kinds.len() as int);
            assert(lookup(w2.players, player) == Some(Player { score: 0, just_collected_treat: false }));
            crate::world::lemma_below_next_upsert(w0.motions, player, m1, w0.next);
            crate::world::lemma_below_next_upsert(w1.motions, player, m2, w1.next);
            let p = tile_of(w2, player)->0;
            lemma_collect_fold(w2, player, p, keys(w2.kinds), w2.kinds.len() as int);
        }
        let collected_this_frame = systems::collect_treats(&mut self.world, self.player);
        let ghost w3 = self.world@;
        match collected_this_frame {
            Some(kind) => {
                self.last_collected_treat = Some(kind);
                self.treat_message_frames = TREAT_MESSAGE_FRAMES;
            },
            None => {
                proof {
                    match lookup(w3.players, player) {
                        Some(pl) => {
                            let i = key_index(w3.players, player);
                            assert(w3.players[i].0 == player);
                            lemma_below_next_upsert(w3.players, player, Player { just_collected_treat: false, ..pl }, w3.next);
                            lemma_unique_preserved(w3.players, player, Player { just_collected_treat: false, ..pl });
                            lemma_lookup_upsert(w3.players, player, Player { just_collected_treat: false, ..pl }, player);
                            lemma_remaining_frame(cleared(w3, player), w3, keys(w3.kinds), w3.kinds.len() as int);
                            lemma_collected_frame(cleared(w3, player), w3, keys(w3.kinds), w3.kinds.len() as int);
                        },
                        None => {},
                    }
                }
                match self.world.component_mut::<Player>(self.player) {
                    Some(player_state) => {
                        player_state.just_collected_treat = false;
                    },
                    None => {},
                }
            },
        }
        let ghost w4 = self.world@;
        proof {
            lemma_motion_frame(w2, w4, &self.maze, m2);
            assert(lookup(w4.motions, player) == Some(m2));
            assert(positions_bounded(w4));
        }

        let active_section = systems::active_destination(&self.world, self.player);
        self.active_destination_href = match active_section {
            Some(section) => Some(section.href().to_owned()),
            None => None,
        };

        if input.enter {
            match &self.active_destination_href {
                Some(href) => {
                    self.pending_navigation = Some(href.clone());
                },
                None => {},
            }
        }

        proof {
            lemma_camp_checks(self.world@, self.player);
        }
        let status = self.compute_status();
        if self.treat_message_frames > 0 {
            self.treat_message_frames = self.treat_message_frames - 1;
        }

        let live_treats = collect_live_treats(&self.world);
        let ghost w5 = self.world@;
        let r = self.snapshot(status, live_treats);
        proof {
            lemma_banked(w5, player);
            lemma_remaining_frame(banked(w5, player), w5, keys(w5.kinds), w5.kinds.len() as int);
            lemma_motion_frame(w5, banked(w5, player), &self.maze, m2);
        }
        r
    }
}

/// Every record that carries a position carries a small one.
pub open spec fn spawns_bounded(rs: Seq<Spawn>) -> bool {
    forall|k: int|
        0 <= k < rs.len() ==> match (#[trigger] rs[k]).position {
            Some(p) => coord_ok(p.x as int) && coord_ok(p.y as int),
            None => true,
        }
}

pub proof fn lemma_spawn_all_bounded(w: WorldView, rs: Seq<Spawn>)
    requires
        positions_bounded(w),
        spawns_bounded(rs),
    ensures
        positions_bounded(spawn_all(w, rs)),
        spawn_all(w, rs).kinds.len() <= w.kinds.len() + rs.len(),
    decreases rs.len(),
{
    if rs.len() > 0 {
        let prev = rs.drop_last();
        assert(spawns_bounded(prev)) by {
            assert forall|k: int| 0 <= k < prev.len() implies match (#[trigger] prev[k]).position {
                Some(p) => coord_ok(p.x as int) && coord_ok(p.y as int),
                None => true,
            } by {
                assert(prev[k] == rs[k]);
            }
        }
        lemma_spawn_all_bounded(w, prev);
        let w1 = spawn_all(w, prev);
        let r = rs.last();
        assert(rs[rs.len() - 1] == r);
        let w2 = spawn_one(w1, r);
        assert forall|i: int| 0 <= i < w2.positions.len() implies coord_ok((#[trigger] w2.positions[i]).1.x as int)
            && coord_ok(w2.positions[i].1.y as int) by {
            if i < w1.positions.len() {
                assert(w2.positions[i] == w1.positions[i]);
            }
        }
    }
}

pub proof fn lemma_spawns_concat_bounded(a: Seq<Spawn>, b: Seq<Spawn>)
    requires
        spawns_bounded(a),
        spawns_bounded(b),
    ensures
        spawns_bounded(a + b),
{
    assert forall|k: int| 0 <= k < (a + b).len() implies match (#[trigger] (a + b)[k]).position {
        Some(p) => coord_ok(p.x as int) && coord_ok(p.y as int),
        None => true,
    } by {
        if k < a.len() {
            assert((a + b)[k] == a[k]);
        } else {
            assert((a + b)[k] == b[k - a.len()]);
        }
    }
}

/// The wall scan lists tiles of the grid.
pub proof fn lemma_wall_tiles(tiles: Seq<bool>, w: int, h: int, n: int)
    requires
        crate::grid::grid_shape(tiles, w, h),
        0 <= n <= w * h,
        w <= 1_000_000,
        h <= 1_000_000,
    ensures
        wall_tiles(tiles, w, n).len() <= n,
        spawns_bounded(collider_spawns(wall_tiles(tiles, w, n))),
        forall|k: int|
            0 <= k < wall_tiles(tiles, w, n).len() ==> {
                let q = #[trigger] wall_tiles(tiles, w, n)[k];
                crate::grid::in_grid(w, h, q.x as int, q.y as int) && crate::grid::cell(
                    tiles,
                    w,
                    q.x as int,
                    q.y as int,
                )
            },
    decreases n,
{
    if n > 0 {
        lemma_wall_tiles(tiles, w, h, n - 1);
        crate::grid::lemma_index_inverse(w, h, n - 1);
        let prev = wall_tiles(tiles, w, n - 1);
        let cur = wall_tiles(tiles, w, n);
        let cs = collider_spawns(cur);
        assert forall|k: int| 0 <= k < cur.len() implies {
            let q = #[trigger] cur[k];
            crate::grid::in_grid(w, h, q.x as int, q.y as int) && crate::grid::cell(tiles, w, q.x as int, q.y as int)
        } by {
            if k < prev.len() {
                assert(cur[k] == prev[k]);
            }
        }
        assert forall|k: int| 0 <= k < cs.len() implies match (#[trigger] cs[k]).position {
            Some(p) => coord_ok(p.x as int) && coord_ok(p.y as int),
            None => true,
        } by {
            if k < prev.len() {
                assert(cur[k] == prev[k]);
                assert(collider_spawns(prev)[k] == cs[k]);
            }
        }
    }
}

/// A door and its building footprint lie on the grid.
pub open spec fn door_on_grid(d: Position, w: int, h: int) -> bool {
    2 <= d.x && d.x + 2 < w && 2 <= d.y && d.y + 1 < h
}

pub proof fn lemma_destination_spawns_bounded(doors: Seq<Position>, n: int, w: int, h: int)
    requires
        0 <= n <= doors.len(),
        w <= 1_000_000,
        h <= 1_000_000,
        forall|k: int| 0 <= k < doors.len() ==> door_on_grid(#[trigger] doors[k], w, h),
    ensures
        spawns_bounded(destination_spawns(doors, n)),
        destination_spawns(doors, n).len() == 6 * n,
    decreases n,
{
    if n > 0 {
        lemma_destination_spawns_bounded(doors, n - 1, w, h);
        let d = doors[n - 1];
        assert(door_on_grid(d, w, h));
        let prev = destination_spawns(doors, n - 1);
        let a = prev.push(crate::placement::door_spawn(d, crate::placement::section_at(n - 1)));
        assert(spawns_bounded(a)) by {
            assert forall|k: int| 0 <= k < a.len() implies match (#[trigger] a[k]).position {
                Some(p) => coord_ok(p.x as int) && coord_ok(p.y as int),
                None => true,
            } by {
                if k < prev.len() {
                    assert(a[k] == prev[k]);
                }
            }
        }
        let b = collider_spawns(footprint(d));
        assert(spawns_bounded(b)) by {
            assert forall|k: int| 0 <= k < b.len() implies match (#[trigger] b[k]).position {
                Some(p) => coord_ok(p.x as int) && coord_ok(p.y as int),
                None => true,
            } by {
                assert(b[k] == crate::placement::collider_spawn(footprint(d)[k]));
            }
        }
        lemma_spawns_concat_bounded(a, b);
    }
}

/// Populating a maze with rooms on a small grid keeps positions small and
/// adds few object entities.
pub proof fn lemma_populate_bounded(layout: Layout, width: int, height: int, w: WorldView, s: crate::rng::RngState)
    requires
        0 < width <= 1_000_000,
        0 < height <= 1_000_000,
        width * height <= i32::MAX,
        crate::grid::grid_shape(layout.tiles, width, height),
        layout.rooms.len() <= usize::MAX,
        layout.rooms.len() > 3,
        hostable_rooms(layout.rooms, layout.rooms.len() as int).len() >= 3,
        forall|i: int|
            0 <= i < layout.rooms.len() ==> {
                let r = #[trigger] layout.rooms[i];
                0 <= r.left && 0 <= r.top && 1 <= r.width && 1 <= r.height && r.left + r.width <= width
                    && r.top + r.height <= height
            },
        positions_bounded(w),
        w.sound(),
        w.next + 27 <= u32::MAX,
    ensures
        positions_bounded(populate_spec(layout, width, height, w, s).0),
        populate_spec(layout, width, height, w, s).0.kinds.len() <= w.kinds.len() + 27,
        populate_spec(layout, width, height, w, s).0.next <= w.next + 27,
{
    let (p, s1) = plan_rooms(layout.rooms, s);
    crate::placement::lemma_plan_rooms(layout.rooms, s);
    let camp_room = layout.rooms[p.camp_room as int];
    assert(coord_ok(p.camp.x as int) && coord_ok(p.camp.y as int));
    assert forall|k: int| 0 <= k < p.doors.len() implies door_on_grid(#[trigger] p.doors[k], width, height) by {
        let r = layout.rooms[p.destination_rooms[k] as int];
        assert(can_host(r));
    }
    lemma_destination_spawns_bounded(p.doors, 3, width, height);
    let first = seq![camp_spawn(p.camp)];
    assert(spawns_bounded(first)) by {
        assert forall|k: int| 0 <= k < first.len() implies match (#[trigger] first[k]).position {
            Some(q) => coord_ok(q.x as int) && coord_ok(q.y as int),
            None => true,
        } by {
            assert(first[k] == camp_spawn(p.camp));
        }
    }
    lemma_spawns_concat_bounded(first, destination_spawns(p.doors, 3));
    lemma_spawn_all_bounded(w, first + destination_spawns(p.doors, 3));
    let w1 = landmarks(w, p);
    let init = TreatState {
        candidates: open_tiles(layout.tiles, width, width * height),
        placed: Seq::empty(),
        rng: s1,
    };
    crate::placement::lemma_open_tiles(layout.tiles, width, height, width * height);
    crate::placement::lemma_treat_run(init, p.camp, p.doors, w1, layout.tiles, width, height);
    let st = treat_run(init, p.camp, p.doors, w1);
    let ts = treat_spawns(st.placed);
    assert(spawns_bounded(ts)) by {
        assert forall|k: int| 0 <= k < ts.len() implies match (#[trigger] ts[k]).position {
            Some(q) => coord_ok(q.x as int) && coord_ok(q.y as int),
            None => true,
        } by {
            assert(ts[k] == crate::placement::treat_spawn(st.placed[k], crate::placement::treat_kinds()[k]));
            assert(crate::grid::is_open(layout.tiles, width, height, st.placed[k].x as int, st.placed[k].y as int));
        }
    }
    lemma_spawn_all_bounded(w1, ts);
    crate::world::lemma_spawn_all(w, first + destination_spawns(p.doors, 3));
    crate::world::lemma_spawn_all(w1, ts);
}

/// When every room can host a destination, every room is a candidate.
pub proof fn lemma_all_hostable(rooms: Seq<Room>, n: int)
    requires
        0 <= n <= rooms.len(),
        forall|i: int| 0 <= i < rooms.len() ==> can_host(#[trigger] rooms[i]),
    ensures
        hostable_rooms(rooms, n).len() == n,
    decreases n,
{
    if n > 0 {
        lemma_all_hostable(rooms, n - 1);
        assert(can_host(rooms[n - 1]));
    }
}

pub proof fn lemma_camp_upto_bounded(w: WorldView, es: Seq<Entity>, n: int)
    requires
        positions_bounded(w),
    ensures
        match camp_upto(w, es, n) {
            Some(p) => coord_ok(p.x as int) && coord_ok(p.y as int),
            None => true,
        },
    decreases n,
{
    if n > 0 {
        lemma_camp_upto_bounded(w, es, n - 1);
        lemma_lookup_bounded(w, es[n - 1]);
    }
}

/// The records spawned into an empty world to populate a maze: a collider
/// per wall tile, the camp, the destinations with their buildings, and the
/// treats.
pub open spec fn populate_records(layout: Layout, s: crate::rng::RngState) -> Seq<Spawn> {
    let walls = collider_spawns(wall_tiles(layout.tiles, 30, 660));
    let w1 = spawn_all(WorldView::empty(), walls);
    let p = plan_rooms(layout.rooms, s).0;
    walls + (seq![camp_spawn(p.camp)] + destination_spawns(p.doors, 3)) + treat_spawns(
        placed_treats(layout, 30, 22, w1, s),
    )
}

/// A destination or a treat: a place the player heads for.
pub open spec fn is_landmark(k: Option<ObjectKind>) -> bool {
    match k {
        Some(ObjectKind::Destination { .. }) => true,
        Some(ObjectKind::Treat) => true,
        _ => false,
    }
}

/// The maze facts the populated world rests on.
pub open spec fn populated_layout(layout: Layout) -> bool {
    &&& crate::grid::grid_shape(layout.tiles, 30, 22)
    &&& layout.rooms.len() <= usize::MAX
    &&& layout.rooms.len() > 3
    &&& hostable_rooms(layout.rooms, layout.rooms.len() as int).len() >= 3
    &&& forall|i: int|
        0 <= i < layout.rooms.len() ==> {
            let r = #[trigger] layout.rooms[i];
            0 <= r.left && 0 <= r.top && 1 <= r.width && 1 <= r.height && r.left + r.width <= 30 && r.top
                + r.height <= 22
        }
}

/// Where each record of a populated maze comes from.
proof fn lemma_record_at(layout: Layout, s: crate::rng::RngState, j: int)
    requires
        populated_layout(layout),
        0 <= j < populate_records(layout, s).len(),
    ensures
        ({
            let walls = wall_tiles(layout.tiles, 30, 660);
            let w1 = spawn_all(WorldView::empty(), collider_spawns(walls));
            let p = plan_rooms(layout.rooms, s).0;
            let placed = placed_treats(layout, 30, 22, w1, s);
            let a = walls.len() as int;
            let rs = populate_records(layout, s);
            &&& rs.len() == a + 19 + placed.len()
            &&& rs.len() <= 700
            &&& placed.len() <= 8
            &&& p.doors.len() == 3
            &&& (j < a ==> rs[j] == crate::placement::collider_spawn(walls[j]))
            &&& (j == a ==> rs[j] == camp_spawn(p.camp))
            &&& (a < j < a + 19 ==> rs[j] == destination_spawns(p.doors, 3)[j - a - 1])
            &&& (a + 19 <= j ==> rs[j] == crate::placement::treat_spawn(
                placed[j - a - 19],
                crate::placement::treat_kinds()[j - a - 19],
            ))
        }),
{
    let walls = wall_tiles(layout.tiles, 30, 660);
    let wr = collider_spawns(walls);
    let w1 = spawn_all(WorldView::empty(), wr);
    let (p, s2) = plan_rooms(layout.rooms, s);
    crate::placement::lemma_plan_rooms(layout.rooms, s);
    let placed = placed_treats(layout, 30, 22, w1, s);
    crate::grid::lemma_index(30, 22, 0, 0);
    lemma_wall_tiles(layout.tiles, 30, 22, 660);
    crate::placement::lemma_destination_records(p.doors, 3);
    crate::placement::lemma_open_tiles(layout.tiles, 30, 22, 660);
    let init = TreatState { candidates: open_tiles(layout.tiles, 30, 660), placed: Seq::empty(), rng: s2 };
    crate::placement::lemma_treat_run(init, p.camp, p.doors, landmarks(w1, p), layout.tiles, 30, 22);
    let lm = seq![camp_spawn(p.camp)] + destination_spawns(p.doors, 3);
    let ts = treat_spawns(placed);
    let rs = populate_records(layout, s);
    assert(rs == wr + lm + ts);
    let a = walls.len() as int;
    if j < a {
        assert(rs[j] == wr[j]);
    } else if j < a + 19 {
        assert(rs[j] == lm[j - a]);
        if j > a {
            assert(lm[j - a] == destination_spawns(p.doors, 3)[j - a - 1]);
        }
    } else {
        assert(rs[j] == ts[j - a - 19]);
    }
}

/// The first camp among entities whose first is a camp is that one.
proof fn lemma_camp_first(w: WorldView, es: Seq<Entity>, n: int, c: Position)
    requires
        1 <= n,
        lookup(w.kinds, es[0]) == Some(ObjectKind::Camp),
        lookup(w.positions, es[0]) == Some(c),
    ensures
        camp_upto(w, es, n) == Some(c),
    decreases n,
{
    if n > 1 {
        lemma_camp_first(w, es, n - 1, c);
    } else {
        assert(camp_upto(w, es, 0) is None);
    }
}

/// The populated world, read back: the camp comes first, the tiles a
/// collider blocks are the walls and the buildings, and every destination
/// and treat stands on a door or on a placed treat tile.
proof fn lemma_populated_world(layout: Layout, s: crate::rng::RngState)
    requires
        populated_layout(layout),
    ensures
        ({
            let walls = wall_tiles(layout.tiles, 30, 660);
            let w1 = spawn_all(WorldView::empty(), collider_spawns(walls));
            let w2 = populate_spec(layout, 30, 22, w1, s).0;
            let p = plan_rooms(layout.rooms, s).0;
            let placed = placed_treats(layout, 30, 22, w1, s);
            &&& camp_of(w2) == Some(p.camp)
            &&& forall|q: Position|
                #[trigger] blocked(w2, q) ==> (crate::grid::in_grid(30, 22, q.x as int, q.y as int)
                    && crate::grid::cell(layout.tiles, 30, q.x as int, q.y as int)) || in_some_footprint(
                    p.doors,
                    q.x as int,
                    q.y as int,
                )
            &&& forall|q: Position|
                in_some_footprint(p.doors, q.x as int, q.y as int) ==> #[trigger] blocked(w2, q)
            &&& forall|e: Entity|
                #[trigger] is_landmark(lookup(w2.kinds, e)) ==> match lookup(w2.positions, e) {
                    Some(q) => (exists|k: int| 0 <= k < 3 && #[trigger] p.doors[k] == q) || (exists|j: int|
                        0 <= j < placed.len() && #[trigger] placed[j] == q),
                    None => false,
                }
        }),
{
    let walls = wall_tiles(layout.tiles, 30, 660);
    let wr = collider_spawns(walls);
    let w1 = spawn_all(WorldView::empty(), wr);
    let (p, s2) = plan_rooms(layout.rooms, s);
    crate::placement::lemma_plan_rooms(layout.rooms, s);
    let placed = placed_treats(layout, 30, 22, w1, s);
    let lm = seq![camp_spawn(p.camp)] + destination_spawns(p.doors, 3);
    let ts = treat_spawns(placed);
    let rs = populate_records(layout, s);
    let w2 = populate_spec(layout, 30, 22, w1, s).0;
    lemma_record_at(layout, s, 0);
    crate::grid::lemma_index(30, 22, 0, 0);
    lemma_wall_tiles(layout.tiles, 30, 22, 660);
    crate::placement::lemma_destination_records(p.doors, 3);
    let a = walls.len() as int;
    // The world is the records spawned into an empty world.
    crate::world::lemma_spawn_all_concat(WorldView::empty(), wr, lm);
    crate::world::lemma_spawn_all_concat(WorldView::empty(), wr + lm, ts);
    assert(rs == wr + lm + ts);
    assert(w2 == spawn_all(WorldView::empty(), rs));
    crate::placement::lemma_spawned_from_empty(rs);
    // Doors lie well inside the grid.
    assert forall|k: int| 0 <= k < 3 implies 2 <= (#[trigger] p.doors[k]).x < 28 && 2 <= p.doors[k].y < 21 by {
        let r = layout.rooms[p.destination_rooms[k] as int];
        assert(can_host(r));
    }
    // The camp comes first among the entities with a kind.
    assert forall|j: int| 0 <= j < a implies (#[trigger] rs[j]).kind is None by {
        lemma_record_at(layout, s, j);
    }
    lemma_record_at(layout, s, a);
    crate::placement::lemma_first_kind(rs, a);
    let ce = Entity(a as u32);
    assert(keys(w2.kinds)[0] == ce);
    lemma_camp_first(w2, keys(w2.kinds), w2.kinds.len() as int, p.camp);
    // Blocked tiles.
    assert forall|q: Position| #[trigger] blocked(w2, q) implies (crate::grid::in_grid(
        30,
        22,
        q.x as int,
        q.y as int,
    ) && crate::grid::cell(layout.tiles, 30, q.x as int, q.y as int)) || in_some_footprint(
        p.doors,
        q.x as int,
        q.y as int,
    ) by {
        crate::placement::lemma_blocked_from_empty(rs, q);
        let j = choose|j: int| 0 <= j < rs.len() && (#[trigger] rs[j]).collider && rs[j].position == Some(q);
        lemma_record_at(layout, s, j);
        if j < a {
            assert(q == walls[j]);
        } else if a < j < a + 19 {
            let i = j - a - 1;
            let k = i / 6;
            assert(i % 6 != 0);
            let d = p.doors[k];
            assert(2 <= d.x < 28 && 2 <= d.y < 21);
            assert(q == footprint(d)[i % 6 - 1]);
            assert(in_footprint(p.doors[k], q.x as int, q.y as int));
        }
    }
    assert forall|q: Position| in_some_footprint(p.doors, q.x as int, q.y as int) implies #[trigger] blocked(
        w2,
        q,
    ) by {
        let k = choose|k: int| 0 <= k < p.doors.len() && #[trigger] in_footprint(p.doors[k], q.x as int, q.y as int);
        let d = p.doors[k];
        assert(2 <= d.x < 28 && 2 <= d.y < 21);
        let m: int = if q.y == d.y - 1 {
            q.x - d.x + 1
        } else if q.x == d.x - 1 {
            3
        } else {
            4
        };
        assert(q == footprint(d)[m]);
        let i = 6 * k + 1 + m;
        vstd::arithmetic::div_mod::lemma_fundamental_div_mod_converse(i, 6, k, 1 + m);
        let j = a + 1 + i;
        lemma_record_at(layout, s, j);
        assert(rs[j] == crate::placement::collider_spawn(footprint(d)[m]));
        crate::placement::lemma_blocked_from_empty(rs, q);
    }
    // Destinations and treats.
    assert forall|e: Entity| #[trigger] is_landmark(lookup(w2.kinds, e)) implies match lookup(w2.positions, e) {
        Some(q) => (exists|k: int| 0 <= k < 3 && #[trigger] p.doors[k] == q) || (exists|j: int|
            0 <= j < placed.len() && #[trigger] placed[j] == q),
        None => false,
    } by {
        let j = e.0 as int;
        assert(j < rs.len());
        lemma_record_at(layout, s, j);
        if a < j < a + 19 {
            let i = j - a - 1;
            if i % 6 == 0 {
                let k = i / 6;
                assert(p.doors[k] == lookup(w2.positions, e)->0);
            }
        } else if a + 19 <= j {
            assert(placed[j - a - 19] == lookup(w2.positions, e)->0);
        }
    }
}

/// Each entity of a populated maze that has a kind is the camp, a
/// destination on a door, or a treat on the placed tile of its record.
proof fn lemma_populated_kinds(layout: Layout, s: crate::rng::RngState, e: Entity)
    requires
        populated_layout(layout),
        ({
            let w1 = spawn_all(WorldView::empty(), collider_spawns(wall_tiles(layout.tiles, 30, 660)));
            lookup(populate_spec(layout, 30, 22, w1, s).0.kinds, e) is Some
        }),
    ensures
        ({
            let walls = wall_tiles(layout.tiles, 30, 660);
            let w1 = spawn_all(WorldView::empty(), collider_spawns(walls));
            let w2 = populate_spec(layout, 30, 22, w1, s).0;
            let p = plan_rooms(layout.rooms, s).0;
            let placed = placed_treats(layout, 30, 22, w1, s);
            let base = walls.len() + 19;
            let k = lookup(w2.kinds, e)->0;
            let q = lookup(w2.positions, e);
            ||| k == ObjectKind::Camp && q == Some(p.camp)
            ||| k is Destination && (exists|d: int| 0 <= d < 3 && q == Some(#[trigger] p.doors[d]))
            ||| k == ObjectKind::Treat && base <= e.0 < base + placed.len() && q == Some(
                placed[e.0 - base],
            )
        }),
{
    let walls = wall_tiles(layout.tiles, 30, 660);
    let wr = collider_spawns(walls);
    let w1 = spawn_all(WorldView::empty(), wr);
    let p = plan_rooms(layout.rooms, s).0;
    let placed = placed_treats(layout, 30, 22, w1, s);
    let lm = seq![camp_spawn(p.camp)] + destination_spawns(p.doors, 3);
    let ts = treat_spawns(placed);
    let rs = populate_records(layout, s);
    let w2 = populate_spec(layout, 30, 22, w1, s).0;
    lemma_record_at(layout, s, 0);
    crate::placement::lemma_destination_records(p.doors, 3);
    crate::world::lemma_spawn_all_concat(WorldView::empty(), wr, lm);
    crate::world::lemma_spawn_all_concat(WorldView::empty(), wr + lm, ts);
    assert(rs == wr + lm + ts);
    assert(w2 == spawn_all(WorldView::empty(), rs));
    crate::placement::lemma_spawned_from_empty(rs);
    let j = e.0 as int;
    assert(j < rs.len());
    lemma_record_at(layout, s, j);
    let a = walls.len() as int;
    if a < j < a + 19 {
        let i = j - a - 1;
        if i % 6 == 0 {
            assert(lookup(w2.positions, e) == Some(p.doors[i / 6]));
        }
    }
}

/// Every treat of a freshly populated maze is still to collect.
proof fn lemma_populated_uncollected(layout: Layout, s: crate::rng::RngState, e: Entity)
    requires
        populated_layout(layout),
        ({
            let w1 = spawn_all(WorldView::empty(), collider_spawns(wall_tiles(layout.tiles, 30, 660)));
            lookup(populate_spec(layout, 30, 22, w1, s).0.kinds, e) == Some(ObjectKind::Treat)
        }),
    ensures
        ({
            let w1 = spawn_all(WorldView::empty(), collider_spawns(wall_tiles(layout.tiles, 30, 660)));
            lookup(populate_spec(layout, 30, 22, w1, s).0.collected, e) == Some(Collected(false))
        }),
{
    let walls = wall_tiles(layout.tiles, 30, 660);
    let wr = collider_spawns(walls);
    let w1 = spawn_all(WorldView::empty(), wr);
    let p = plan_rooms(layout.rooms, s).0;
    let placed = placed_treats(layout, 30, 22, w1, s);
    let lm = seq![camp_spawn(p.camp)] + destination_spawns(p.doors, 3);
    let ts = treat_spawns(placed);
    let rs = populate_records(layout, s);
    let w2 = populate_spec(layout, 30, 22, w1, s).0;
    lemma_populated_kinds(layout, s, e);
    lemma_record_at(layout, s, 0);
    crate::world::lemma_spawn_all_concat(WorldView::empty(), wr, lm);
    crate::world::lemma_spawn_all_concat(WorldView::empty(), wr + lm, ts);
    assert(rs == wr + lm + ts);
    assert(w2 == spawn_all(WorldView::empty(), rs));
    crate::placement::lemma_spawned_from_empty(rs);
    lemma_record_at(layout, s, e.0 as int);
}

/// In a populated maze no treat lies within one tile of the camp, of a
/// destination door or of another treat.
proof fn lemma_treats_spread(layout: Layout, s: crate::rng::RngState, e1: Entity, e2: Entity)
    requires
        populated_layout(layout),
        ({
            let w1 = spawn_all(WorldView::empty(), collider_spawns(wall_tiles(layout.tiles, 30, 660)));
            let w2 = populate_spec(layout, 30, 22, w1, s).0;
            &&& lookup(w2.kinds, e1) == Some(ObjectKind::Treat)
            &&& lookup(w2.kinds, e2) is Some
            &&& e1 != e2
        }),
    ensures
        ({
            let w1 = spawn_all(WorldView::empty(), collider_spawns(wall_tiles(layout.tiles, 30, 660)));
            let w2 = populate_spec(layout, 30, 22, w1, s).0;
            match (lookup(w2.positions, e1), lookup(w2.positions, e2)) {
                (Some(a), Some(b)) => !near(a, b),
                _ => false,
            }
        }),
{
    let walls = wall_tiles(layout.tiles, 30, 660);
    let w1 = spawn_all(WorldView::empty(), collider_spawns(walls));
    let w2 = populate_spec(layout, 30, 22, w1, s).0;
    let (p, s2) = plan_rooms(layout.rooms, s);
    crate::placement::lemma_plan_rooms(layout.rooms, s);
    let placed = placed_treats(layout, 30, 22, w1, s);
    crate::grid::lemma_index(30, 22, 0, 0);
    crate::placement::lemma_open_tiles(layout.tiles, 30, 22, 660);
    let init = TreatState { candidates: open_tiles(layout.tiles, 30, 660), placed: Seq::empty(), rng: s2 };
    crate::placement::lemma_treat_run(init, p.camp, p.doors, landmarks(w1, p), layout.tiles, 30, 22);
    lemma_populated_kinds(layout, s, e1);
    lemma_populated_kinds(layout, s, e2);
    let base = walls.len() + 19;
    let j1 = e1.0 - base;
    let a = placed[j1];
    let b = lookup(w2.positions, e2)->0;
    assert(!near(a, p.camp));
    assert(!crate::placement::near_some(a, p.doors));
    if lookup(w2.kinds, e2) == Some(ObjectKind::Treat) {
        let j2 = e2.0 - base;
        assert(j1 != j2);
        if j2 < j1 {
            assert(placed.take(j1)[j2] == placed[j2]);
            assert(!crate::placement::near_some(a, placed.take(j1)));
        } else {
            assert(placed.take(j2)[j1] == placed[j1]);
            assert(!crate::placement::near_some(placed[j2], placed.take(j2)));
        }
    } else if lookup(w2.kinds, e2)->0 is Destination {
        let d = choose|d: int| 0 <= d < 3 && lookup(w2.positions, e2) == Some(#[trigger] p.doors[d]);
        assert(!near(a, p.doors[d]));
    }
}

/// No treat lies within one tile of the camp, of a destination door or of
/// another treat.
pub open spec fn treats_spread(w: WorldView) -> bool {
    forall|e1: Entity, e2: Entity|
        #[trigger] lookup(w.kinds, e1) == Some(ObjectKind::Treat) && #[trigger] lookup(w.kinds, e2) is Some && e1
            != e2 ==> match (lookup(w.positions, e1), lookup(w.positions, e2)) {
            (Some(a), Some(b)) => !near(a, b),
            _ => false,
        }
}

/// `(x, y, section)` of the destination records among the first `m`.
pub open spec fn door_list(rs: Seq<Spawn>, m: int) -> Seq<(i32, i32, Section)>
    decreases m,
{
    if m <= 0 {
        Seq::empty()
    } else {
        match (rs[m - 1].kind, rs[m - 1].position) {
            (Some(ObjectKind::Destination { section }), Some(p)) => door_list(rs, m - 1).push((p.x, p.y, section)),
            _ => door_list(rs, m - 1),
        }
    }
}

/// The destination list only reads the first `n` entities.
proof fn lemma_destination_infos_prefix(w: WorldView, es1: Seq<Entity>, es2: Seq<Entity>, n: int)
    requires
        forall|i: int| 0 <= i < n ==> es1[i] == es2[i],
    ensures
        destination_infos(w, es1, n) == destination_infos(w, es2, n),
    decreases n,
{
    if n > 0 {
        lemma_destination_infos_prefix(w, es1, es2, n - 1);
    }
}

/// The destination list reads only the object-kind and position tables.
proof fn lemma_destination_infos_frame(w1: WorldView, w2: WorldView, es: Seq<Entity>, n: int)
    requires
        w1.kinds == w2.kinds,
        w1.positions == w2.positions,
    ensures
        destination_infos(w1, es, n) == destination_infos(w2, es, n),
    decreases n,
{
    if n > 0 {
        lemma_destination_infos_frame(w1, w2, es, n - 1);
    }
}

/// In a world built from nothing, the destinations listed in table order
/// are the destination records in record order.
proof fn lemma_destinations_from_empty(rs: Seq<Spawn>, m: int)
    requires
        rs.len() <= u32::MAX,
        0 <= m <= rs.len(),
    ensures
        ({
            let w = spawn_all(WorldView::empty(), rs);
            let k = crate::placement::kind_entries(rs, m);
            destination_infos(w, keys(k), k.len() as int) == door_list(rs, m)
        }),
    decreases m,
{
    let w = spawn_all(WorldView::empty(), rs);
    crate::placement::lemma_spawned_from_empty(rs);
    if m > 0 {
        lemma_destinations_from_empty(rs, m - 1);
        let k0 = crate::placement::kind_entries(rs, m - 1);
        let k1 = crate::placement::kind_entries(rs, m);
        match rs[m - 1].kind {
            Some(kind) => {
                assert(k1 == k0.push((Entity((m - 1) as u32), kind)));
                lemma_destination_infos_prefix(w, keys(k1), keys(k0), k0.len() as int);
                assert(keys(k1)[k0.len() as int] == Entity((m - 1) as u32));
            },
            None => {},
        }
    }
}

/// The sections of a list of destinations, in order.
pub open spec fn sections_of(ds: Seq<(i32, i32, Section)>) -> Seq<Section> {
    Seq::new(ds.len(), |k: int| ds[k].2)
}

/// The destination records of a populated maze: one per door, with the
/// sections in order.
proof fn lemma_door_list_populated(layout: Layout, s: crate::rng::RngState)
    requires
        populated_layout(layout),
    ensures
        ({
            let p = plan_rooms(layout.rooms, s).0;
            let rs = populate_records(layout, s);
            let ds = door_list(rs, rs.len() as int);
            &&& sections_of(ds) == seq![Section::About, Section::Blog, Section::Projects]
            &&& forall|k: int| 0 <= k < 3 ==> (#[trigger] ds[k]).0 == p.doors[k].x && ds[k].1 == p.doors[k].y
        }),
{
    let walls = wall_tiles(layout.tiles, 30, 660);
    let p = plan_rooms(layout.rooms, s).0;
    let rs = populate_records(layout, s);
    lemma_record_at(layout, s, 0);
    crate::placement::lemma_destination_records(p.doors, 3);
    let a = walls.len() as int;
    lemma_door_list_walls(layout, s, a + 1);
    lemma_door_list_doors(layout, s, 18);
    lemma_door_list_treats(layout, s, rs.len() as int);
    let ds = door_list(rs, rs.len() as int);
    assert(sections_of(ds) =~= seq![Section::About, Section::Blog, Section::Projects]);
}

/// Before the first door record no destination is listed.
proof fn lemma_door_list_walls(layout: Layout, s: crate::rng::RngState, m: int)
    requires
        populated_layout(layout),
        0 <= m <= wall_tiles(layout.tiles, 30, 660).len() + 1,
    ensures
        door_list(populate_records(layout, s), m).len() == 0,
    decreases m,
{
    if m > 0 {
        lemma_door_list_walls(layout, s, m - 1);
        lemma_record_at(layout, s, m - 1);
    }
}

/// Through the destination records, one door is listed per six records.
proof fn lemma_door_list_doors(layout: Layout, s: crate::rng::RngState, i: int)
    requires
        populated_layout(layout),
        0 <= i <= 18,
    ensures
        ({
            let a = wall_tiles(layout.tiles, 30, 660).len() as int;
            let p = plan_rooms(layout.rooms, s).0;
            let ds = door_list(populate_records(layout, s), a + 1 + i);
            &&& ds.len() == (i + 5) / 6
            &&& forall|k: int|
                0 <= k < ds.len() ==> #[trigger] ds[k] == (p.doors[k].x, p.doors[k].y, crate::placement::section_at(k))
        }),
    decreases i,
{
    let a = wall_tiles(layout.tiles, 30, 660).len() as int;
    let p = plan_rooms(layout.rooms, s).0;
    let rs = populate_records(layout, s);
    lemma_record_at(layout, s, 0);
    if i == 0 {
        lemma_door_list_walls(layout, s, a + 1);
    } else {
        lemma_door_list_doors(layout, s, i - 1);
        lemma_record_at(layout, s, a + i);
        crate::placement::lemma_destination_records(p.doors, 3);
        let j = i - 1;
        let q = j / 6;
        let r = j % 6;
        vstd::arithmetic::div_mod::lemma_fundamental_div_mod(j, 6);
        assert(0 <= r < 6);
        assert(j == 6 * q + r);
        let prev = door_list(rs, a + i);
        let cur = door_list(rs, a + 1 + i);
        assert(rs[a + i] == destination_spawns(p.doors, 3)[j]);
        if r == 0 {
            vstd::arithmetic::div_mod::lemma_fundamental_div_mod_converse(j + 5, 6, q, 5);
            vstd::arithmetic::div_mod::lemma_fundamental_div_mod_converse(j + 6, 6, q + 1, 0);
            assert(cur == prev.push((p.doors[q].x, p.doors[q].y, crate::placement::section_at(q))));
        } else {
            vstd::arithmetic::div_mod::lemma_fundamental_div_mod_converse(j + 5, 6, q + 1, r - 1);
            vstd::arithmetic::div_mod::lemma_fundamental_div_mod_converse(j + 6, 6, q + 1, r);
            assert(cur == prev);
        }
    }
}

/// The treat records list no destination.
proof fn lemma_door_list_treats(layout: Layout, s: crate::rng::RngState, m: int)
    requires
        populated_layout(layout),
        wall_tiles(layout.tiles, 30, 660).len() + 19 <= m <= populate_records(layout, s).len(),
    ensures
        door_list(populate_records(layout, s), m) == door_list(
            populate_records(layout, s),
            (wall_tiles(layout.tiles, 30, 660).len() + 19) as int,
        ),
    decreases m,
{
    let a = wall_tiles(layout.tiles, 30, 660).len() as int;
    if m > a + 19 {
        lemma_door_list_treats(layout, s, m - 1);
        lemma_record_at(layout, s, m - 1);
    }
}

/// The world holds three destinations, for the sections About, Blog and
/// Projects, in table order.
pub open spec fn destinations_listed(w: WorldView) -> bool {
    sections_of(destination_infos(w, keys(w.kinds), w.kinds.len() as int)) == seq![
        Section::About,
        Section::Blog,
        Section::Projects,
    ]
}

/// A populated maze lists its three destinations, About, Blog and
/// Projects, on the doors of the plan.
proof fn lemma_destinations_populated(layout: Layout, s: crate::rng::RngState)
    requires
        populated_layout(layout),
    ensures
        ({
            let w1 = spawn_all(WorldView::empty(), collider_spawns(wall_tiles(layout.tiles, 30, 660)));
            let w2 = populate_spec(layout, 30, 22, w1, s).0;
            let p = plan_rooms(layout.rooms, s).0;
            let ds = destination_infos(w2, keys(w2.kinds), w2.kinds.len() as int);
            &&& destinations_listed(w2)
            &&& forall|k: int| 0 <= k < 3 ==> (#[trigger] ds[k]).0 == p.doors[k].x && ds[k].1 == p.doors[k].y
        }),
{
    let walls = wall_tiles(layout.tiles, 30, 660);
    let wr = collider_spawns(walls);
    let w1 = spawn_all(WorldView::empty(), wr);
    let p = plan_rooms(layout.rooms, s).0;
    let placed = placed_treats(layout, 30, 22, w1, s);
    let lm = seq![camp_spawn(p.camp)] + destination_spawns(p.doors, 3);
    let ts = treat_spawns(placed);
    let rs = populate_records(layout, s);
    let w2 = populate_spec(layout, 30, 22, w1, s).0;
    lemma_record_at(layout, s, 0);
    crate::world::lemma_spawn_all_concat(WorldView::empty(), wr, lm);
    crate::world::lemma_spawn_all_concat(WorldView::empty(), wr + lm, ts);
    assert(rs == wr + lm + ts);
    assert(w2 == spawn_all(WorldView::empty(), rs));
    crate::placement::lemma_kinds_from_empty(rs);
    lemma_destinations_from_empty(rs, rs.len() as int);
    lemma_door_list_populated(layout, s);
}

/// The maze as the player walks it: a tile counts as solid unless it is
/// walkable, open floor with no collider on it.
pub open spec fn walk_tiles(w: WorldView, maze: &Maze) -> Seq<bool> {
    Seq::new(
        maze.tiles@.len(),
        |i: int| !walkable(w, maze, i % (maze.width as int), i / (maze.width as int)),
    )
}

/// From `start`, every destination door and every treat of the world can be
/// reached by steps between walkable tiles.
pub open spec fn landmarks_reachable_from(w: WorldView, maze: &Maze, start: Position) -> bool {
    forall|e: Entity|
        #[trigger] is_landmark(lookup(w.kinds, e)) ==> match lookup(w.positions, e) {
            Some(q) => reachable(
                walk_tiles(w, maze),
                maze.width as int,
                maze.height as int,
                (start.x as int, start.y as int),
                (q.x as int, q.y as int),
            ),
            None => false,
        }
}

/// In a populated maze the player starting at the camp can walk to every
/// destination door and every treat: the buildings are the only colliders
/// besides the walls, and they leave the maze connected.
proof fn lemma_landmarks_reachable(maze: &Maze, s: crate::rng::RngState, w: WorldView)
    requires
        maze.width == 30,
        maze.height == 22,
        populated_layout(maze.layout()),
        connected(maze.tiles@, 30, 22),
        crate::maze::rooms_apart(maze.rooms@, 0),
        forall|i: int|
            0 <= i < maze.rooms@.len() ==> crate::maze::room_carved(maze.tiles@, 30, 22, #[trigger] maze.rooms@[i]),
        ({
            let w1 = spawn_all(WorldView::empty(), collider_spawns(wall_tiles(maze.tiles@, 30, 660)));
            let w2 = populate_spec(maze.layout(), 30, 22, w1, s).0;
            &&& w.kinds == w2.kinds
            &&& w.positions == w2.positions
            &&& w.colliders == w2.colliders
        }),
    ensures
        landmarks_reachable_from(w, maze, plan_rooms(maze.rooms@, s).0.camp),
        walkable(w, maze, plan_rooms(maze.rooms@, s).0.camp.x as int, plan_rooms(maze.rooms@, s).0.camp.y as int),
        camp_of(
            populate_spec(
                maze.layout(),
                30,
                22,
                spawn_all(WorldView::empty(), collider_spawns(wall_tiles(maze.tiles@, 30, 660))),
                s,
            ).0,
        ) == Some(plan_rooms(maze.rooms@, s).0.camp),
{
    let layout = maze.layout();
    let tiles = maze.tiles@;
    let w1 = spawn_all(WorldView::empty(), collider_spawns(wall_tiles(tiles, 30, 660)));
    let w2 = populate_spec(layout, 30, 22, w1, s).0;
    let p = plan_rooms(layout.rooms, s).0;
    let placed = placed_treats(layout, 30, 22, w1, s);
    crate::placement::lemma_plan_reachable(layout, 30, 22, w1, s);
    crate::placement::lemma_plan_rooms(layout.rooms, s);
    lemma_populated_world(layout, s);
    let t2 = with_buildings(tiles, 30, p.doors);
    let walk = walk_tiles(w, maze);
    crate::routes::lemma_with_buildings(tiles, 30, 22, p.doors);
    assert forall|x: int, y: int| crate::grid::in_grid(30, 22, x, y) implies #[trigger] crate::grid::cell(
        walk,
        30,
        x,
        y,
    ) == crate::grid::cell(t2, 30, x, y) by {
        crate::grid::lemma_index(30, 22, x, y);
        let q = Position { x: x as i32, y: y as i32 };
        assert(blocked(w, q) == blocked(w2, q));
        assert(crate::grid::cell(walk, 30, x, y) == !walkable(w, maze, x, y));
        assert(crate::grid::is_open(t2, 30, 22, x, y) == (crate::grid::is_open(tiles, 30, 22, x, y)
            && !in_some_footprint(p.doors, x, y)));
        if in_some_footprint(p.doors, x, y) {
            assert(in_some_footprint(p.doors, q.x as int, q.y as int));
            assert(blocked(w2, q));
        }
    }
    crate::grid::lemma_grid_ext(walk, t2, 30, 22);
    assert(crate::grid::is_open(t2, 30, 22, p.camp.x as int, p.camp.y as int));
    assert(crate::grid::cell(walk, 30, p.camp.x as int, p.camp.y as int) == crate::grid::cell(
        t2,
        30,
        p.camp.x as int,
        p.camp.y as int,
    ));
    assert forall|e: Entity| #[trigger] is_landmark(lookup(w.kinds, e)) implies match lookup(w.positions, e) {
        Some(q) => reachable(walk, 30, 22, (p.camp.x as int, p.camp.y as int), (q.x as int, q.y as int)),
        None => false,
    } by {
        assert(is_landmark(lookup(w2.kinds, e)));
        let q = lookup(w2.positions, e)->0;
        if exists|k: int| 0 <= k < 3 && #[trigger] p.doors[k] == q {
            let k = choose|k: int| 0 <= k < 3 && #[trigger] p.doors[k] == q;
            assert(reachable(t2, 30, 22, (p.camp.x as int, p.camp.y as int), (p.doors[k].x as int, p.doors[k].y as int)));
        } else {
            let j = choose|j: int| 0 <= j < placed.len() && #[trigger] placed[j] == q;
            assert(reachable(t2, 30, 22, (p.camp.x as int, p.camp.y as int), (placed[j].x as int, placed[j].y as int)));
        }
    }
}

/// The rooms of a maze carved with the default configuration: they lie in
/// the grid's interior with sides of five to eight tiles, are carved open
/// and share no tile.
pub open spec fn default_rooms(layout: Layout) -> bool {
    &&& crate::maze::rooms_apart(layout.rooms, 0)
    &&& forall|i: int|
        0 <= i < layout.rooms.len() ==> crate::maze::room_fits(
            #[trigger] layout.rooms[i],
            crate::maze::root_region(default_config()),
            default_config(),
        ) && crate::maze::room_carved(layout.tiles, 30, 22, layout.rooms[i])
}

/// A tile two tiles from the center of a room of the default maze lies in
/// the room, is open, and is within one tile of no room's center.
proof fn lemma_ring_tile(layout: Layout, i: int, t: Position)
    requires
        default_rooms(layout),
        0 <= i < layout.rooms.len(),
        crate::placement::ring(room_center(layout.rooms[i])).contains(t),
    ensures
        crate::maze::in_room(layout.rooms[i], t.x as int, t.y as int),
        crate::grid::is_open(layout.tiles, 30, 22, t.x as int, t.y as int),
        forall|j: int| 0 <= j < layout.rooms.len() ==> !near(t, #[trigger] room_center(layout.rooms[j])),
{
    let r = layout.rooms[i];
    let c = room_center(r);
    assert(crate::maze::room_fits(r, crate::maze::root_region(default_config()), default_config()));
    crate::placement::lemma_ring(c);
    assert(crate::maze::in_room(r, t.x as int, t.y as int));
    assert forall|j: int| 0 <= j < layout.rooms.len() implies !near(t, #[trigger] room_center(layout.rooms[j])) by {
        if j != i {
            let r2 = layout.rooms[j];
            assert(crate::maze::room_fits(r2, crate::maze::root_region(default_config()), default_config()));
            assert(crate::maze::separated(r, r2));
        }
    }
}

/// The tiles two tiles from the center of room `i`.
pub open spec fn room_ring(rooms: Seq<Room>, i: usize) -> Set<Position> {
    crate::placement::ring(room_center(rooms[i as int]))
}

/// The tiles two tiles from the centers of the camp room and the three
/// destination rooms of a plan.
pub open spec fn plan_rings(rooms: Seq<Room>, p: crate::placement::Plan) -> Set<Position> {
    room_ring(rooms, p.camp_room) + room_ring(rooms, p.destination_rooms[0]) + room_ring(
        rooms,
        p.destination_rooms[1],
    ) + room_ring(rooms, p.destination_rooms[2])
}

/// The four planned rooms are distinct rooms of the default maze, so their
/// rings share no tile and hold sixty-four tiles.
proof fn lemma_plan_rings(layout: Layout, s: crate::rng::RngState)
    requires
        populated_layout(layout),
        default_rooms(layout),
    ensures
        plan_rings(layout.rooms, plan_rooms(layout.rooms, s).0).finite(),
        plan_rings(layout.rooms, plan_rooms(layout.rooms, s).0).len() == 64,
{
    let rooms = layout.rooms;
    let p = plan_rooms(rooms, s).0;
    crate::placement::lemma_plan_rooms(rooms, s);
    let ids = seq![p.camp_room, p.destination_rooms[0], p.destination_rooms[1], p.destination_rooms[2]];
    assert forall|m: int| 0 <= m < 4 implies (#[trigger] ids[m] as int) < rooms.len() by {}
    assert forall|m: int| 0 <= m < 4 implies #[trigger] room_ring(rooms, ids[m]).finite() && room_ring(
        rooms,
        ids[m],
    ).len() == 16 by {
        let r = rooms[ids[m] as int];
        assert(crate::maze::room_fits(r, crate::maze::root_region(default_config()), default_config()));
        crate::placement::lemma_ring(room_center(r));
    }
    assert forall|m1: int, m2: int| 0 <= m1 < 4 && 0 <= m2 < 4 && m1 != m2 implies #[trigger] room_ring(
        rooms,
        ids[m1],
    ).disjoint(#[trigger] room_ring(rooms, ids[m2])) by {
        assert(ids[m1] != ids[m2]);
        assert forall|t: Position| #[trigger] room_ring(rooms, ids[m1]).contains(t) implies !room_ring(
            rooms,
            ids[m2],
        ).contains(t) by {
            lemma_ring_tile(layout, ids[m1] as int, t);
            if room_ring(rooms, ids[m2]).contains(t) {
                lemma_ring_tile(layout, ids[m2] as int, t);
                assert(crate::maze::separated(rooms[ids[m1] as int], rooms[ids[m2] as int]));
            }
        }
    }
    let r0 = room_ring(rooms, ids[0]);
    let r1 = room_ring(rooms, ids[1]);
    let r2 = room_ring(rooms, ids[2]);
    let r3 = room_ring(rooms, ids[3]);
    assert(r0.disjoint(r1) && r0.disjoint(r2) && r0.disjoint(r3) && r1.disjoint(r2) && r1.disjoint(r3)
        && r2.disjoint(r3));
    vstd::set_lib::lemma_set_disjoint_lens(r0, r1);
    assert((r0 + r1).disjoint(r2));
    vstd::set_lib::lemma_set_disjoint_lens(r0 + r1, r2);
    assert((r0 + r1 + r2).disjoint(r3));
    vstd::set_lib::lemma_set_disjoint_lens(r0 + r1 + r2, r3);
    assert(plan_rings(rooms, p) == r0 + r1 + r2 + r3);
}

/// A tile of a planned room's ring is a treat candidate that neither the
/// camp, nor a door, nor a collider turns down.
proof fn lemma_ring_candidate(layout: Layout, s: crate::rng::RngState, t: Position)
    requires
        populated_layout(layout),
        default_rooms(layout),
        plan_rings(layout.rooms, plan_rooms(layout.rooms, s).0).contains(t),
    ensures
        ({
            let w1 = spawn_all(WorldView::empty(), collider_spawns(wall_tiles(layout.tiles, 30, 660)));
            let p = plan_rooms(layout.rooms, s).0;
            &&& open_tiles(layout.tiles, 30, 660).contains(t)
            &&& !near(t, p.camp)
            &&& !crate::placement::near_some(t, p.doors)
            &&& !blocked(landmarks(w1, p), t)
        }),
{
    let rooms = layout.rooms;
    let walls = wall_tiles(layout.tiles, 30, 660);
    let wr = collider_spawns(walls);
    let w1 = spawn_all(WorldView::empty(), wr);
    let p = plan_rooms(rooms, s).0;
    crate::placement::lemma_plan_rooms(rooms, s);
    let lm = seq![camp_spawn(p.camp)] + destination_spawns(p.doors, 3);
    let lw = landmarks(w1, p);
    let i: int = if room_ring(rooms, p.camp_room).contains(t) {
        p.camp_room as int
    } else if room_ring(rooms, p.destination_rooms[0]).contains(t) {
        p.destination_rooms[0] as int
    } else if room_ring(rooms, p.destination_rooms[1]).contains(t) {
        p.destination_rooms[1] as int
    } else {
        p.destination_rooms[2] as int
    };
    assert(0 <= i < rooms.len());
    lemma_ring_tile(layout, i, t);
    crate::grid::lemma_index(30, 22, t.x as int, t.y as int);
    crate::grid::lemma_index(30, 22, 0, 0);
    crate::placement::lemma_open_tiles_complete(layout.tiles, 30, 22, 660, t.y * 30 + t.x);
    assert(!near(t, room_center(rooms[p.camp_room as int])));
    assert(!crate::placement::near_some(t, p.doors)) by {
        if crate::placement::near_some(t, p.doors) {
            let k = choose|k: int| 0 <= k < p.doors.len() && near(t, #[trigger] p.doors[k]);
            assert(!near(t, room_center(rooms[p.destination_rooms[k] as int])));
        }
    }
    assert(!blocked(lw, t)) by {
        if blocked(lw, t) {
            lemma_populated_world(layout, s);
            lemma_record_at(layout, s, 0);
            let placed = placed_treats(layout, 30, 22, w1, s);
            let ts = treat_spawns(placed);
            let rs = populate_records(layout, s);
            crate::world::lemma_spawn_all_concat(WorldView::empty(), wr, lm);
            crate::world::lemma_spawn_all_concat(WorldView::empty(), wr + lm, ts);
            assert(rs == wr + lm + ts);
            let w2 = populate_spec(layout, 30, 22, w1, s).0;
            assert(w2 == spawn_all(WorldView::empty(), rs));
            assert(lw == spawn_all(WorldView::empty(), wr + lm));
            crate::placement::lemma_blocked_from_empty(wr + lm, t);
            let j = choose|j: int| 0 <= j < (wr + lm).len() && (#[trigger] (wr + lm)[j]).collider && (wr
                + lm)[j].position == Some(t);
            assert(rs[j] == (wr + lm)[j]);
            crate::placement::lemma_blocked_from_empty(rs, t);
            assert(blocked(w2, t));
            if in_some_footprint(p.doors, t.x as int, t.y as int) {
                let k = choose|k: int| 0 <= k < p.doors.len() && #[trigger] in_footprint(
                    p.doors[k],
                    t.x as int,
                    t.y as int,
                );
                assert(near(t, p.doors[k]));
                assert(!near(t, room_center(rooms[p.destination_rooms[k] as int])));
            }
        }
    }
}

/// In a maze carved with the default configuration every treat of the
/// inventory finds a tile: the sixteen tiles two tiles from the center of
/// each of the four planned rooms stay candidates, and fewer than eight
/// treats could not turn all sixty-four of them down.
proof fn lemma_all_treats_placed(layout: Layout, s: crate::rng::RngState)
    requires
        populated_layout(layout),
        default_rooms(layout),
    ensures
        placed_treats(
            layout,
            30,
            22,
            spawn_all(WorldView::empty(), collider_spawns(wall_tiles(layout.tiles, 30, 660))),
            s,
        ).len() == crate::placement::TREAT_COUNT,
{
    let rooms = layout.rooms;
    let w1 = spawn_all(WorldView::empty(), collider_spawns(wall_tiles(layout.tiles, 30, 660)));
    let (p, s1) = plan_rooms(rooms, s);
    let lw = landmarks(w1, p);
    let cands = open_tiles(layout.tiles, 30, 660);
    let init = TreatState { candidates: cands, placed: Seq::empty(), rng: s1 };
    let f = treat_run(init, p.camp, p.doors, lw);
    crate::grid::lemma_index(30, 22, 0, 0);
    crate::placement::lemma_open_tiles(layout.tiles, 30, 22, 660);
    crate::placement::lemma_treat_run(init, p.camp, p.doors, lw, layout.tiles, 30, 22);
    crate::placement::lemma_treat_run_exhausts(init, p.camp, p.doors, lw);
    if f.placed.len() < 8 {
        let big = plan_rings(rooms, p);
        lemma_plan_rings(layout, s);
        assert forall|t: Position| big.contains(t) implies crate::placement::windows(f.placed).contains(t) by {
            lemma_ring_candidate(layout, s, t);
            assert(cands.contains(t));
            if f.placed.contains(t) {
                let k = choose|k: int| 0 <= k < f.placed.len() && f.placed[k] == t;
                crate::placement::lemma_windows_cover(f.placed, t, k);
            } else {
                let k = choose|k: int| 0 <= k < f.placed.len() && near(t, #[trigger] f.placed[k]);
                crate::placement::lemma_windows_cover(f.placed, t, k);
            }
        }
        crate::placement::lemma_windows_size(f.placed);
        vstd::set_lib::lemma_len_subset(big, crate::placement::windows(f.placed));
        assert(false);
    }
}

/// The treats among the first `m` records, as the treat list reports them.
pub open spec fn treat_list(rs: Seq<Spawn>, m: int) -> Seq<TreatInfo>
    decreases m,
{
    if m <= 0 {
        Seq::empty()
    } else {
        match (rs[m - 1].kind, rs[m - 1].position, rs[m - 1].treat) {
            (Some(ObjectKind::Treat), Some(p), Some(t)) => treat_list(rs, m - 1).push(
                TreatInfo { x: p.x, y: p.y, kind: t.kind },
            ),
            _ => treat_list(rs, m - 1),
        }
    }
}

/// The treat list only reads the first `n` entities.
proof fn lemma_treat_infos_prefix(w: WorldView, es1: Seq<Entity>, es2: Seq<Entity>, n: int, live_only: bool)
    requires
        forall|i: int| 0 <= i < n ==> es1[i] == es2[i],
    ensures
        treat_infos(w, es1, n, live_only) == treat_infos(w, es2, n, live_only),
    decreases n,
{
    if n > 0 {
        lemma_treat_infos_prefix(w, es1, es2, n - 1, live_only);
    }
}

/// The treat list reads only the kind, position, treat and collected tables.
proof fn lemma_treat_infos_frame(w1: WorldView, w2: WorldView, es: Seq<Entity>, n: int, live_only: bool)
    requires
        w1.kinds == w2.kinds,
        w1.positions == w2.positions,
        w1.treats == w2.treats,
        w1.collected == w2.collected,
    ensures
        treat_infos(w1, es, n, live_only) == treat_infos(w2, es, n, live_only),
    decreases n,
{
    if n > 0 {
        lemma_treat_infos_frame(w1, w2, es, n - 1, live_only);
    }
}

/// In a world built from nothing, the treats listed in table order are the
/// treat records in record order.
proof fn lemma_treats_from_empty(rs: Seq<Spawn>, m: int)
    requires
        rs.len() <= u32::MAX,
        0 <= m <= rs.len(),
    ensures
        ({
            let w = spawn_all(WorldView::empty(), rs);
            let k = crate::placement::kind_entries(rs, m);
            treat_infos(w, keys(k), k.len() as int, false) == treat_list(rs, m)
        }),
    decreases m,
{
    let w = spawn_all(WorldView::empty(), rs);
    crate::placement::lemma_spawned_from_empty(rs);
    if m > 0 {
        lemma_treats_from_empty(rs, m - 1);
        let k0 = crate::placement::kind_entries(rs, m - 1);
        let k1 = crate::placement::kind_entries(rs, m);
        match rs[m - 1].kind {
            Some(kind) => {
                assert(k1 == k0.push((Entity((m - 1) as u32), kind)));
                lemma_treat_infos_prefix(w, keys(k1), keys(k0), k0.len() as int, false);
                assert(keys(k1)[k0.len() as int] == Entity((m - 1) as u32));
            },
            None => {},
        }
    }
}

/// No treat is listed before the first treat record of a populated maze.
proof fn lemma_treat_list_landmarks(layout: Layout, s: crate::rng::RngState, m: int)
    requires
        populated_layout(layout),
        0 <= m <= wall_tiles(layout.tiles, 30, 660).len() + 19,
    ensures
        treat_list(populate_records(layout, s), m).len() == 0,
    decreases m,
{
    if m > 0 {
        lemma_treat_list_landmarks(layout, s, m - 1);
        lemma_record_at(layout, s, 0);
        lemma_record_at(layout, s, m - 1);
        let a = wall_tiles(layout.tiles, 30, 660).len() as int;
        let p = plan_rooms(layout.rooms, s).0;
        crate::placement::lemma_destination_records(p.doors, 3);
        if a < m - 1 {
            let i = m - 1 - a - 1;
            assert(destination_spawns(p.doors, 3)[i] == if i % 6 == 0 {
                crate::placement::door_spawn(p.doors[i / 6], crate::placement::section_at(i / 6))
            } else {
                crate::placement::collider_spawn(footprint(p.doors[i / 6])[i % 6 - 1])
            });
        }
    }
}

/// Through the treat records, one treat is listed per record, on its placed
/// tile and of the inventory's kind at its place.
proof fn lemma_treat_list_treats(layout: Layout, s: crate::rng::RngState, i: int)
    requires
        populated_layout(layout),
        0 <= i <= placed_treats(
            layout,
            30,
            22,
            spawn_all(WorldView::empty(), collider_spawns(wall_tiles(layout.tiles, 30, 660))),
            s,
        ).len(),
    ensures
        ({
            let a = wall_tiles(layout.tiles, 30, 660).len() as int;
            let placed = placed_treats(
                layout,
                30,
                22,
                spawn_all(WorldView::empty(), collider_spawns(wall_tiles(layout.tiles, 30, 660))),
                s,
            );
            let ts = treat_list(populate_records(layout, s), a + 19 + i);
            &&& ts.len() == i
            &&& forall|j: int|
                0 <= j < i ==> #[trigger] ts[j] == TreatInfo {
                    x: placed[j].x,
                    y: placed[j].y,
                    kind: crate::placement::treat_kinds()[j],
                }
        }),
    decreases i,
{
    let a = wall_tiles(layout.tiles, 30, 660).len() as int;
    if i == 0 {
        lemma_treat_list_landmarks(layout, s, a + 19);
    } else {
        lemma_treat_list_treats(layout, s, i - 1);
        lemma_record_at(layout, s, 0);
        lemma_record_at(layout, s, a + 19 + i - 1);
    }
}

/// The kinds of the treats a world lists, in table order.
pub open spec fn stocked_kinds(w: WorldView) -> Seq<TreatKind> {
    let ts = treat_infos(w, keys(w.kinds), w.kinds.len() as int, false);
    Seq::new(ts.len(), |k: int| ts[k].kind)
}

/// Total score value of a list of treat kinds.
pub open spec fn kinds_value(ks: Seq<TreatKind>) -> int
    decreases ks.len(),
{
    if ks.len() == 0 {
        0
    } else {
        kinds_value(ks.drop_last()) + treat_value(ks.last())
    }
}

/// The treat inventory is worth 750 points in all.
pub proof fn lemma_inventory_worth()
    ensures
        kinds_value(crate::placement::treat_kinds()) == 750,
{
    let ks = crate::placement::treat_kinds();
    assert(ks.take(0).len() == 0);
    reveal_with_fuel(kinds_value, 9);
    assert(ks.drop_last().drop_last().drop_last().drop_last().drop_last().drop_last().drop_last().drop_last()
        =~= Seq::<TreatKind>::empty());
}

/// A populated maze lists one treat per placed tile, with the inventory's
/// kinds in order.
proof fn lemma_treats_populated(layout: Layout, s: crate::rng::RngState)
    requires
        populated_layout(layout),
    ensures
        ({
            let w1 = spawn_all(WorldView::empty(), collider_spawns(wall_tiles(layout.tiles, 30, 660)));
            let w2 = populate_spec(layout, 30, 22, w1, s).0;
            let placed = placed_treats(layout, 30, 22, w1, s);
            stocked_kinds(w2) == crate::placement::treat_kinds().take(placed.len() as int)
        }),
{
    let walls = wall_tiles(layout.tiles, 30, 660);
    let wr = collider_spawns(walls);
    let w1 = spawn_all(WorldView::empty(), wr);
    let p = plan_rooms(layout.rooms, s).0;
    let placed = placed_treats(layout, 30, 22, w1, s);
    let lm = seq![camp_spawn(p.camp)] + destination_spawns(p.doors, 3);
    let ts = treat_spawns(placed);
    let rs = populate_records(layout, s);
    let w2 = populate_spec(layout, 30, 22, w1, s).0;
    lemma_record_at(layout, s, 0);
    crate::world::lemma_spawn_all_concat(WorldView::empty(), wr, lm);
    crate::world::lemma_spawn_all_concat(WorldView::empty(), wr + lm, ts);
    assert(rs == wr + lm + ts);
    assert(w2 == spawn_all(WorldView::empty(), rs));
    crate::placement::lemma_kinds_from_empty(rs);
    lemma_treats_from_empty(rs, rs.len() as int);
    let a = walls.len() as int;
    lemma_treat_list_treats(layout, s, placed.len() as int);
    assert(rs.len() == a + 19 + placed.len());
    assert(stocked_kinds(w2) =~= crate::placement::treat_kinds().take(placed.len() as int));
}

impl Engine {
    /// The engine holds exactly what the seed produces: the maze, the
    /// populated world, and the player at the camp.
    pub open spec fn from_seed(&self, seed: u64) -> bool {
        let (layout, w2, camp) = seeded(seed);
        &&& self.maze.layout() == layout
        &&& self.maze.width == 30
        &&& self.maze.height == 22
        &&& self.player == Entity(w2.next)
        &&& self.world@ == spawn_one(w2, player_spawn(camp))
        &&& self.active_destination_href is None
        &&& self.pending_navigation is None
        &&& self.last_collected_treat is None
        &&& self.treat_message_frames == 0
    }

    /// From the player's tile every destination door and every treat can be
    /// reached by steps between walkable tiles.
    pub open spec fn landmarks_reachable(&self) -> bool {
        match tile_of(self.world@, self.player) {
            Some(start) => landmarks_reachable_from(self.world@, &self.maze, start),
            None => false,
        }
    }

    /// Build a fresh engine for the seed. The same seed reproduces the same
    /// maze, treat placement and destination layout.
    #[verifier::rlimit(40)]
    pub fn new(seed: u64) -> (engine: Engine)
        ensures
            engine.wf(),
            engine.from_seed(seed),
            engine.landmarks_reachable(),
            treats_spread(engine.world@),
            destinations_listed(engine.world@),
            // The whole treat inventory is placed, worth 750 points in all.
            stocked_kinds(engine.world@) == crate::placement::treat_kinds(),
            kinds_value(stocked_kinds(engine.world@)) == 750,
    {
        let mut rng = Rng::from_seed(seed);
        let mut world = World::new();
        let config = MazeConfig::default();
        let maze = Maze::new(config, &mut rng);
        let ghost s1 = rng@;
        proof {
            assert(config == default_config());
            crate::grid::lemma_index(30, 22, 0, 0);
            assert(maze.tiles@.len() == 660);
            assert(wall_tiles(maze.tiles@, 30, 660).len() <= 660 && spawns_bounded(
                collider_spawns(wall_tiles(maze.tiles@, 30, 660)),
            )) by {
                lemma_wall_tiles(maze.tiles@, 30, 22, 660);
            }
            crate::world::lemma_spawn_all(world@, collider_spawns(wall_tiles(maze.tiles@, 30, 660)));
        }
        maze.spawn_walls(&mut world);
        let ghost w1 = world@;
        proof {
            assert(forall|i: int| 0 <= i < maze.rooms@.len() ==> can_host(#[trigger] maze.rooms@[i]));
            lemma_all_hostable(maze.rooms@, maze.rooms@.len() as int);
            assert(rooms_on_grid(&maze));
            assert(positions_bounded(WorldView::empty()));
            lemma_spawn_all_bounded(WorldView::empty(), collider_spawns(wall_tiles(maze.tiles@, 30, 660)));
            assert(maze.rooms@.len() >= 4);
        }
        maze.populate(&mut world, &mut rng);
        let ghost w2 = world@;
        proof {
            assert(maze.layout().rooms.len() == maze.rooms.len());
            lemma_populate_bounded(maze.layout(), 30, 22, w1, s1);
            crate::systems::lemma_remaining_bound(w2, keys(w2.kinds), w2.kinds.len() as int);
            lemma_camp_upto_bounded(w2, keys(w2.kinds), w2.kinds.len() as int);
            crate::world::lemma_spawn_all(w1, Seq::empty());
        }
        let camp_pos = match find_camp(&world) {
            Some(p) => p,
            None => Position { x: 1, y: 1 },
        };
        proof {
            crate::world::lemma_spawn_one(w2, player_spawn(camp_pos));
        }
        let player = world.spawn();
        let motion = GridMotion {
            tile_x: camp_pos.x,
            tile_y: camp_pos.y,
            active_direction: None,
            buffered_direction: None,
            frames_remaining: 0,
        };
        proof {
            crate::world::lemma_fresh_upsert(w2.motions, player, motion);
            crate::world::lemma_fresh_upsert(w2.players, player, Player { score: 0, just_collected_treat: false });
            crate::world::lemma_fresh_upsert(w2.sprites, player, Sprite(SpriteId::PlayerRaccoon));
        }
        world.insert(player, motion);
        world.insert(player, Player::default());
        world.insert(player, Sprite(SpriteId::PlayerRaccoon));
        proof {
            assert(world@ =~= spawn_one(w2, player_spawn(camp_pos)));
            let w3 = world@;
            assert(w3.kinds == w2.kinds && w3.collected == w2.collected);
            lemma_remaining_frame(w3, w2, keys(w2.kinds), w2.kinds.len() as int);
            crate::world::lemma_key_index(w3.motions, player, w2.motions.len() as int);
            crate::world::lemma_key_index(w3.players, player, w2.players.len() as int);
            assert(positions_bounded(w3));
            let camp = plan_rooms(maze.rooms@, s1).0.camp;
            assert(landmarks_reachable_from(w3, &maze, camp) && camp_of(w2) == Some(camp) && walkable(
                w3,
                &maze,
                camp.x as int,
                camp.y as int,
            )) by {
                assert(w3.positions == w2.positions && w3.colliders == w2.colliders);
                lemma_landmarks_reachable(&maze, s1, w3);
            }
            assert(tile_of(w3, player) == Some(camp));
            assert(stocked_kinds(w3) == crate::placement::treat_kinds()) by {
                assert(default_rooms(maze.layout()));
                lemma_all_treats_placed(maze.layout(), s1);
                lemma_treats_populated(maze.layout(), s1);
                lemma_treat_infos_frame(w3, w2, keys(w2.kinds), w2.kinds.len() as int, false);
                assert(crate::placement::treat_kinds().take(8) =~= crate::placement::treat_kinds());
            }
            lemma_inventory_worth();
            assert(destinations_listed(w3)) by {
                lemma_destinations_populated(maze.layout(), s1);
                lemma_destination_infos_frame(w3, w2, keys(w2.kinds), w2.kinds.len() as int);
            }
            assert(collected_value(w3) == 0) by {
                let es = keys(w3.kinds);
                assert forall|i: int|
                    0 <= i < w3.kinds.len() implies #[trigger] lookup(w3.kinds, es[i]) == Some(ObjectKind::Treat)
                    ==> lookup(w3.collected, es[i]) != Some(Collected(true)) by {
                    if lookup(w3.kinds, es[i]) == Some(ObjectKind::Treat) {
                        lemma_populated_uncollected(maze.layout(), s1, es[i]);
                    }
                }
                lemma_collected_none(w3, es, w3.kinds.len() as int);
            }
            crate::world::lemma_key_index(w3.players, player, w2.players.len() as int);
            assert forall|e1: Entity, e2: Entity|
                #[trigger] lookup(w3.kinds, e1) == Some(ObjectKind::Treat) && #[trigger] lookup(w3.kinds, e2) is Some
                    && e1 != e2 implies match (lookup(w3.positions, e1), lookup(w3.positions, e2)) {
                (Some(a), Some(b)) => !near(a, b),
                _ => false,
            } by {
                lemma_treats_spread(maze.layout(), s1, e1, e2);
            }
        }
        Engine {
            world,
            maze,
            player,
            active_destination_href: None,
            pending_navigation: None,
            last_collected_treat: None,
            treat_message_frames: 0,
        }
    }

    /// One-time geometry and static-object snapshot for the renderer.
    pub fn init_state(&self) -> (r: InitState)
        requires
            self.world@.wf(),
        ensures
            ({
                let w = self.world@;
                let camp = match camp_of(w) {
                    Some(p) => p,
                    None => Position { x: 1, y: 1 },
                };
                &&& r.protocol_version == PROTOCOL_VERSION
                &&& r.width == self.maze.width
                &&& r.height == self.maze.height
                &&& r.tile_size == TILE_PIXELS
                &&& r.walls@ == wall_infos(w, keys(w.colliders), w.colliders.len() as int)
                &&& r.camp == (TilePos { x: camp.x, y: camp.y })
                &&& r.player_start == match lookup(w.motions, self.player) {
                    Some(m) => TilePos { x: m.tile_x, y: m.tile_y },
                    None => TilePos { x: camp.x, y: camp.y },
                }
                &&& destination_view(r.destinations@) == destination_text(
                    destination_infos(w, keys(w.kinds), w.kinds.len() as int),
                )
                &&& r.treats@ == treat_infos(w, keys(w.kinds), w.kinds.len() as int, false)
            }),
    {
        let walls = collect_walls(&self.world);
        let camp = match find_camp(&self.world) {
            Some(p) => p,
            None => Position { x: 1, y: 1 },
        };
        let destinations = collect_destinations(&self.world);
        let treats = collect_treats(&self.world);

        let player_start = match self.world.component::<GridMotion>(self.player) {
            Some(motion) => TilePos::new(motion.tile_x, motion.tile_y),
            None => TilePos::new(camp.x, camp.y),
        };

        InitState {
            protocol_version: PROTOCOL_VERSION,
            width: self.maze.width,
            height: self.maze.height,
            tile_size: TILE_PIXELS,
            walls,
            camp: TilePos::new(camp.x, camp.y),
            player_start,
            destinations,
            treats,
        }
    }
}

/// The treat-message counter after `i` steps that collect nothing, each
/// counting it down by one, but not below zero.
pub open spec fn quiet_frames(frames: u32, i: nat) -> u32
    decreases i,
{
    if i == 0 {
        frames
    } else {
        let f = quiet_frames(frames, (i - 1) as nat);
        if f > 0 {
            (f - 1) as u32
        } else {
            0
        }
    }
}

/// The counter a step shows its status with: `TREAT_MESSAGE_FRAMES` on a
/// step that collects a treat (`i == 0`), and on the `i`-th following step
/// that collects nothing, what the counting down has left.
pub open spec fn message_frames(i: nat) -> u32 {
    if i == 0 {
        TREAT_MESSAGE_FRAMES
    } else {
        quiet_frames((TREAT_MESSAGE_FRAMES - 1) as u32, (i - 1) as nat)
    }
}

pub proof fn lemma_quiet_frames(frames: u32, i: nat)
    ensures
        quiet_frames(frames, i) == if i < frames {
            (frames - i) as u32
        } else {
            0u32
        },
    decreases i,
{
    if i > 0 {
        lemma_quiet_frames(frames, (i - 1) as nat);
    }
}

/// After a step that collects a treat of kind `k`, the status names `k` and
/// its value on that step and the next 89 steps that collect nothing:
/// `TREAT_MESSAGE_FRAMES` steps in all. On the 90th such step the message is
/// gone and the status is what it would be with no treat ever collected.
pub proof fn lemma_treat_message_lasts(k: TreatKind, i: nat, href: Option<Seq<char>>, at_camp: bool)
    ensures
        i < TREAT_MESSAGE_FRAMES ==> status_text(message_frames(i), Some(k), href, at_camp) == treat_name(k)
            + " acquired! +"@ + decimal(treat_value(k) as nat),
        i >= TREAT_MESSAGE_FRAMES ==> status_text(message_frames(i), Some(k), href, at_camp) == status_text(
            0,
            None,
            href,
            at_camp,
        ),
{
    if i > 0 {
        lemma_quiet_frames((TREAT_MESSAGE_FRAMES - 1) as u32, (i - 1) as nat);
    }
}

/// The treat-message part of a step from `a` to `b` that collected `kind`
/// (if any) and showed `status`, with the destination link `href` and the
/// camp flag the step saw: a collection sets the counter to
/// `TREAT_MESSAGE_FRAMES`, the status is read with the counter, and the
/// counter then goes down by one, but not below zero.
pub open spec fn message_step(
    a: &Engine,
    b: &Engine,
    kind: Option<TreatKind>,
    status: Seq<char>,
    href: Option<Seq<char>>,
    at_camp: bool,
) -> bool {
    let last = if kind is Some {
        kind
    } else {
        a.last_collected_treat
    };
    let frames = if kind is Some {
        TREAT_MESSAGE_FRAMES
    } else {
        a.treat_message_frames
    };
    &&& b.last_collected_treat == last
    &&& b.treat_message_frames == if frames > 0 {
        (frames - 1) as u32
    } else {
        0
    }
    &&& status == status_text(frames, last, href, at_camp)
}

/// Over a run of steps, the first of which collects a treat of kind `k` and
/// the others nothing, the status names `k` and its value on the first
/// `TREAT_MESSAGE_FRAMES` steps, and from then on it is what it would be
/// with no treat ever collected.
pub proof fn lemma_treat_message_run(
    es: Seq<Engine>,
    kinds: Seq<Option<TreatKind>>,
    statuses: Seq<Seq<char>>,
    hrefs: Seq<Option<Seq<char>>>,
    camps: Seq<bool>,
    k: TreatKind,
)
    requires
        es.len() == kinds.len() + 1,
        statuses.len() == kinds.len(),
        hrefs.len() == kinds.len(),
        camps.len() == kinds.len(),
        forall|i: int|
            0 <= i < kinds.len() ==> message_step(
                &es[i],
                &es[i + 1],
                #[trigger] kinds[i],
                statuses[i],
                hrefs[i],
                camps[i],
            ),
        kinds.len() > 0 ==> kinds[0] == Some(k),
        forall|i: int| 1 <= i < kinds.len() ==> #[trigger] kinds[i] is None,
    ensures
        forall|i: int|
            0 <= i < kinds.len() && i < TREAT_MESSAGE_FRAMES ==> #[trigger] statuses[i] == treat_name(k)
                + " acquired! +"@ + decimal(treat_value(k) as nat),
        forall|i: int|
            0 <= i < kinds.len() && i >= TREAT_MESSAGE_FRAMES ==> #[trigger] statuses[i] == status_text(
                0,
                None,
                hrefs[i],
                camps[i],
            ),
    decreases kinds.len(),
{
    if kinds.len() > 0 {
        let n = kinds.len() - 1;
        lemma_treat_message_run(es.drop_last(), kinds.drop_last(), statuses.drop_last(), hrefs.drop_last(), camps.drop_last(), k);
        if n > 0 {
            lemma_message_counter(es, kinds, statuses, hrefs, camps, k, n - 1);
            assert(message_step(&es[n], &es[n + 1], kinds[n], statuses[n], hrefs[n], camps[n]));
            assert(statuses[n] == status_text(message_frames(n as nat), Some(k), hrefs[n], camps[n]));
        } else {
            assert(message_step(&es[0], &es[1], kinds[0], statuses[0], hrefs[0], camps[0]));
            assert(statuses[0] == status_text(message_frames(0), Some(k), hrefs[0], camps[0]));
        }
        lemma_treat_message_lasts(k, n as nat, hrefs[n], camps[n]);
        assert forall|i: int| 0 <= i < kinds.len() && i < TREAT_MESSAGE_FRAMES implies #[trigger] statuses[i]
            == treat_name(k) + " acquired! +"@ + decimal(treat_value(k) as nat) by {
            if i < n {
                assert(statuses.drop_last()[i] == statuses[i]);
            }
        }
        assert forall|i: int| 0 <= i < kinds.len() && i >= TREAT_MESSAGE_FRAMES implies #[trigger] statuses[i]
            == status_text(0, None, hrefs[i], camps[i]) by {
            if i < n {
                assert(statuses.drop_last()[i] == statuses[i]);
                assert(hrefs.drop_last()[i] == hrefs[i]);
                assert(camps.drop_last()[i] == camps[i]);
            }
        }
    }
}

/// After the `i`-th step of such a run the last treat is `k` and the
/// counter has gone down by `i` from `TREAT_MESSAGE_FRAMES - 1`.
proof fn lemma_message_counter(
    es: Seq<Engine>,
    kinds: Seq<Option<TreatKind>>,
    statuses: Seq<Seq<char>>,
    hrefs: Seq<Option<Seq<char>>>,
    camps: Seq<bool>,
    k: TreatKind,
    i: int,
)
    requires
        es.len() == kinds.len() + 1,
        statuses.len() == kinds.len(),
        hrefs.len() == kinds.len(),
        camps.len() == kinds.len(),
        forall|j: int|
            0 <= j < kinds.len() ==> message_step(
                &es[j],
                &es[j + 1],
                #[trigger] kinds[j],
                statuses[j],
                hrefs[j],
                camps[j],
            ),
        kinds.len() > 0 ==> kinds[0] == Some(k),
        forall|j: int| 1 <= j < kinds.len() ==> #[trigger] kinds[j] is None,
        0 <= i < kinds.len(),
    ensures
        es[i + 1].last_collected_treat == Some(k),
        es[i + 1].treat_message_frames == quiet_frames((TREAT_MESSAGE_FRAMES - 1) as u32, i as nat),
    decreases i,
{
    assert(message_step(&es[i], &es[i + 1], kinds[i], statuses[i], hrefs[i], camps[i]));
    if i > 0 {
        lemma_message_counter(es, kinds, statuses, hrefs, camps, k, i - 1);
        assert(kinds[i] is None);
    }
}

/// Two engines built from the same seed hold the same maze and the same
/// world: the seed alone decides the layout, the treats and the
/// destinations.
pub proof fn lemma_same_seed_same_engine(a: &Engine, b: &Engine, seed: u64)
    requires
        a.from_seed(seed),
        b.from_seed(seed),
    ensures
        a.maze.layout() == b.maze.layout(),
        a.world@ == b.world@,
        a.player == b.player,
{
}

/// With small coordinates every camp check of the player stays in range.
pub proof fn lemma_camp_checks(w: WorldView, player: Entity)
    requires
        w.wf(),
        positions_bounded(w),
        match lookup(w.motions, player) {
            Some(m) => coord_ok(m.tile_x as int) && coord_ok(m.tile_y as int),
            None => true,
        },
    ensures
        camp_near(w, player).1,
{
    match tile_of(w, player) {
        Some(p) => {
            lemma_camp_checks_upto(w, p, keys(w.kinds), w.kinds.len() as int);
        },
        None => {},
    }
}

pub proof fn lemma_lookup_bounded(w: WorldView, e: Entity)
    requires
        positions_bounded(w),
    ensures
        match lookup(w.positions, e) {
            Some(q) => coord_ok(q.x as int) && coord_ok(q.y as int),
            None => true,
        },
{
    if crate::world::has_key(w.positions, e) {
        let i = crate::world::key_index(w.positions, e);
        assert(w.positions[i].0 == e);
    }
}

pub proof fn lemma_camp_checks_upto(w: WorldView, p: Position, es: Seq<Entity>, n: int)
    requires
        positions_bounded(w),
        coord_ok(p.x as int) && coord_ok(p.y as int),
    ensures
        crate::systems::camp_near_upto(w, p, es, n).1,
    decreases n,
{
    if n > 0 {
        lemma_camp_checks_upto(w, p, es, n - 1);
        lemma_lookup_bounded(w, es[n - 1]);
    }
}

} // verus!
