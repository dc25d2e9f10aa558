//! Components attached to entities in the [`World`](crate::world::World).
//! They are small plain values; the simulation in `systems` transforms them.

use vstd::prelude::*;

verus! {

/// Integer tile-grid position for static entities: walls, treats, camp and
/// destinations.
#[derive(Clone, Copy, Debug, PartialEq, Eq, Structural)]
pub struct Position {
    pub x: i32,
    pub y: i32,
}

/// Cardinal movement direction for buffered tile stepping.
#[derive(Clone, Copy, Debug, PartialEq, Eq, Structural)]
pub enum Direction {
    Up,
    Down,
    Left,
    Right,
}

/// The tile offset of one step in a direction; `Up` is towards smaller `y`.
pub open spec fn direction_delta(d: Direction) -> (i32, i32) {
    match d {
        Direction::Up => (0i32, -1i32),
        Direction::Down => (0i32, 1i32),
        Direction::Left => (-1i32, 0i32),
        Direction::Right => (1i32, 0i32),
    }
}

impl Direction {
    pub fn delta(self) -> (r: (i32, i32))
        ensures
            r == direction_delta(self),
    {
        match self {
            Direction::Up => (0, -1),
            Direction::Down => (0, 1),
            Direction::Left => (-1, 0),
            Direction::Right => (1, 0),
        }
    }
}

/// Authoritative player grid position plus any in-flight tile step.
/// `tile_x`/`tile_y` are the current tile while moving; once a step
/// finishes they advance to the destination tile. `buffered_direction` holds
/// the latest held direction so the next step can chain.
#[derive(Clone, Copy, Debug, PartialEq, Eq, Structural)]
pub struct GridMotion {
    pub tile_x: i32,
    pub tile_y: i32,
    pub active_direction: Option<Direction>,
    pub buffered_direction: Option<Direction>,
    pub frames_remaining: u32,
}

/// Marks an entity as a solid obstacle occupying its tile.
#[derive(Clone, Copy, Debug, PartialEq, Eq, Structural)]
pub struct Collider;

/// Kinds of objects placed on map tiles.
#[derive(Clone, Copy, Debug, PartialEq, Eq, Structural)]
pub enum ObjectKind {
    Camp,
    Destination { section: Section },
    Treat,
}

/// Top-level site section navigated to from the world.
#[derive(Clone, Copy, Debug, PartialEq, Eq, Structural)]
pub enum Section {
    About,
    Blog,
    Projects,
}

/// URL path of a section.
pub open spec fn section_href(s: Section) -> Seq<char> {
    match s {
        Section::About => "/about/"@,
        Section::Blog => "/blog/"@,
        Section::Projects => "/projects/"@,
    }
}

/// Human-readable label of a section.
pub open spec fn section_label(s: Section) -> Seq<char> {
    match s {
        Section::About => "About Brooke"@,
        Section::Blog => "Field notes and posts"@,
        Section::Projects => "Projects and experiments"@,
    }
}

impl Section {
    /// URL path navigated to when the player enters the destination.
    pub fn href(self) -> (r: &'static str)
        ensures
            r@ == section_href(self),
    {
        match self {
            Section::About => "/about/",
            Section::Blog => "/blog/",
            Section::Projects => "/projects/",
        }
    }

    /// Human-readable label surfaced in the world status line.
    pub fn label(self) -> (r: &'static str)
        ensures
            r@ == section_label(self),
    {
        match self {
            Section::About => "About Brooke",
            Section::Blog => "Field notes and posts",
            Section::Projects => "Projects and experiments",
        }
    }
}

/// Sprite identifier; drawing itself is the renderer's business.
#[derive(Clone, Copy, Debug, PartialEq, Eq, Structural)]
pub enum SpriteId {
    PlayerRaccoon,
    Camp,
    Treat,
    Destination,
}

/// Associates an entity with a visible sprite.
#[derive(Clone, Copy, Debug, PartialEq, Eq, Structural)]
pub struct Sprite(pub SpriteId);

/// Marks an entity as the player and carries its state.
#[derive(Clone, Copy, Debug, PartialEq, Eq, Structural)]
pub struct Player {
    /// Not-yet-banked points carried from treats since the last snapshot.
    pub score: u32,
    /// Set on the frame a treat is collected, cleared by the snapshot.
    pub just_collected_treat: bool,
}

impl Default for Player {
    fn default() -> (r: Player)
        ensures
            r == (Player { score: 0, just_collected_treat: false }),
    {
        Player { score: 0, just_collected_treat: false }
    }
}

/// Treat varieties placed in each generated world.
#[derive(Clone, Copy, Debug, PartialEq, Eq, Hash, Structural)]
pub enum TreatKind {
    Cheeseburger,
    Snail,
    Frog,
    Banana,
    Cherries,
    Berries,
    Apple,
}

/// Display name of a treat kind.
pub open spec fn treat_name(k: TreatKind) -> Seq<char> {
    match k {
        TreatKind::Cheeseburger => "Cheeseburger"@,
        TreatKind::Snail => "Snail"@,
        TreatKind::Frog => "Little frog"@,
        TreatKind::Banana => "Banana"@,
        TreatKind::Cherries => "Cherries"@,
        TreatKind::Berries => "Berries"@,
        TreatKind::Apple => "Apple"@,
    }
}

/// Score value of a treat kind.
pub open spec fn treat_value(k: TreatKind) -> u32 {
    match k {
        TreatKind::Cheeseburger => 300u32,
        TreatKind::Snail | TreatKind::Frog => 100u32,
        TreatKind::Banana | TreatKind::Cherries | TreatKind::Berries | TreatKind::Apple => 50u32,
    }
}

impl TreatKind {
    pub fn display_name(self) -> (r: &'static str)
        ensures
            r@ == treat_name(self),
    {
        match self {
            TreatKind::Cheeseburger => "Cheeseburger",
            TreatKind::Snail => "Snail",
            TreatKind::Frog => "Little frog",
            TreatKind::Banana => "Banana",
            TreatKind::Cherries => "Cherries",
            TreatKind::Berries => "Berries",
            TreatKind::Apple => "Apple",
        }
    }

    pub fn value(self) -> (r: u32)
        ensures
            r == treat_value(self),
    {
        match self {
            TreatKind::Cheeseburger => 300,
            TreatKind::Snail | TreatKind::Frog => 100,
            TreatKind::Banana | TreatKind::Cherries | TreatKind::Berries | TreatKind::Apple => 50,
        }
    }
}

/// Treat-specific data attached alongside [`ObjectKind::Treat`].
#[derive(Clone, Copy, Debug, PartialEq, Eq, Structural)]
pub struct Treat {
    pub kind: TreatKind,
}

/// Whether a treat has been collected.
#[derive(Clone, Copy, Debug, PartialEq, Eq, Structural)]
pub struct Collected(pub bool);

} // verus!
