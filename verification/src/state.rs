//! Values exchanged with the renderer: the per-frame input, and the static
//! and per-frame snapshots the engine produces.

use vstd::prelude::*;
use crate::components::Direction;
use crate::components::GridMotion;
use crate::components::TreatKind;

verus! {

/// Per-frame input: which cardinal keys are held, the most recently pressed
/// held direction, and whether Enter was pressed.
#[derive(Clone, Copy, Debug)]
pub struct Input {
    pub up: bool,
    pub down: bool,
    pub left: bool,
    pub right: bool,
    pub preferred_direction: Option<Direction>,
    pub enter: bool,
}

/// Tile-space coordinate pair surfaced to the renderer.
#[derive(Clone, Copy, Debug, PartialEq, Eq, Structural)]
pub struct TilePos {
    pub x: i32,
    pub y: i32,
}

impl TilePos {
    pub fn new(x: i32, y: i32) -> (r: Self)
        ensures
            r == (TilePos { x, y }),
    {
        TilePos { x, y }
    }
}

/// Treat position and variety surfaced to the renderer.
#[derive(Clone, Copy, Debug, PartialEq, Eq, Structural)]
pub struct TreatInfo {
    pub x: i32,
    pub y: i32,
    pub kind: TreatKind,
}

impl TreatInfo {
    pub fn new(x: i32, y: i32, kind: TreatKind) -> (r: Self)
        ensures
            r == (TreatInfo { x, y, kind }),
    {
        TreatInfo { x, y, kind }
    }
}

/// Static destination surfaced once so the renderer can draw labels and
/// link targets.
#[derive(Clone, Debug)]
pub struct DestinationInfo {
    pub x: i32,
    pub y: i32,
    pub href: String,
    pub label: String,
}

/// One-shot snapshot of the world geometry and static object placement.
#[derive(Debug)]
pub struct InitState {
    pub protocol_version: u32,
    pub width: i32,
    pub height: i32,
    pub tile_size: i32,
    pub walls: Vec<TilePos>,
    pub camp: TilePos,
    pub player_start: TilePos,
    pub destinations: Vec<DestinationInfo>,
    pub treats: Vec<TreatInfo>,
}

/// The per-frame snapshot in tile terms: the renderer derives the player's
/// pixel position and velocity from `motion`.
#[derive(Debug)]
pub struct FrameUpdate {
    pub protocol_version: u32,
    /// The player's grid motion after this frame.
    pub motion: Option<GridMotion>,
    /// Points banked by this snapshot: the value of the treats collected
    /// since the previous one.
    pub score: u32,
    /// Live treat positions and varieties, excluding collected treats.
    pub treats: Vec<TreatInfo>,
    pub status: String,
    /// `Some(href)` while the player stands on a destination.
    pub active_destination_href: Option<String>,
    /// `Some(href)` when the engine requests a page transition; cleared on
    /// the next step.
    pub pending_navigation: Option<String>,
    /// Set on the frame a treat is collected.
    pub just_collected_treat: bool,
}

} // verus!
