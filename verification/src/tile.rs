//! Static per-cell terrain descriptors.  A tile is never mutated in place:
//! a change replaces the whole tile value in the map.

use vstd::prelude::*;

verus! {

/// An overlay on a tile: a door that is open or closed, or stairs down.
#[derive(Clone, Copy, PartialEq, Eq, Structural, Debug)]
pub enum Feature {
    /// A door; the flag tells whether it stands open.
    Door(bool),
    /// Stairs to the next level.
    Stairs,
}

/// A static cell descriptor: base passability, light attenuation, light
/// emission and an optional feature.
#[derive(Clone, Copy, PartialEq, Eq, Structural, Debug)]
pub struct Tile {
    /// Whether the base terrain can be walked on.
    pub passable: bool,
    /// How much light one step across this cell swallows; at least one,
    /// so that light propagation always comes to an end.
    pub opaqueness: u16,
    /// How much light the cell itself gives off.
    pub light: u16,
    /// The overlay, if any.
    pub feature: Option<Feature>,
}

/// A tile can be walked on: its terrain is passable and no closed door
/// stands on it.
pub open spec fn tile_passable(t: Tile) -> bool {
    t.passable && t.feature != Some(Feature::Door(false))
}

/// A tile attenuates light by at least one unit per step.
pub open spec fn tile_wf(t: Tile) -> bool {
    t.opaqueness >= 1
}

impl Tile {
    /// Open floor.
    pub fn floor() -> (t: Tile)
        ensures
            t == (Tile { passable: true, opaqueness: 1, light: 0, feature: None }),
    {
        Tile { passable: true, opaqueness: 1, light: 0, feature: None }
    }

    /// Solid wall.
    pub fn wall() -> (t: Tile)
        ensures
            t == (Tile { passable: false, opaqueness: 1000, light: 0, feature: None }),
    {
        Tile { passable: false, opaqueness: 1000, light: 0, feature: None }
    }

    /// Whether the tile can be walked on.
    pub fn is_passable(&self) -> (r: bool)
        ensures
            r == tile_passable(*self),
    {
        self.passable && !(match self.feature {
            Some(Feature::Door(open)) => !open,
            _ => false,
        })
    }

    /// The same tile carrying the feature `f`.
    pub fn add_feature(self, f: Feature) -> (t: Tile)
        ensures
            t == (Tile { feature: Some(f), ..self }),
    {
        Tile { passable: self.passable, opaqueness: self.opaqueness, light: self.light, feature: Some(f) }
    }
}

} // verus!
