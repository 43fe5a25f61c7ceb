//! A small deterministic dungeon builder: a walled hexagonal room with
//! stairs down, one lamp tile, one prowling rat and one dropped item.
//! It stands in for whatever richer generation feeds the engine; the
//! engine only relies on what the contract here states.

use vstd::prelude::*;

use crate::actor::Actor;
use crate::actor::Race;
use crate::coord_map::CoordMap;
use crate::hex::COORD_RANGE;
use crate::hex::Coord;
use crate::hex::Direction;
use crate::hex::Position;
use crate::hex::in_range;
use crate::item::Item;
use crate::item::Slot;
use crate::tile::Feature;
use crate::tile::Tile;
use crate::tile::tile_passable;
use crate::tile::tile_wf;

verus! {

/// Where the stairs down stand, relative to the level's centre.
pub open spec fn stairs_cell(center: Coord) -> Coord {
    Coord { x: (center.x + 1) as i64, y: center.y }
}

/// Where the lamp tile stands, relative to the level's centre.
pub open spec fn lamp_cell(center: Coord) -> Coord {
    Coord { x: center.x, y: (center.y + 1) as i64 }
}

/// The centre lies far enough from the coordinate range's edge that a
/// whole level fits around it.
pub open spec fn center_fits(center: Coord) -> bool {
    &&& -COORD_RANGE + 32 <= center.x <= COORD_RANGE - 32
    &&& -COORD_RANGE + 32 <= center.y <= COORD_RANGE - 32
}

/// Builds one dungeon level around `center`: the terrain, the creatures
/// to place, and the ground items.  The same arguments always build the
/// same level.
pub fn generate(_level: u32, center: Coord, budget: usize) -> (r: (
    CoordMap<Tile>,
    Vec<Actor>,
    CoordMap<Item>,
))
    requires
        center_fits(center),
    ensures
        r.0.wf(),
        forall|c: Coord| #[trigger] r.0@.contains_key(c) ==> in_range(c) && tile_wf(r.0@[c]),
        r.0@.contains_key(center) && tile_passable(r.0@[center]),
        r.0@.contains_key(stairs_cell(center)) && r.0@[stairs_cell(center)].feature == Some(
            Feature::Stairs,
        ) && tile_passable(r.0@[stairs_cell(center)]),
        r.0@.contains_key(lamp_cell(center)) && r.0@[lamp_cell(center)].light > 0,
        r.1@.len() <= 4,
        forall|i: int|
            0 <= i < r.1@.len() ==> !(#[trigger] r.1@[i]).player && r.1@[i].hp != 0 && in_range(
                r.1@[i].pos.coord,
            ) && r.1@[i].pos.coord != center,
        r.2.wf(),
{
    let radius: i64 = if budget >= 217 {
        8
    } else {
        2
    };
    let mut map = CoordMap::<Tile>::new();
    let mut dx: i64 = -radius;
    while dx <= radius
        invariant
            2 <= radius <= 8,
            center_fits(center),
            -radius <= dx <= radius + 1,
            map.wf(),
            forall|c: Coord| #[trigger] map@.contains_key(c) ==> in_range(c) && tile_wf(map@[c]),
        decreases radius + 1 - dx,
    {
        let mut dy: i64 = -radius;
        while dy <= radius
            invariant
                2 <= radius <= 8,
                center_fits(center),
                -radius <= dx <= radius,
                -radius <= dy <= radius + 1,
                map.wf(),
                forall|c: Coord| #[trigger]
                    map@.contains_key(c) ==> in_range(c) && tile_wf(map@[c]),
            decreases radius + 1 - dy,
        {
            if dx + dy >= -radius && dx + dy <= radius {
                let c = Coord { x: center.x + dx, y: center.y + dy };
                let edge = dx == -radius || dx == radius || dy == -radius || dy == radius || dx
                    + dy == -radius || dx + dy == radius;
                let tile = if edge {
                    Tile::wall()
                } else {
                    Tile::floor()
                };
                map.insert(c, tile);
            }
            dy += 1;
        }
        dx += 1;
    }
    // The centre, the stairs and the lamp are set last, so their tiles
    // stand whatever the room walls did.
    map.insert(center, Tile::floor());
    let stairs = Coord { x: center.x + 1, y: center.y };
    map.insert(stairs, Tile::floor().add_feature(Feature::Stairs));
    let lamp = Coord { x: center.x, y: center.y + 1 };
    map.insert(
        lamp,
        Tile { passable: true, opaqueness: 1, light: 7, feature: None },
    );
    let mut critters: Vec<Actor> = Vec::new();
    let mut rat = Actor::new(
        Race::Rat,
        Position {
            coord: Coord { x: center.x, y: center.y + 2 },
            dir: Direction::South,
        },
    );
    rat.noise_emission = 2;
    critters.push(rat);
    let mut items = CoordMap::<Item>::new();
    items.insert(Coord { x: center.x + 1, y: center.y + 1 }, Item::new('a', Slot::Hand));
    (map, critters, items)
}

} // verus!
