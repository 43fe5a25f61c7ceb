//! Axial coordinates, directions, relative angles and positions on the
//! hexagonal grid, with the arithmetic the engine needs: rotating a facing
//! by an angle, stepping one cell in a direction, and hex distance.

use vstd::prelude::*;

verus! {

/// How far from the origin a coordinate may lie and still take part in the
/// simulation; wide enough for any generated level, narrow enough that a
/// bounded walk from an in-range cell can never overflow an `i64`.
pub const COORD_RANGE: i64 = 0x1000_0000_0000;

/// A cell of the hexagonal grid, in axial coordinates.
#[derive(Clone, Copy, PartialEq, Eq, Structural, Debug)]
pub struct Coord {
    pub x: i64,
    pub y: i64,
}

/// One of the six grid directions, clockwise from north.
#[derive(Clone, Copy, PartialEq, Eq, Structural, Debug)]
pub enum Direction {
    North,
    NorthEast,
    SouthEast,
    South,
    SouthWest,
    NorthWest,
}

/// A rotation relative to the current facing, clockwise from `Forward`.
#[derive(Clone, Copy, PartialEq, Eq, Structural, Debug)]
pub enum Angle {
    Forward,
    Right,
    RightBack,
    Back,
    LeftBack,
    Left,
}

/// A coordinate together with a facing.
#[derive(Clone, Copy, PartialEq, Eq, Structural, Debug)]
pub struct Position {
    pub coord: Coord,
    pub dir: Direction,
}

/// Index of a direction in clockwise order, north first.
pub open spec fn dir_index(d: Direction) -> int {
    match d {
        Direction::North => 0,
        Direction::NorthEast => 1,
        Direction::SouthEast => 2,
        Direction::South => 3,
        Direction::SouthWest => 4,
        Direction::NorthWest => 5,
    }
}

/// Direction with the given clockwise index.
pub open spec fn dir_of_index(i: int) -> Direction {
    if i == 0 {
        Direction::North
    } else if i == 1 {
        Direction::NorthEast
    } else if i == 2 {
        Direction::SouthEast
    } else if i == 3 {
        Direction::South
    } else if i == 4 {
        Direction::SouthWest
    } else {
        Direction::NorthWest
    }
}

/// How many clockwise sixth-turns an angle stands for.
pub open spec fn angle_steps(a: Angle) -> int {
    match a {
        Angle::Forward => 0,
        Angle::Right => 1,
        Angle::RightBack => 2,
        Angle::Back => 3,
        Angle::LeftBack => 4,
        Angle::Left => 5,
    }
}

/// The facing reached by rotating `d` clockwise by `a`.
pub open spec fn spec_rotate(d: Direction, a: Angle) -> Direction {
    dir_of_index((dir_index(d) + angle_steps(a)) % 6)
}

/// Axial x-offset of one step in direction `d`.
pub open spec fn dir_dx(d: Direction) -> int {
    match d {
        Direction::North => 0,
        Direction::NorthEast => 1,
        Direction::SouthEast => 1,
        Direction::South => 0,
        Direction::SouthWest => -1,
        Direction::NorthWest => -1,
    }
}

/// Axial y-offset of one step in direction `d`.
pub open spec fn dir_dy(d: Direction) -> int {
    match d {
        Direction::North => -1,
        Direction::NorthEast => -1,
        Direction::SouthEast => 0,
        Direction::South => 1,
        Direction::SouthWest => 1,
        Direction::NorthWest => 0,
    }
}

impl Direction {
    /// The six directions in clockwise order, north first.
    pub fn all() -> (r: Vec<Direction>)
        ensures
            r@.len() == 6,
            forall|i: int| 0 <= i < 6 ==> r@[i] == dir_of_index(i),
    {
        let mut v: Vec<Direction> = Vec::new();
        v.push(Direction::North);
        v.push(Direction::NorthEast);
        v.push(Direction::SouthEast);
        v.push(Direction::South);
        v.push(Direction::SouthWest);
        v.push(Direction::NorthWest);
        v
    }

    /// Clockwise index of this direction, north first.
    pub fn index(self) -> (r: u8)
        ensures
            r as int == dir_index(self),
    {
        match self {
            Direction::North => 0,
            Direction::NorthEast => 1,
            Direction::SouthEast => 2,
            Direction::South => 3,
            Direction::SouthWest => 4,
            Direction::NorthWest => 5,
        }
    }

    /// Direction with the given clockwise index, for indices below six.
    pub fn from_index(i: u8) -> (r: Direction)
        requires
            i < 6,
        ensures
            r == dir_of_index(i as int),
    {
        match i {
            0 => Direction::North,
            1 => Direction::NorthEast,
            2 => Direction::SouthEast,
            3 => Direction::South,
            4 => Direction::SouthWest,
            _ => Direction::NorthWest,
        }
    }

    /// This facing rotated clockwise by the angle `a`.
    pub fn rotate(self, a: Angle) -> (r: Direction)
        ensures
            r == spec_rotate(self, a),
    {
        let i = self.index();
        let s = match a {
            Angle::Forward => 0u8,
            Angle::Right => 1,
            Angle::RightBack => 2,
            Angle::Back => 3,
            Angle::LeftBack => 4,
            Angle::Left => 5,
        };
        Direction::from_index((i + s) % 6)
    }
}

/// Whether a coordinate lies inside the simulated range.
pub open spec fn in_range(c: Coord) -> bool {
    &&& -COORD_RANGE <= c.x <= COORD_RANGE
    &&& -COORD_RANGE <= c.y <= COORD_RANGE
}

/// The cell one step from `c` in direction `d`.
pub open spec fn spec_step(c: Coord, d: Direction) -> Coord {
    Coord { x: (c.x + dir_dx(d)) as i64, y: (c.y + dir_dy(d)) as i64 }
}

/// Hex distance between two cells: the least number of steps from one
/// to the other.
pub open spec fn spec_distance(a: Coord, b: Coord) -> int {
    let dx = b.x - a.x;
    let dy = b.y - a.y;
    (abs_int(dx) + abs_int(dy) + abs_int(dx + dy)) / 2
}

/// Absolute value of an integer.
pub open spec fn abs_int(v: int) -> int {
    if v < 0 {
        -v
    } else {
        v
    }
}

impl Coord {
    /// Whether this coordinate lies inside the simulated range.
    pub fn is_in_range(self) -> (r: bool)
        ensures
            r == in_range(self),
    {
        -COORD_RANGE <= self.x && self.x <= COORD_RANGE && -COORD_RANGE <= self.y && self.y
            <= COORD_RANGE
    }

    /// The cell one step away in direction `d`.
    pub fn step(self, d: Direction) -> (r: Coord)
        requires
            i64::MIN < self.x < i64::MAX,
            i64::MIN < self.y < i64::MAX,
        ensures
            r == spec_step(self, d),
    {
        let (dx, dy): (i64, i64) = match d {
            Direction::North => (0, -1),
            Direction::NorthEast => (1, -1),
            Direction::SouthEast => (1, 0),
            Direction::South => (0, 1),
            Direction::SouthWest => (-1, 1),
            Direction::NorthWest => (-1, 0),
        };
        Coord { x: self.x + dx, y: self.y + dy }
    }

    /// Hex distance to `other`.
    pub fn distance(self, other: Coord) -> (r: i64)
        requires
            in_range(self),
            in_range(other),
        ensures
            r as int == spec_distance(self, other),
            r >= 0,
    {
        let dx = other.x - self.x;
        let dy = other.y - self.y;
        let ax = if dx < 0 {
            -dx
        } else {
            dx
        };
        let ay = if dy < 0 {
            -dy
        } else {
            dy
        };
        let s = dx + dy;
        let az = if s < 0 {
            -s
        } else {
            s
        };
        (ax + ay + az) / 2
    }
}

impl Position {
    /// The position one step ahead, facing unchanged.
    pub fn stepped(self, d: Direction) -> (r: Position)
        requires
            i64::MIN < self.coord.x < i64::MAX,
            i64::MIN < self.coord.y < i64::MAX,
        ensures
            r.coord == spec_step(self.coord, d),
            r.dir == self.dir,
    {
        Position { coord: self.coord.step(d), dir: self.dir }
    }

    /// The same cell with the facing rotated by `a`.
    pub fn rotated(self, a: Angle) -> (r: Position)
        ensures
            r.coord == self.coord,
            r.dir == spec_rotate(self.dir, a),
    {
        Position { coord: self.coord, dir: self.dir.rotate(a) }
    }
}

} // verus!
