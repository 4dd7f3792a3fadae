use vstd::prelude::*;

verus! {

/// A compass direction labelling one tunnel out of a room.
#[derive(Copy, Clone, Debug, PartialEq, Eq, Structural)]
pub enum Direction {
    North,
    South,
    East,
    West,
}

/// The axis that a direction lies on.
#[derive(Copy, Clone, Debug, PartialEq, Eq, Structural)]
pub enum Orientation {
    NorthSouth,
    EastWest,
}

pub open spec fn opposite_of(d: Direction) -> Direction {
    match d {
        Direction::North => Direction::South,
        Direction::South => Direction::North,
        Direction::East => Direction::West,
        Direction::West => Direction::East,
    }
}

pub open spec fn orientation_of(d: Direction) -> Orientation {
    match d {
        Direction::North | Direction::South => Orientation::NorthSouth,
        Direction::East | Direction::West => Orientation::EastWest,
    }
}

pub open spec fn major_of(o: Orientation) -> Direction {
    match o {
        Orientation::NorthSouth => Direction::North,
        Orientation::EastWest => Direction::East,
    }
}

pub open spec fn minor_of(o: Orientation) -> Direction {
    match o {
        Orientation::NorthSouth => Direction::South,
        Orientation::EastWest => Direction::West,
    }
}

impl Direction {
    /// The direction pointing the other way along the same axis.
    pub fn opposite(self) -> (r: Direction)
        ensures
            r == opposite_of(self),
    {
        match self {
            Direction::North => Direction::South,
            Direction::South => Direction::North,
            Direction::East => Direction::West,
            Direction::West => Direction::East,
        }
    }

    /// The axis this direction lies on.
    pub fn orientation(&self) -> (r: Orientation)
        ensures
            r == orientation_of(*self),
    {
        match self {
            Direction::North => Orientation::NorthSouth,
            Direction::South => Orientation::NorthSouth,
            Direction::East => Orientation::EastWest,
            Direction::West => Orientation::EastWest,
        }
    }
}

impl Orientation {
    /// North for the north-south axis, East for the east-west axis.
    pub fn major(&self) -> (r: Direction)
        ensures
            r == major_of(*self),
    {
        match self {
            Orientation::NorthSouth => Direction::North,
            Orientation::EastWest => Direction::East,
        }
    }

    /// South for the north-south axis, West for the east-west axis.
    pub fn minor(&self) -> (r: Direction)
        ensures
            r == minor_of(*self),
    {
        match self {
            Orientation::NorthSouth => Direction::South,
            Orientation::EastWest => Direction::West,
        }
    }
}

} // verus!
