//! Cave topology for a hunt-the-wumpus style game: a connected graph in which
//! every room has three tunnels, each labelled with a compass direction, and
//! every tunnel leads back with the opposite label.

pub mod direction;
pub mod maze;
mod random;
