//! Grid coordinates as they arrive with a board snapshot.
use vstd::prelude::*;

verus! {

/// A square of the grid.
#[derive(Clone, Copy, Debug, PartialEq, Eq, PartialOrd, Ord, Hash, Structural)]
pub struct Point {
    pub x: i32,
    pub y: i32,
}

/// `|a - b|` over the integers.
pub open spec fn abs_diff(a: int, b: int) -> int {
    if a >= b {
        a - b
    } else {
        b - a
    }
}

/// The manhattan distance between two squares: the sum of the absolute
/// differences of their coordinates.
pub open spec fn manhattan(a: Point, b: Point) -> int {
    abs_diff(a.x as int, b.x as int) + abs_diff(a.y as int, b.y as int)
}

impl Point {
    /// Manhattan distance to `other`. The result is exact for every pair of
    /// points: it is computed in 64 bits, which the widest pair cannot exceed.
    pub fn manhattan_distance(&self, other: &Point) -> (d: i64)
        ensures
            d == manhattan(*self, *other),
            0 <= d <= 2 * (u32::MAX as int),
    {
        let dx: i64 = if self.x >= other.x {
            self.x as i64 - other.x as i64
        } else {
            other.x as i64 - self.x as i64
        };
        let dy: i64 = if self.y >= other.y {
            self.y as i64 - other.y as i64
        } else {
            other.y as i64 - self.y as i64
        };
        dx + dy
    }
}

/// A snake as a board snapshot shows it.
#[derive(Debug)]
pub struct Battlesnake {
    pub id: String,
    pub head: Point,
    /// The segments from head to tail.
    pub body: Vec<Point>,
}

/// The board of a snapshot.
#[derive(Debug)]
pub struct Board {
    pub height: i32,
    pub width: i32,
    pub food: Vec<Point>,
    /// Every snake on the board, the one that decides among them.
    pub snakes: Vec<Battlesnake>,
}

/// The snapshot of one turn.
#[derive(Debug)]
pub struct Turn {
    pub turn: u32,
    pub board: Board,
    /// The snake that decides.
    pub you: Battlesnake,
}

} // verus!
