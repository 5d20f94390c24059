//! What the snake answers: its looks, and the move it has chosen.
use vstd::prelude::*;

verus! {

/// What the snake says of itself.
#[derive(Debug)]
pub struct Info {
    pub apiversion: String,
    pub author: Option<String>,
    pub color: Option<String>,
    pub head: Option<String>,
    pub tail: Option<String>,
    pub version: Option<String>,
}

/// The looks that the snake asks for at the start of a game.
#[derive(PartialEq, Eq, Debug)]
pub struct Start {
    pub color: String,
    pub head_type: HeadType,
    pub tail_type: TailType,
}

impl Start {
    /// The looks made of the three choices.
    pub fn new(color: String, head_type: HeadType, tail_type: TailType) -> (start: Start)
        ensures
            start.color == color,
            start.head_type == head_type,
            start.tail_type == tail_type,
    {
        Start { color, head_type, tail_type }
    }
}

/// The heads that a snake can wear.
#[derive(PartialEq, Eq, Debug)]
pub enum HeadType {
    Regular,
    Beluga,
    Bendr,
    Dead,
    Evil,
    Fang,
    Pixel,
    Safe,
    SandWorm,
    Shades,
    Smile,
    Tongue,
}

/// The tails that a snake can wear.
#[derive(PartialEq, Eq, Debug)]
pub enum TailType {
    Regular,
    BlockBum,
    Bolt,
    Curled,
    FatRattle,
    Freckled,
    Hook,
    Pixel,
    RoundBum,
    Sharp,
    Skinny,
    SmallRattle,
}

/// The answer to a turn: the move, and what the snake shouts with it.
#[derive(PartialEq, Eq, Debug)]
pub struct Move {
    pub movement: Movement,
    shout: Option<String>,
}

impl Move {
    /// The direction of this move.
    pub closed spec fn direction(&self) -> Movement {
        self.movement
    }

    /// Whether the snake shouts nothing with this move.
    pub closed spec fn is_silent(&self) -> bool {
        self.shout is None
    }

    /// The move in the direction `movement`, with nothing shouted.
    pub fn new(movement: Movement) -> (m: Move)
        ensures
            m.direction() == movement,
            m.is_silent(),
    {
        Move { movement, shout: None }
    }
}

/// One of the four directions, in the order in which moves are enumerated.
#[derive(Clone, Copy, Debug, PartialEq, Eq, Structural)]
pub enum Movement {
    Right,
    Left,
    Up,
    Down,
}

/// The direction at place `i` of the enumeration order; `Down` closes it.
pub open spec fn movement_at(i: int) -> Movement {
    if i == 0 {
        Movement::Right
    } else if i == 1 {
        Movement::Left
    } else if i == 2 {
        Movement::Up
    } else {
        Movement::Down
    }
}

impl Movement {
    /// The place of this direction in the enumeration order.
    pub open spec fn index(self) -> int {
        match self {
            Movement::Right => 0,
            Movement::Left => 1,
            Movement::Up => 2,
            Movement::Down => 3,
        }
    }

    /// The direction at place `value` of the enumeration order.
    pub fn from(value: usize) -> (m: Movement)
        requires
            value < 4,
        ensures
            m == movement_at(value as int),
            m.index() == value,
    {
        if value == 0 {
            Movement::Right
        } else if value == 1 {
            Movement::Left
        } else if value == 2 {
            Movement::Up
        } else {
            Movement::Down
        }
    }

    /// The place of this direction in the enumeration order.
    pub fn position(self) -> (i: usize)
        ensures
            i == self.index(),
            i < 4,
    {
        match self {
            Movement::Right => 0,
            Movement::Left => 1,
            Movement::Up => 2,
            Movement::Down => 3,
        }
    }
}

} // verus!
