//! Which of the four moves a snake may make.
use crate::logic::{blocked, State, StateView};
use crate::requests::Point;
use crate::responses::{movement_at, Movement};
use crate::snake::optim::Snake;
use vstd::prelude::*;

verus! {

/// The square next to `p` in the direction `m`: to the right `x` grows, to
/// the left it shrinks, up `y` grows, down it shrinks.
pub open spec fn shifted(p: Point, m: Movement) -> Point {
    match m {
        Movement::Right => Point { x: (p.x + 1) as i32, y: p.y },
        Movement::Left => Point { x: (p.x - 1) as i32, y: p.y },
        Movement::Up => Point { x: p.x, y: (p.y + 1) as i32 },
        Movement::Down => Point { x: p.x, y: (p.y - 1) as i32 },
    }
}

/// Whether the square next to `p` in the direction `m` has coordinates that
/// the machine can hold.
pub open spec fn can_shift(p: Point, m: Movement) -> bool {
    match m {
        Movement::Right => p.x < i32::MAX,
        Movement::Left => p.x > i32::MIN,
        Movement::Up => p.y < i32::MAX,
        Movement::Down => p.y > i32::MIN,
    }
}

/// Whether all four squares next to `p` have coordinates that the machine
/// can hold.
pub open spec fn inner(p: Point) -> bool {
    i32::MIN < p.x < i32::MAX && i32::MIN < p.y < i32::MAX
}

/// Whether `p` lies on a board of the given size.
pub open spec fn on_board(p: Point, width: i32, height: i32) -> bool {
    0 <= p.x < width && 0 <= p.y < height
}

/// Whether a head may step onto `p`: the square lies on the board and no
/// snake blocks it.
pub open spec fn legal(p: Point, s: StateView, width: i32, height: i32) -> bool {
    on_board(p, width, height) && !blocked(s, p)
}

/// Whether a head may step onto `p`.
pub fn can_move(p: Point, state: &State, width: i32, height: i32) -> (ok: bool)
    requires
        state.wf(),
    ensures
        ok == legal(p, state@, width, height),
{
    p.x >= 0 && p.x < width && p.y >= 0 && p.y < height && !state.collides_with(p)
}

/// For each of the four directions, in the order right, left, up, down,
/// whether `mover` may step that way.
pub fn get_moves(mover: &Snake, state: &State, width: i32, height: i32) -> (moves: [bool; 4])
    requires
        mover.wf(),
        state.wf(),
        inner(mover@[0]),
    ensures
        forall|i: int|
            0 <= i < 4 ==> moves[i] == legal(
                shifted(mover@[0], movement_at(i)),
                state@,
                width,
                height,
            ),
{
    [
        can_move(movement_to_move(mover.get_head(), Movement::Right), state, width, height),
        can_move(movement_to_move(mover.get_head(), Movement::Left), state, width, height),
        can_move(movement_to_move(mover.get_head(), Movement::Up), state, width, height),
        can_move(movement_to_move(mover.get_head(), Movement::Down), state, width, height),
    ]
}

/// The square next to `you` in the direction `movement`.
pub fn movement_to_move(you: Point, movement: Movement) -> (p: Point)
    requires
        can_shift(you, movement),
    ensures
        p == shifted(you, movement),
{
    match movement {
        Movement::Right => Point { x: you.x + 1, ..you },
        Movement::Left => Point { x: you.x - 1, ..you },
        Movement::Up => Point { y: you.y + 1, ..you },
        Movement::Down => Point { y: you.y - 1, ..you },
    }
}

} // verus!
