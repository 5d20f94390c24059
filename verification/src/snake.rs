//! Snake bodies as sequences of squares, head first, and what it means for
//! the head to advance and to retreat.
pub mod basic;
pub mod optim;

use crate::logic::moves::{inner, shifted};
use crate::requests::{manhattan, Point, Turn};
use crate::responses::{movement_at, Move, Movement};
use vstd::prelude::*;

verus! {

/// The body after its head has advanced onto `p`: `p` in front, every
/// segment one place further back, the last one gone.
pub open spec fn advanced(body: Seq<Point>, p: Point) -> Seq<Point> {
    seq![p] + body.drop_last()
}

/// The body after its head has retreated: the first segment gone, every
/// other one a place further to the front, `p` as the new last one.
pub open spec fn retreated(body: Seq<Point>, p: Point) -> Seq<Point> {
    body.drop_first().push(p)
}

/// Whether stepping onto `p` runs into `body`. Every segment blocks but the
/// last: the tail leaves its square in the turn in which the head arrives.
pub open spec fn body_blocks(body: Seq<Point>, p: Point) -> bool {
    exists|i: int| 0 <= i < body.len() - 1 && body[i] == p
}

/// The body after its head has advanced onto each square of `heads` in turn.
pub open spec fn advanced_along(body: Seq<Point>, heads: Seq<Point>) -> Seq<Point>
    decreases heads.len(),
{
    if heads.len() == 0 {
        body
    } else {
        advanced(advanced_along(body, heads.drop_last()), heads.last())
    }
}

/// The segments that fall off the end while the head advances along `heads`,
/// in the order in which they fall.
pub open spec fn evicted_along(body: Seq<Point>, heads: Seq<Point>) -> Seq<Point>
    decreases heads.len(),
{
    if heads.len() == 0 {
        Seq::empty()
    } else {
        evicted_along(body, heads.drop_last()).push(
            advanced_along(body, heads.drop_last()).last(),
        )
    }
}

/// The body after one retreat for each element of `evicted`, the last
/// element given back first.
pub open spec fn retreated_along(body: Seq<Point>, evicted: Seq<Point>) -> Seq<Point>
    decreases evicted.len(),
{
    if evicted.len() == 0 {
        body
    } else {
        retreated_along(retreated(body, evicted.last()), evicted.drop_last())
    }
}

/// Advancing keeps the number of segments.
pub proof fn lemma_advanced_along_len(body: Seq<Point>, heads: Seq<Point>)
    requires
        body.len() > 0,
    ensures
        advanced_along(body, heads).len() == body.len(),
    decreases heads.len(),
{
    if heads.len() > 0 {
        lemma_advanced_along_len(body, heads.drop_last());
    }
}

/// A retreat that hands back what the advance pushed out undoes the advance.
pub proof fn lemma_retreat_undoes_advance(body: Seq<Point>, p: Point)
    requires
        body.len() > 0,
    ensures
        retreated(advanced(body, p), body.last()) == body,
{
    assert(retreated(advanced(body, p), body.last()) =~= body);
}

/// Round trip: any number of advances, followed by as many retreats that
/// hand the evicted segments back in the reverse order, leaves the body as
/// it was.
pub proof fn lemma_advance_retreat_round_trip(body: Seq<Point>, heads: Seq<Point>)
    requires
        body.len() > 0,
    ensures
        retreated_along(advanced_along(body, heads), evicted_along(body, heads)) == body,
    decreases heads.len(),
{
    if heads.len() > 0 {
        let before = advanced_along(body, heads.drop_last());
        let given_back = evicted_along(body, heads);
        lemma_advanced_along_len(body, heads.drop_last());
        lemma_retreat_undoes_advance(before, heads.last());
        assert(given_back.last() == before.last());
        assert(given_back.drop_last() =~= evicted_along(body, heads.drop_last()));
        lemma_advance_retreat_round_trip(body, heads.drop_last());
    }
}

/// Whether the food at place `i` is the nearest to `you`, and the first
/// such in `food`.
pub open spec fn is_first_nearest(food: Seq<Point>, you: Point, i: int) -> bool {
    &&& 0 <= i < food.len()
    &&& forall|j: int| 0 <= j < food.len() ==> manhattan(food[i], you) <= manhattan(food[j], you)
    &&& forall|j: int| 0 <= j < i ==> manhattan(food[i], you) < manhattan(food[j], you)
}

/// The food nearest to `you`, the first where several are as near; none
/// where there is no food.
pub open spec fn first_nearest(food: Seq<Point>, you: Point) -> Option<Point> {
    if food.len() == 0 {
        None
    } else {
        Some(food[choose|i: int| is_first_nearest(food, you, i)])
    }
}

/// The direction that a head on `you` wishes to take towards `food`: left
/// where the food lies further left, else down where it lies lower, else up
/// where it lies in the same column, else right. Without food the wish is
/// left on negative `x`, else up on negative `y`, else down.
pub open spec fn wish(food: Option<Point>, you: Point) -> Movement {
    match food {
        Some(food) => if food.x < you.x {
            Movement::Left
        } else if food.y < you.y {
            Movement::Down
        } else if food.x == you.x {
            Movement::Up
        } else {
            Movement::Right
        },
        None => if you.x < 0 {
            Movement::Left
        } else if you.y < 0 {
            Movement::Up
        } else {
            Movement::Down
        },
    }
}

/// Whether the snake of the snapshot may make the move at place `i` of the
/// enumeration order: the move does not turn back against the segment
/// behind the head, stays on the board, and ends on no segment behind the
/// head.
pub open spec fn allowed(turn: Turn, i: int) -> bool {
    let you = turn.you.head;
    let prev = turn.you.body@[1];
    let rest = turn.you.body@.subrange(1, turn.you.body@.len() as int);
    let free = !rest.contains(shifted(you, movement_at(i)));
    if i == 0 {
        you.x >= prev.x && you.x + 1 < turn.board.width && free
    } else if i == 1 {
        you.x <= prev.x && you.x - 1 >= 0 && free
    } else if i == 2 {
        you.y >= prev.y && you.y + 1 < turn.board.height && free
    } else {
        you.y <= prev.y && you.y - 1 >= 0 && free
    }
}

/// The first allowed move from place `from` of the enumeration order on.
pub open spec fn first_allowed(turn: Turn, from: int) -> Option<Movement>
    decreases 4 - from,
{
    if from >= 4 {
        None
    } else if allowed(turn, from) {
        Some(movement_at(from))
    } else {
        first_allowed(turn, from + 1)
    }
}

/// The move that the simple plan makes on a snapshot: the wish towards the
/// nearest food where that move is allowed, else the first allowed move,
/// else `Up`.
pub open spec fn planned(turn: Turn) -> Movement {
    let wished = wish(first_nearest(turn.board.food@, turn.you.head), turn.you.head);
    if allowed(turn, wished.index()) {
        wished
    } else {
        match first_allowed(turn, 0) {
            Some(m) => m,
            None => Movement::Up,
        }
    }
}

/// The food nearest to `you`, the first where several are as near.
fn nearest(food: &Vec<Point>, you: Point) -> (best: Option<Point>)
    ensures
        best == first_nearest(food@, you),
{
    if food.len() == 0 {
        return None;
    }
    let mut at: usize = 0;
    let mut least: i64 = food[0].manhattan_distance(&you);
    let mut j: usize = 1;
    while j < food.len()
        invariant
            1 <= j <= food@.len(),
            at < j,
            least == manhattan(food@[at as int], you),
            forall|k: int| 0 <= k < j ==> least <= manhattan(food@[k], you),
            forall|k: int| 0 <= k < at ==> least < manhattan(food@[k], you),
        decreases food@.len() - j,
    {
        let d = food[j].manhattan_distance(&you);
        if d < least {
            least = d;
            at = j;
        }
        j += 1;
    }
    proof {
        assert(is_first_nearest(food@, you, at as int));
        let chosen = choose|i: int| is_first_nearest(food@, you, i);
        assert(chosen == at) by {
            if chosen < at {
                assert(manhattan(food@[at as int], you) < manhattan(food@[chosen], you));
            } else if at < chosen {
                assert(manhattan(food@[chosen], you) < manhattan(food@[at as int], you));
            }
        }
    }
    Some(food[at])
}

/// A move for the snake of the snapshot by a simple plan, with no search:
/// towards the nearest food if the snake may go there, else the first way
/// that it may go.
pub fn calculate_move(turn: Turn) -> (chosen: Move)
    requires
        turn.you.body@.len() >= 2,
        inner(turn.you.head),
    ensures
        chosen.direction() == planned(turn),
        chosen.is_silent(),
{
    let you = turn.you.head;
    let self_prev = turn.you.body[1];
    let body = vstd::slice::slice_subrange(turn.you.body.as_slice(), 1, turn.you.body.len());
    let best_food = nearest(&turn.board.food, you);

    let possibilities = [
        you.x >= self_prev.x && you.x + 1 < turn.board.width && can_move_for_own_body(
            Point { x: you.x + 1, ..you },
            body,
        ),
        you.x <= self_prev.x && you.x - 1 >= 0 && can_move_for_own_body(
            Point { x: you.x - 1, ..you },
            body,
        ),
        you.y >= self_prev.y && you.y + 1 < turn.board.height && can_move_for_own_body(
            Point { y: you.y + 1, ..you },
            body,
        ),
        you.y <= self_prev.y && you.y - 1 >= 0 && can_move_for_own_body(
            Point { y: you.y - 1, ..you },
            body,
        ),
    ];
    assert(forall|i: int| 0 <= i < 4 ==> possibilities[i] == allowed(turn, i));

    let movement = if let Some(best_food) = best_food {
        if best_food.x < you.x {
            Movement::Left
        } else if best_food.y < you.y {
            Movement::Down
        } else if best_food.x == you.x {
            Movement::Up
        } else {
            Movement::Right
        }
    } else {
        if you.x < 0 {
            Movement::Left
        } else if you.y < 0 {
            Movement::Up
        } else {
            Movement::Down
        }
    };

    let movement = if possibilities[movement.position()] {
        movement
    } else {
        let mut next: Option<Movement> = None;
        let mut i: usize = 0;
        while i < 4 && next.is_none()
            invariant
                i <= 4,
                forall|j: int| 0 <= j < 4 ==> possibilities[j] == allowed(turn, j),
                match next {
                    Some(m) => first_allowed(turn, 0) == Some(m),
                    None => first_allowed(turn, i as int) == first_allowed(turn, 0),
                },
            decreases 4 - i + (if next.is_none() { 1int } else { 0int }),
        {
            if possibilities[i] {
                next = Some(Movement::from(i));
            } else {
                i += 1;
            }
        }
        match next {
            Some(m) => m,
            None => Movement::Up,
        }
    };

    Move::new(movement)
}

/// Whether `p` is none of the segments of `body`.
fn can_move_for_own_body(p: Point, body: &[Point]) -> (free: bool)
    ensures
        free == !body@.contains(p),
{
    let mut i: usize = 0;
    while i < body.len()
        invariant
            i <= body@.len(),
            forall|j: int| 0 <= j < i ==> body@[j] != p,
        decreases body@.len() - i,
    {
        if p == body[i] {
            return false;
        }
        i += 1;
    }
    true
}

} // verus!
