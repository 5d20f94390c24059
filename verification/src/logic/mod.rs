//! The game state and the decision taken on it.
pub mod minimax;
pub mod moves;

use crate::logic::minimax::{heads_inner, minimax, search_score, step_self, RIVAL_PENALTY};
use crate::logic::moves::{get_moves, legal, movement_to_move, shifted};
use crate::requests::{manhattan, Battlesnake, Point, Turn};
use crate::responses::{movement_at, Move, Movement};
use crate::snake::optim::Snake;
use crate::snake::{body_blocks, lemma_retreat_undoes_advance};
use vstd::multiset::Multiset;
use vstd::prelude::*;

verus! {

/// The width of the board that `get_move` plays on.
pub const WIDTH: i32 = 11;

/// The height of the board that `get_move` plays on.
pub const HEIGHT: i32 = 11;

/// The depth to which `get_move` searches.
pub const DEPTH: u8 = 7;

/// What a game state holds, as values: each body from head to tail, and
/// the food as a multiset, since the order in which it is stored means
/// nothing.
pub struct StateView {
    pub snake: Seq<Point>,
    pub others: Seq<Seq<Point>>,
    pub food: Multiset<Point>,
}

/// The state of one turn: the snake that decides, the food on the board, and
/// the snakes it plays against.
pub struct State {
    pub snake: Snake,
    pub food: Vec<Point>,
    pub other_snakes: Vec<Snake>,
}

/// Whether some distance `d` is that from `head` to the food nearest to it.
pub open spec fn is_nearest(d: int, head: Point, food: Multiset<Point>) -> bool {
    &&& exists|f: Point| food.contains(f) && manhattan(head, f) == d
    &&& forall|f: Point| food.contains(f) ==> d <= manhattan(head, f)
}

/// The manhattan distance from `head` to the food nearest to it; `0` where
/// there is no food.
pub open spec fn nearest_food(head: Point, food: Multiset<Point>) -> int {
    if food.len() == 0 {
        0
    } else {
        choose|d: int| is_nearest(d, head, food)
    }
}

/// What a head on `head` finds to eat: the food under it, if there is any.
pub open spec fn meal(food: Multiset<Point>, head: Point) -> Option<Point> {
    if food.contains(head) {
        Some(head)
    } else {
        None
    }
}

/// The food after a head on `head` has eaten: one entry less under it, if
/// there was any.
pub open spec fn after_meal(food: Multiset<Point>, head: Point) -> Multiset<Point> {
    food.remove(head)
}

/// The food after `eaten` was put back.
pub open spec fn restocked(food: Multiset<Point>, eaten: Option<Point>) -> Multiset<Point> {
    match eaten {
        Some(p) => food.insert(p),
        None => food,
    }
}

/// The food that is left when heads on each square of `heads[from..]` in
/// turn have eaten what lay under them.
pub open spec fn leftovers(food: Multiset<Point>, heads: Seq<Point>, from: int) -> Multiset<
    Point,
>
    decreases heads.len() - from,
{
    if from >= heads.len() {
        food
    } else {
        leftovers(after_meal(food, heads[from]), heads, from + 1)
    }
}

/// What heads on each square of `heads[from..]` in turn find to eat.
pub open spec fn meals_along(food: Multiset<Point>, heads: Seq<Point>, from: int) -> Seq<
    Option<Point>,
>
    decreases heads.len() - from,
{
    if from >= heads.len() {
        Seq::empty()
    } else {
        seq![meal(food, heads[from])] + meals_along(
            after_meal(food, heads[from]),
            heads,
            from + 1,
        )
    }
}

/// The food after each element of `eaten` was put back, the last one first.
pub open spec fn restocked_along(food: Multiset<Point>, eaten: Seq<Option<Point>>) -> Multiset<
    Point,
>
    decreases eaten.len(),
{
    if eaten.len() == 0 {
        food
    } else {
        restocked_along(restocked(food, eaten.last()), eaten.drop_last())
    }
}

/// Putting back what a meal took leaves the food as it was.
pub proof fn lemma_uneat_undoes_eat(food: Multiset<Point>, head: Point)
    ensures
        restocked(after_meal(food, head), meal(food, head)) == food,
{
    assert(restocked(after_meal(food, head), meal(food, head)) =~= food);
}

/// Putting back a row of meals ends with the meal that was eaten first.
proof fn lemma_restocked_along_front(
    food: Multiset<Point>,
    first: Option<Point>,
    later: Seq<Option<Point>>,
)
    ensures
        restocked_along(food, seq![first] + later) == restocked(
            restocked_along(food, later),
            first,
        ),
    decreases later.len(),
{
    let all = seq![first] + later;
    if later.len() == 0 {
        assert(all.drop_last() =~= Seq::<Option<Point>>::empty());
        assert(restocked_along(restocked(food, first), all.drop_last()) == restocked(food, first));
    } else {
        assert(all.last() == later.last());
        assert(all.drop_last() =~= seq![first] + later.drop_last());
        lemma_restocked_along_front(restocked(food, later.last()), first, later.drop_last());
    }
}

/// Round trip: any number of meals, followed by putting back what each of
/// them took in the reverse order, leaves the food with the content that it
/// had.
pub proof fn lemma_eat_uneat_round_trip(food: Multiset<Point>, heads: Seq<Point>, from: int)
    ensures
        restocked_along(leftovers(food, heads, from), meals_along(food, heads, from)) == food,
    decreases heads.len() - from,
{
    if from < heads.len() {
        let after = after_meal(food, heads[from]);
        lemma_eat_uneat_round_trip(after, heads, from + 1);
        lemma_restocked_along_front(
            leftovers(food, heads, from),
            meal(food, heads[from]),
            meals_along(after, heads, from + 1),
        );
        lemma_uneat_undoes_eat(food, heads[from]);
    }
}

/// Whether stepping onto `p` runs into a snake of `s`.
pub open spec fn blocked(s: StateView, p: Point) -> bool {
    body_blocks(s.snake, p) || exists|k: int|
        0 <= k < s.others.len() && body_blocks(#[trigger] s.others[k], p)
}

impl View for State {
    type V = StateView;

    open spec fn view(&self) -> StateView {
        StateView {
            snake: self.snake@,
            others: Seq::new(self.other_snakes@.len(), |k: int| self.other_snakes@[k]@),
            food: self.food@.to_multiset(),
        }
    }
}

impl State {
    /// Every snake of the state has at least one segment.
    pub open spec fn wf(&self) -> bool {
        &&& self.snake.wf()
        &&& forall|k: int| 0 <= k < self.other_snakes@.len() ==> self.other_snakes@[k].wf()
    }

    /// The state holds as many snakes as `before` did, and each snake whose
    /// head had advanced in `before` still counts as advanced.
    pub open spec fn keeps_advanced(&self, before: &State) -> bool {
        &&& before.snake.has_advanced() ==> self.snake.has_advanced()
        &&& self.other_snakes@.len() == before.other_snakes@.len()
        &&& forall|k: int|
            0 <= k < before.other_snakes@.len() && before.other_snakes@[k].has_advanced()
                ==> self.other_snakes@[k].has_advanced()
    }

    /// In a well-formed state every body has a head.
    pub proof fn lemma_bodies_nonempty(&self)
        requires
            self.wf(),
        ensures
            self@.snake.len() > 0,
            forall|k: int| 0 <= k < self@.others.len() ==> (#[trigger] self@.others[k]).len() > 0,
    {
        self.snake.lemma_view_of_slots();
        assert forall|k: int| 0 <= k < self@.others.len() implies (#[trigger] self@.others[k]).len()
            > 0 by {
            self.other_snakes@[k].lemma_view_of_slots();
        }
    }

    /// The distance from the head to the nearest food; `0` where none is
    /// left.
    pub fn distance_to_food(&self) -> (d: i64)
        requires
            self.snake.wf(),
        ensures
            d == nearest_food(self@.snake[0], self@.food),
            0 <= d <= 2 * (u32::MAX as int),
    {
        broadcast use vstd::seq_lib::group_to_multiset_ensures;

        let head = self.snake.get_head();
        let ghost food = self.food@.to_multiset();
        if self.food.len() == 0 {
            return 0;
        }
        let mut best: i64 = head.manhattan_distance(&self.food[0]);
        let mut i: usize = 1;
        while i < self.food.len()
            invariant
                1 <= i <= self.food@.len(),
                0 <= best <= 2 * (u32::MAX as int),
                exists|j: int| 0 <= j < i && manhattan(head, self.food@[j]) == best,
                forall|j: int| 0 <= j < i ==> best <= manhattan(head, self.food@[j]),
            decreases self.food@.len() - i,
        {
            let d = head.manhattan_distance(&self.food[i]);
            if d < best {
                best = d;
            }
            i += 1;
        }
        proof {
            let j = choose|j: int| 0 <= j < i && manhattan(head, self.food@[j]) == best;
            assert(self.food@.contains(self.food@[j]));
            assert(food.contains(self.food@[j]));
            assert forall|f: Point| food.contains(f) implies best <= manhattan(head, f) by {
                assert(self.food@.contains(f));
            }
            assert(is_nearest(best as int, head, food));
            assert(food.len() > 0);
        }
        best
    }

    /// Puts `food` back on the board, where there is any.
    pub fn uneat(&mut self, food: Option<Point>)
        ensures
            final(self).snake == old(self).snake,
            final(self).other_snakes == old(self).other_snakes,
            final(self).food@ == match food {
                Some(p) => old(self).food@.push(p),
                None => old(self).food@,
            },
            final(self)@.food == restocked(old(self)@.food, food),
    {
        broadcast use vstd::seq_lib::group_to_multiset_ensures;

        if let Some(food) = food {
            self.food.push(food)
        }
    }

    /// Eats the food that lies on `head`, where there is any: the first such
    /// entry leaves the board and is returned.
    pub fn try_eat(&mut self, head: Point) -> (eaten: Option<Point>)
        ensures
            final(self).snake == old(self).snake,
            final(self).other_snakes == old(self).other_snakes,
            eaten == meal(old(self)@.food, head),
            final(self)@.food == after_meal(old(self)@.food, head),
            match eaten {
                Some(_) => exists|i: int|
                    {
                        &&& 0 <= i < old(self).food@.len()
                        &&& old(self).food@[i] == head
                        &&& forall|j: int| 0 <= j < i ==> old(self).food@[j] != head
                        &&& final(self).food@ == old(self).food@.remove(i)
                    },
                None => final(self).food@ == old(self).food@,
            },
    {
        broadcast use vstd::seq_lib::group_to_multiset_ensures;

        let mut i: usize = 0;
        while i < self.food.len()
            invariant
                i <= self.food@.len(),
                *self == *old(self),
                forall|j: int| 0 <= j < i ==> self.food@[j] != head,
            decreases self.food@.len() - i,
        {
            if self.food[i] == head {
                proof {
                    let before = old(self).food@;
                    assert(before[i as int] == head);
                    vstd::seq_lib::to_multiset_contains(before, head);
                    vstd::seq_lib::to_multiset_remove(before, i as int);
                }
                let eaten = self.food.remove(i);
                return Some(eaten);
            }
            i += 1;
        }
        proof {
            assert(!old(self).food@.contains(head));
            vstd::seq_lib::to_multiset_contains(old(self).food@, head);
            assert(old(self)@.food.remove(head) =~= old(self)@.food);
        }
        None
    }

    /// Whether stepping onto `p` runs into a snake, this one or another.
    pub fn collides_with(&self, p: Point) -> (hit: bool)
        requires
            self.wf(),
        ensures
            hit == blocked(self@, p),
    {
        if self.snake.collides_with(p) {
            return true;
        }
        let mut k: usize = 0;
        while k < self.other_snakes.len()
            invariant
                self.wf(),
                k <= self.other_snakes@.len(),
                forall|j: int| 0 <= j < k ==> !body_blocks(self.other_snakes@[j]@, p),
            decreases self.other_snakes@.len() - k,
        {
            if self.other_snakes[k].collides_with(p) {
                proof {
                    assert(body_blocks(self@.others[k as int], p));
                }
                return true;
            }
            k += 1;
        }
        proof {
            assert forall|j: int| 0 <= j < self@.others.len() implies !body_blocks(
                #[trigger] self@.others[j],
                p,
            ) by {}
        }
        false
    }
}

/// The bodies of the snakes of `snakes` whose id is not `own_id`, in their
/// order.
pub open spec fn rival_bodies(snakes: Seq<Battlesnake>, own_id: Seq<char>) -> Seq<Seq<Point>>
    decreases snakes.len(),
{
    if snakes.len() == 0 {
        Seq::empty()
    } else {
        let before = rival_bodies(snakes.drop_last(), own_id);
        if snakes.last().id@ != own_id {
            before.push(snakes.last().body@)
        } else {
            before
        }
    }
}

/// The state that a snapshot describes.
pub open spec fn opening(turn: Turn) -> StateView {
    StateView {
        snake: turn.you.body@,
        others: rival_bodies(turn.board.snakes@, turn.you.id@),
        food: turn.board.food@.to_multiset(),
    }
}

/// Whether a decision can be taken on a snapshot: every snake in it has a
/// head, and the search on it stays within what the machine can hold.
pub open spec fn playable(turn: Turn) -> bool {
    let s = opening(turn);
    &&& s.snake.len() > 0
    &&& forall|k: int| 0 <= k < s.others.len() ==> (#[trigger] s.others[k]).len() > 0
    &&& heads_inner(s)
    &&& RIVAL_PENALTY * s.others.len() * (DEPTH + 1) <= i64::MAX
}

/// Whether the deciding snake may make the move at place `i` of the
/// enumeration order.
pub open spec fn first_step_legal(s: StateView, i: int, width: i32, height: i32) -> bool {
    legal(shifted(s.snake[0], movement_at(i)), s, width, height)
}

/// The score that the search gives the state after the move at place `i` of
/// the enumeration order.
pub open spec fn first_step_score(
    s: StateView,
    i: int,
    limit: int,
    width: i32,
    height: i32,
) -> int {
    search_score(step_self(s, movement_at(i)), limit, width, height)
}

/// Whether `m` is the move to make in `s`: the first legal move, in the
/// enumeration order, that no other legal move beats; `Up` where no move is
/// legal.
pub open spec fn is_best_move(
    s: StateView,
    m: Movement,
    limit: int,
    width: i32,
    height: i32,
) -> bool {
    if forall|i: int| 0 <= i < 4 ==> !first_step_legal(s, i, width, height) {
        m == Movement::Up
    } else {
        let best = first_step_score(s, m.index(), limit, width, height);
        &&& first_step_legal(s, m.index(), width, height)
        &&& forall|i: int|
            0 <= i < 4 && first_step_legal(s, i, width, height) ==> first_step_score(
                s,
                i,
                limit,
                width,
                height,
            ) <= best
        &&& forall|i: int|
            0 <= i < m.index() && first_step_legal(s, i, width, height) ==> first_step_score(
                s,
                i,
                limit,
                width,
                height,
            ) < best
    }
}

/// The snakes of a snapshot that play against the one with the id
/// `own_id`.
fn rivals_of(snakes: &Vec<Battlesnake>, own_id: &String) -> (rivals: Vec<Snake>)
    requires
        forall|k: int|
            0 <= k < rival_bodies(snakes@, own_id@).len() ==> (#[trigger] rival_bodies(
                snakes@,
                own_id@,
            )[k]).len() > 0,
    ensures
        rivals@.len() == rival_bodies(snakes@, own_id@).len(),
        forall|k: int|
            0 <= k < rivals@.len() ==> {
                &&& (#[trigger] rivals@[k])@ == rival_bodies(snakes@, own_id@)[k]
                &&& rivals@[k].wf()
            },
{
    let mut rivals: Vec<Snake> = Vec::new();
    let mut i: usize = 0;
    while i < snakes.len()
        invariant
            i <= snakes@.len(),
            forall|k: int|
                0 <= k < rival_bodies(snakes@, own_id@).len() ==> (#[trigger] rival_bodies(
                    snakes@,
                    own_id@,
                )[k]).len() > 0,
            rivals@.len() == rival_bodies(snakes@.subrange(0, i as int), own_id@).len(),
            rivals@.len() <= rival_bodies(snakes@, own_id@).len(),
            forall|k: int|
                0 <= k < rivals@.len() ==> {
                    &&& (#[trigger] rivals@[k])@ == rival_bodies(snakes@, own_id@)[k]
                    &&& rivals@[k].wf()
                },
        decreases snakes@.len() - i,
    {
        proof {
            lemma_rival_bodies_prefix(snakes@, own_id@, i + 1);
            lemma_rival_bodies_prefix(snakes@, own_id@, i as int);
            assert(snakes@.subrange(0, i + 1).drop_last() =~= snakes@.subrange(0, i as int));
        }
        if snakes[i].id != *own_id {
            let body = snakes[i].body.clone();
            let ghost place = rivals@.len() as int;
            proof {
                let upto = rival_bodies(snakes@.subrange(0, i + 1), own_id@);
                assert(body@ =~= snakes@[i as int].body@);
                assert(snakes@.subrange(0, i + 1).last() == snakes@[i as int]);
                assert(upto[place] == body@);
                assert(upto[place] == rival_bodies(snakes@, own_id@)[place]);
            }
            let rival: Snake = Snake::from(body);
            rivals.push(rival);
        }
        i += 1;
    }
    proof {
        assert(snakes@.subrange(0, snakes@.len() as int) =~= snakes@);
    }
    rivals
}

/// The rivals among the first `upto` snakes are the first of the rivals
/// among all.
proof fn lemma_rival_bodies_prefix(snakes: Seq<Battlesnake>, own_id: Seq<char>, upto: int)
    requires
        0 <= upto <= snakes.len(),
    ensures
        rival_bodies(snakes.subrange(0, upto), own_id).len() <= rival_bodies(snakes, own_id).len(),
        forall|k: int|
            0 <= k < rival_bodies(snakes.subrange(0, upto), own_id).len() ==> rival_bodies(
                snakes.subrange(0, upto),
                own_id,
            )[k] == rival_bodies(snakes, own_id)[k],
    decreases snakes.len() - upto,
{
    if upto < snakes.len() {
        let longer = snakes.subrange(0, upto + 1);
        assert(longer.drop_last() =~= snakes.subrange(0, upto));
        lemma_rival_bodies_prefix(snakes, own_id, upto + 1);
    } else {
        assert(snakes.subrange(0, upto) =~= snakes);
    }
}

/// The move to make on a snapshot: each legal move of the deciding snake is
/// tried on a board of `WIDTH` by `HEIGHT`, the position after it searched
/// to the depth `DEPTH`, and the first move with the best score is chosen;
/// `Up` where no move is legal.
pub fn get_move(turn: Turn) -> (chosen: Move)
    requires
        playable(turn),
    ensures
        is_best_move(opening(turn), chosen.direction(), DEPTH as int, WIDTH, HEIGHT),
        chosen.is_silent(),
{
    let other_snakes = rivals_of(&turn.board.snakes, &turn.you.id);
    let mut state = State {
        snake: turn.you.body.into(),
        food: turn.board.food,
        other_snakes,
    };
    let ghost s = state@;
    proof {
        assert(s.others =~= opening(turn).others);
        assert(s == opening(turn));
    }

    let possibilities = get_moves(&state.snake, &state, WIDTH, HEIGHT);

    let mut max_score = i64::MIN;
    let mut max: Option<Movement> = None;

    let mut i: usize = 0;
    while i < 4
        invariant
            i <= 4,
            state.wf(),
            state@ == s,
            s.snake.len() > 0,
            heads_inner(s),
            RIVAL_PENALTY * s.others.len() * (DEPTH + 1) <= i64::MAX,
            forall|j: int| 0 <= j < 4 ==> possibilities[j] == first_step_legal(s, j, WIDTH, HEIGHT),
            match max {
                None => forall|j: int| 0 <= j < i ==> !first_step_legal(s, j, WIDTH, HEIGHT),
                Some(m) => {
                    &&& m.index() < i
                    &&& first_step_legal(s, m.index(), WIDTH, HEIGHT)
                    &&& max_score == first_step_score(s, m.index(), DEPTH as int, WIDTH, HEIGHT)
                    &&& forall|j: int|
                        0 <= j < i && first_step_legal(s, j, WIDTH, HEIGHT) ==> first_step_score(
                            s,
                            j,
                            DEPTH as int,
                            WIDTH,
                            HEIGHT,
                        ) <= max_score
                    &&& forall|j: int|
                        0 <= j < m.index() && first_step_legal(s, j, WIDTH, HEIGHT)
                            ==> first_step_score(s, j, DEPTH as int, WIDTH, HEIGHT) < max_score
                },
            },
        decreases 4 - i,
    {
        if possibilities[i] {
            let movement = Movement::from(i);
            let head = movement_to_move(state.snake.get_head(), movement);
            let old_head = state.snake.push_head(head);
            proof {
                assert(state@.others =~= s.others);
                assert(state@ == step_self(s, movement));
            }

            let score = minimax(&mut state, DEPTH, WIDTH, HEIGHT);
            if max.is_none() || score > max_score {
                max_score = score;
                max = Some(movement);
            }
            state.snake.pop_head(old_head);
            proof {
                lemma_retreat_undoes_advance(s.snake, head);
                assert(state@.others =~= s.others);
            }
        }
        i += 1;
    }

    match max {
        Some(movement) => Move::new(movement),
        None => Move::new(Movement::Up),
    }
}

} // verus!
