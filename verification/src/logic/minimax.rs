//! The depth-bounded search.
use crate::logic::moves::{can_shift, get_moves, inner, legal, movement_to_move, shifted};
use crate::logic::{after_meal, leftovers, meal, nearest_food, restocked, State, StateView};
use crate::requests::Point;
use crate::responses::{movement_at, Movement};
use crate::snake::{advanced, lemma_retreat_undoes_advance, retreated};
use vstd::arithmetic::div_mod::{lemma_fundamental_div_mod, lemma_fundamental_div_mod_converse};
use vstd::arithmetic::mul::lemma_mul_inequality;
use vstd::multiset::Multiset;
use vstd::prelude::*;

verus! {

/// What a snake gains in a node in which it finds food under its head.
pub const FOOD_BONUS: i64 = 100;

/// What the deciding snake loses for each other snake that finds food under
/// its head in a node.
pub const RIVAL_PENALTY: i64 = 10;

/// No two squares are further apart than this.
pub const MAX_DISTANCE: i64 = 8589934590;

/// Which side a node of the two-sided search belongs to.
#[derive(Clone, Copy, Debug, PartialEq, Eq, Structural)]
pub enum Minimax {
    Minimize,
    Maximize,
}

/// The larger of two scores.
pub open spec fn higher(a: int, b: int) -> int {
    if a >= b {
        a
    } else {
        b
    }
}

/// The smaller of two scores.
pub open spec fn lower(a: int, b: int) -> int {
    if a <= b {
        a
    } else {
        b
    }
}

/// Whether a search that enters `plies` more nodes below a running score of
/// `score`, against `rivals` other snakes, stays within what an `i64` holds:
/// each node may add one bonus and take one penalty for each rival, and the
/// last may add a distance.
pub open spec fn score_fits(score: int, plies: int, rivals: int) -> bool {
    &&& score + FOOD_BONUS * plies + MAX_DISTANCE <= i64::MAX
    &&& score - RIVAL_PENALTY * rivals * plies >= i64::MIN
    &&& RIVAL_PENALTY * rivals <= i64::MAX
}

/// Whether every head of `s` has four neighbours that the machine can hold.
pub open spec fn heads_inner(s: StateView) -> bool {
    &&& inner(s.snake[0])
    &&& forall|k: int| 0 <= k < s.others.len() ==> inner(#[trigger] s.others[k][0])
}

/// The state after the deciding snake has stepped in the direction `m`.
pub open spec fn step_self(s: StateView, m: Movement) -> StateView {
    StateView { snake: advanced(s.snake, shifted(s.snake[0], m)), ..s }
}

/// The state after each other snake has stepped in its direction of `joint`.
pub open spec fn step_rivals(s: StateView, joint: Seq<Movement>) -> StateView {
    StateView {
        others: Seq::new(
            s.others.len(),
            |k: int| advanced(s.others[k], shifted(s.others[k][0], joint[k])),
        ),
        ..s
    }
}

/// The heads of the other snakes, in their order.
pub open spec fn rival_heads(s: StateView) -> Seq<Point> {
    Seq::new(s.others.len(), |k: int| s.others[k][0])
}

/// How many of `heads[from..]` find food when each in turn eats what lies
/// under it.
pub open spec fn meals(food: Multiset<Point>, heads: Seq<Point>, from: int) -> int
    decreases heads.len() - from,
{
    if from >= heads.len() {
        0
    } else {
        (if meal(food, heads[from]) is Some {
            1int
        } else {
            0int
        }) + meals(after_meal(food, heads[from]), heads, from + 1)
    }
}

/// The directions among the first `upto` of the enumeration order in which a
/// head on `head` may step, in that order.
pub open spec fn legal_moves_upto(
    head: Point,
    s: StateView,
    upto: int,
    width: i32,
    height: i32,
) -> Seq<Movement>
    decreases upto,
{
    if upto <= 0 {
        Seq::empty()
    } else {
        let before = legal_moves_upto(head, s, upto - 1, width, height);
        if legal(shifted(head, movement_at(upto - 1)), s, width, height) {
            before.push(movement_at(upto - 1))
        } else {
            before
        }
    }
}

/// For each other snake, the directions in which it may step.
pub open spec fn rival_move_sets(s: StateView, width: i32, height: i32) -> Seq<Seq<Movement>> {
    Seq::new(s.others.len(), |k: int| legal_moves_upto(s.others[k][0], s, 4, width, height))
}

/// The score of the one-sided search at a node: `s` is the state on entry,
/// `depth` the depth of the node, `score` the running score.
///
/// The snake eats what lies under its head, for a bonus. At the depth limit
/// the node is worth the running score if the snake ate, else the running
/// score plus the distance to the nearest food. Above the limit it is worth
/// its best child, one for each legal move; a node without legal moves is
/// worth the least score there is.
pub open spec fn solo_score(
    s: StateView,
    depth: int,
    limit: int,
    score: int,
    width: i32,
    height: i32,
) -> int
    decreases limit - depth, 1int, 0int,
{
    let head = s.snake[0];
    let ate = meal(s.food, head) is Some;
    let fed = StateView { food: after_meal(s.food, head), ..s };
    let score = if ate {
        score + FOOD_BONUS
    } else {
        score
    };
    if depth >= limit {
        if ate {
            score
        } else {
            score + nearest_food(head, s.food)
        }
    } else {
        solo_best(fed, 0, depth, limit, score, width, height)
    }
}

/// The best child of a node of the one-sided search among the moves from
/// place `from` of the enumeration order on; `fed` is the state of the node
/// after the meal. A node at the depth limit has no children.
pub open spec fn solo_best(
    fed: StateView,
    from: int,
    depth: int,
    limit: int,
    score: int,
    width: i32,
    height: i32,
) -> int
    decreases limit - depth, 0int, 4 - from,
{
    if from >= 4 || depth >= limit {
        i64::MIN as int
    } else {
        let rest = solo_best(fed, from + 1, depth, limit, score, width, height);
        if legal(shifted(fed.snake[0], movement_at(from)), fed, width, height) {
            higher(
                solo_score(step_self(fed, movement_at(from)), depth + 1, limit, score, width, height),
                rest,
            )
        } else {
            rest
        }
    }
}

/// The score of the two-sided search at a node of the side `side`.
///
/// At every node the deciding snake eats what lies under its head, for a
/// bonus, and then each other snake in turn eats what lies under its own,
/// each for a penalty. At the depth limit the node is worth the running
/// score if the deciding snake ate, else the running score plus the
/// distance from its head to the nearest food, the meals of the others
/// undone. Above the limit a maximizing node is worth its best child, one
/// for each legal move of the deciding snake, and a minimizing node its
/// worst, one for each way to pick a legal move for each other snake.
pub open spec fn duel_score(
    s: StateView,
    depth: int,
    limit: int,
    score: int,
    side: Minimax,
    width: i32,
    height: i32,
) -> int
    decreases limit - depth, 1int, 0int,
{
    let head = s.snake[0];
    let ate = meal(s.food, head) is Some;
    let own = after_meal(s.food, head);
    let heads = rival_heads(s);
    let score = score + (if ate {
        FOOD_BONUS as int
    } else {
        0
    }) - RIVAL_PENALTY * meals(own, heads, 0);
    let fed = StateView { food: leftovers(own, heads, 0), ..s };
    if depth >= limit {
        if ate {
            score
        } else {
            score + nearest_food(head, s.food)
        }
    } else {
        match side {
            Minimax::Maximize => duel_best(fed, 0, depth, limit, score, width, height),
            Minimax::Minimize => duel_worst(
                fed,
                cross(rival_move_sets(fed, width, height), 0),
                0,
                depth,
                limit,
                score,
                width,
                height,
            ),
        }
    }
}

/// The best child of a maximizing node among the moves from place `from` of
/// the enumeration order on; the least score there is where none is legal.
/// A node at the depth limit has no children.
pub open spec fn duel_best(
    fed: StateView,
    from: int,
    depth: int,
    limit: int,
    score: int,
    width: i32,
    height: i32,
) -> int
    decreases limit - depth, 0int, 4 - from,
{
    if from >= 4 || depth >= limit {
        i64::MIN as int
    } else {
        let rest = duel_best(fed, from + 1, depth, limit, score, width, height);
        if legal(shifted(fed.snake[0], movement_at(from)), fed, width, height) {
            higher(
                duel_score(
                    step_self(fed, movement_at(from)),
                    depth + 1,
                    limit,
                    score,
                    Minimax::Minimize,
                    width,
                    height,
                ),
                rest,
            )
        } else {
            rest
        }
    }
}

/// The worst child of a minimizing node among the joint moves
/// `joint[from..]`; the greatest score there is where there is none. A node
/// at the depth limit has no children.
pub open spec fn duel_worst(
    fed: StateView,
    joint: Seq<Seq<Movement>>,
    from: int,
    depth: int,
    limit: int,
    score: int,
    width: i32,
    height: i32,
) -> int
    decreases limit - depth, 0int, joint.len() - from,
{
    if from >= joint.len() || from < 0 || depth >= limit {
        i64::MAX as int
    } else {
        lower(
            duel_score(
                step_rivals(fed, joint[from]),
                depth + 1,
                limit,
                score,
                Minimax::Maximize,
                width,
                height,
            ),
            duel_worst(fed, joint, from + 1, depth, limit, score, width, height),
        )
    }
}

/// The score that the search gives a state: that of the one-sided search
/// where the snake is alone, else that of the two-sided search, begun at
/// depth 0 on the maximizing side with a running score of 0.
pub open spec fn search_score(s: StateView, limit: int, width: i32, height: i32) -> int {
    if s.others.len() == 0 {
        solo_score(s, 0, limit, 0, width, height)
    } else {
        duel_score(s, 0, limit, 0, Minimax::Maximize, width, height)
    }
}

/// Every way to pick one element from each of `sets[from..]`, as the
/// sequence of the picks. The picks from the last set change fastest.
pub open spec fn cross<T>(sets: Seq<Seq<T>>, from: int) -> Seq<Seq<T>>
    decreases sets.len() - from,
{
    if from >= sets.len() {
        seq![Seq::empty()]
    } else {
        let rest = cross(sets, from + 1);
        Seq::new(
            sets[from].len() * rest.len(),
            |i: int| seq![sets[from][i / (rest.len() as int)]] + rest[i % (rest.len() as int)],
        )
    }
}

/// The contents of each row of `rows`.
pub open spec fn row_views<T>(rows: Seq<Vec<T>>) -> Seq<Seq<T>> {
    Seq::new(rows.len(), |i: int| rows[i]@)
}

/// Each element of `cross(sets, from)` picks one element from each of
/// `sets[from..]`.
pub proof fn lemma_cross_picks<T>(sets: Seq<Seq<T>>, from: int, i: int)
    requires
        0 <= from <= sets.len(),
        0 <= i < cross(sets, from).len(),
    ensures
        cross(sets, from)[i].len() == sets.len() - from,
        forall|k: int|
            from <= k < sets.len() ==> sets[k].contains(#[trigger] cross(sets, from)[i][k - from]),
    decreases sets.len() - from,
{
    if from < sets.len() {
        let rest = cross(sets, from + 1);
        let n = rest.len() as int;
        let picks = cross(sets, from)[i];
        assert(n > 0) by {
            if n == 0 {
                assert(sets[from].len() * 0 == 0);
            }
        }
        lemma_fundamental_div_mod(i, n);
        vstd::arithmetic::div_mod::lemma_mod_bound(i, n);
        assert(0 <= i / n < sets[from].len()) by {
            vstd::arithmetic::div_mod::lemma_div_pos_is_pos(i, n);
            if i / n >= sets[from].len() {
                lemma_mul_inequality(sets[from].len() as int, i / n, n);
                vstd::arithmetic::mul::lemma_mul_is_commutative(n, i / n);
            }
        }
        lemma_cross_picks(sets, from + 1, i % n);
        assert(picks == seq![sets[from][i / n]] + rest[i % n]);
        assert forall|k: int| from <= k < sets.len() implies sets[k].contains(
            #[trigger] picks[k - from],
        ) by {
            if k == from {
                assert(picks[0] == sets[from][i / n]);
            } else {
                assert(picks[k - from] == rest[i % n][k - (from + 1)]);
            }
        }
    }
}

/// `item` followed by the elements of `tail`.
fn prepend<T: Copy>(item: T, tail: &Vec<T>) -> (joined: Vec<T>)
    ensures
        joined@ == seq![item] + tail@,
{
    let mut joined: Vec<T> = Vec::new();
    joined.push(item);
    let mut j: usize = 0;
    while j < tail.len()
        invariant
            j <= tail@.len(),
            joined@ == seq![item] + tail@.subrange(0, j as int),
        decreases tail@.len() - j,
    {
        joined.push(tail[j]);
        assert(joined@ =~= seq![item] + tail@.subrange(0, j + 1));
        j += 1;
    }
    assert(joined@ =~= seq![item] + tail@);
    joined
}

/// Every way to pick one element from each of the rows of `input` from the
/// row `index` on.
fn generate_permutations<T: Copy>(input: &[Vec<T>], index: usize) -> (out: Vec<Vec<T>>)
    ensures
        row_views(out@) == cross(row_views(input@), index as int),
    decreases input@.len() - index,
{
    if index >= input.len() {
        let mut out: Vec<Vec<T>> = Vec::new();
        out.push(Vec::new());
        assert(row_views(out@) =~= cross(row_views(input@), index as int));
        return out;
    }
    let mut permutations: Vec<Vec<T>> = Vec::new();
    let next_permutations = generate_permutations(input, index + 1);
    let set = &input[index];
    let ghost sets = row_views(input@);
    let ghost rest = cross(sets, index + 1);
    let ghost n = rest.len() as int;
    assert(set@ == sets[index as int]);
    assert(next_permutations@.len() == n);
    let mut a: usize = 0;
    while a < set.len()
        invariant
            a <= set@.len(),
            n == rest.len(),
            n == next_permutations@.len(),
            rest == row_views(next_permutations@),
            permutations@.len() == a * n,
            forall|i: int|
                0 <= i < permutations@.len() ==> (#[trigger] permutations@[i])@ == seq![
                    set@[i / n],
                ] + rest[i % n],
        decreases set@.len() - a,
    {
        let mut b: usize = 0;
        while b < next_permutations.len()
            invariant
                a < set@.len(),
                b <= n,
                n == rest.len(),
                n == next_permutations@.len(),
                rest == row_views(next_permutations@),
                permutations@.len() == a * n + b,
                forall|i: int|
                    0 <= i < permutations@.len() ==> (#[trigger] permutations@[i])@ == seq![
                        set@[i / n],
                    ] + rest[i % n],
            decreases n - b,
        {
            let joined = prepend(set[a], &next_permutations[b]);
            proof {
                lemma_fundamental_div_mod_converse(a * n + b, n, a as int, b as int);
                assert(rest[b as int] == next_permutations@[b as int]@);
            }
            permutations.push(joined);
            b += 1;
        }
        proof {
            assert(a * n + n == (a + 1) * n) by (nonlinear_arith);
        }
        a += 1;
    }
    proof {
        assert(row_views(permutations@) =~= cross(sets, index as int));
    }
    permutations
}

/// Every way to pick one element from each row of `input`, each as the
/// vector of its picks, in the order in which the picks from the last row
/// change fastest. Where a row is empty there is no way to pick; where
/// there is no row there is one, the empty pick.
pub fn permutations<T: Copy>(input: &[Vec<T>]) -> (out: Vec<Vec<T>>)
    ensures
        row_views(out@) == cross(row_views(input@), 0),
{
    generate_permutations(input, 0)
}

/// No child is worth less than the least score there is.
proof fn lemma_solo_best_floor(
    fed: StateView,
    from: int,
    depth: int,
    limit: int,
    score: int,
    width: i32,
    height: i32,
)
    ensures
        solo_best(fed, from, depth, limit, score, width, height) >= i64::MIN,
    decreases 4 - from,
{
    if from < 4 && depth < limit {
        lemma_solo_best_floor(fed, from + 1, depth, limit, score, width, height);
    }
}

/// A running score that fits stays one that fits in the node below, for
/// whatever the node above has added and taken within its bounds.
proof fn lemma_score_fits_below(score: int, plies: int, rivals: int, change: int)
    requires
        score_fits(score, plies, rivals),
        plies >= 1,
        rivals >= 0,
        -(RIVAL_PENALTY * rivals) <= change <= FOOD_BONUS,
    ensures
        i64::MIN <= score + change,
        score + change + MAX_DISTANCE <= i64::MAX,
        plies >= 2 ==> score_fits(score + change, plies - 1, rivals),
{
    let loss = RIVAL_PENALTY * rivals;
    let gain = FOOD_BONUS as int;
    assert(loss * plies == loss * (plies - 1) + loss) by (nonlinear_arith);
    assert(loss * (plies - 1) >= 0) by (nonlinear_arith)
        requires
            loss >= 0,
            plies >= 1,
    ;
    assert(gain * plies == gain * (plies - 1) + gain) by (nonlinear_arith);
    assert(gain * (plies - 1) >= 0) by (nonlinear_arith)
        requires
            gain >= 0,
            plies >= 1,
    ;
}

/// The one-sided search: the score of the node that `state` stands at, with
/// `depth` the depth of that node and `current_score` what the nodes above
/// have gathered. The other snakes are obstacles that never move. The state
/// is left as it was found, but for the order in which the food is stored.
pub fn minimax_impl(
    state: &mut State,
    depth: u8,
    current_score: i64,
    depth_limit: u8,
    width: i32,
    height: i32,
) -> (score: i64)
    requires
        old(state).wf(),
        depth <= depth_limit,
        inner(old(state)@.snake[0]),
        score_fits(current_score as int, depth_limit - depth + 1, 0),
    ensures
        final(state).wf(),
        final(state)@ == old(state)@,
        final(state).other_snakes == old(state).other_snakes,
        final(state).keeps_advanced(old(state)),
        score == solo_score(
            old(state)@,
            depth as int,
            depth_limit as int,
            current_score as int,
            width,
            height,
        ),
    decreases depth_limit - depth,
{
    let ghost entry = state@;
    let head = state.snake.get_head();
    let ate = state.try_eat(head);
    let ghost fed = state@;
    proof {
        state.snake.lemma_view_of_slots();
        lemma_score_fits_below(
            current_score as int,
            depth_limit - depth + 1,
            0,
            if ate.is_some() {
                FOOD_BONUS as int
            } else {
                0
            },
        );
        assert(fed.others =~= entry.others);
        assert(fed == StateView { food: entry.food.remove(head), ..entry });
    }
    let mut current_score = current_score;
    if let Some(_) = ate {
        current_score += FOOD_BONUS;
    }
    if depth == depth_limit {
        return match ate {
            Some(p) => {
                state.uneat(Some(p));
                proof {
                    assert(state@.food =~= entry.food);
                    assert(state@.others =~= entry.others);
                }
                current_score
            },
            None => {
                let distance_to_food = state.distance_to_food();
                proof {
                    assert(state@.food =~= entry.food);
                }
                current_score + distance_to_food
            },
        };
    }
    let possibilities = get_moves(&state.snake, state, width, height);
    let mut best = i64::MIN;
    let mut i: usize = 0;
    proof {
        lemma_solo_best_floor(
            fed,
            0,
            depth as int,
            depth_limit as int,
            current_score as int,
            width,
            height,
        );
    }
    while i < 4
        invariant
            i <= 4,
            depth < depth_limit,
            state.wf(),
            state@ == fed,
            state.other_snakes == old(state).other_snakes,
            old(state).snake.has_advanced() ==> state.snake.has_advanced(),
            fed.snake.len() > 0,
            head == fed.snake[0],
            inner(head),
            score_fits(current_score as int, depth_limit - depth, 0),
            forall|j: int|
                0 <= j < 4 ==> possibilities[j] == legal(
                    shifted(head, movement_at(j)),
                    fed,
                    width,
                    height,
                ),
            higher(
                best as int,
                solo_best(
                    fed,
                    i as int,
                    depth as int,
                    depth_limit as int,
                    current_score as int,
                    width,
                    height,
                ),
            ) == solo_best(
                fed,
                0,
                depth as int,
                depth_limit as int,
                current_score as int,
                width,
                height,
            ),
        decreases 4 - i,
    {
        if possibilities[i] {
            let movement = Movement::from(i);
            let new_head = movement_to_move(head, movement);
            let old_head = state.snake.push_head(new_head);
            proof {
                assert(state@.others =~= fed.others);
                assert(state@ == step_self(fed, movement));
            }
            let score = minimax_impl(state, depth + 1, current_score, depth_limit, width, height);
            state.snake.pop_head(old_head);
            proof {
                lemma_retreat_undoes_advance(fed.snake, new_head);
                assert(state@.others =~= fed.others);
            }
            if score > best {
                best = score;
            }
        }
        i += 1;
    }
    state.uneat(ate);
    proof {
        assert(state@.food =~= entry.food);
        assert(state@.others =~= entry.others);
    }
    best
}

/// Lets each other snake in turn eat what lies under its head, and returns
/// what was eaten, in that order.
fn feed_rivals(state: &mut State) -> (eaten: Vec<Point>)
    requires
        old(state).wf(),
    ensures
        final(state).snake == old(state).snake,
        final(state).other_snakes == old(state).other_snakes,
        eaten@.len() == meals(old(state)@.food, rival_heads(old(state)@), 0),
        eaten@.len() <= old(state).other_snakes@.len(),
        final(state)@.food == leftovers(old(state)@.food, rival_heads(old(state)@), 0),
        final(state)@.food.add(eaten@.to_multiset()) == old(state)@.food,
{
    broadcast use vstd::seq_lib::group_to_multiset_ensures;

    let ghost heads = rival_heads(old(state)@);
    let ghost stock = old(state)@.food;
    let mut eaten: Vec<Point> = Vec::new();
    let mut k: usize = 0;
    proof {
        assert(state@.food.add(eaten@.to_multiset()) =~= stock);
    }
    while k < state.other_snakes.len()
        invariant
            state.wf(),
            state.snake == old(state).snake,
            state.other_snakes == old(state).other_snakes,
            heads == rival_heads(old(state)@),
            k <= heads.len(),
            eaten@.len() <= k,
            eaten@.len() + meals(state@.food, heads, k as int) == meals(stock, heads, 0),
            leftovers(state@.food, heads, k as int) == leftovers(stock, heads, 0),
            state@.food.add(eaten@.to_multiset()) == stock,
        decreases heads.len() - k,
    {
        let head = state.other_snakes[k].get_head();
        let ghost before = state@.food;
        let ghost had = eaten@;
        assert(head == heads[k as int]);
        if let Some(p) = state.try_eat(head) {
            eaten.push(p);
            proof {
                assert(eaten@ == had.push(p));
                vstd::seq_lib::to_multiset_build(had, p);
                assert(state@.food.add(eaten@.to_multiset()) =~= before.add(had.to_multiset()));
            }
        } else {
            proof {
                assert(state@.food =~= before);
            }
        }
        k += 1;
    }
    eaten
}

/// Puts every element of `eaten` back on the board, in their order.
fn restore_meals(state: &mut State, eaten: &Vec<Point>)
    ensures
        final(state).snake == old(state).snake,
        final(state).other_snakes == old(state).other_snakes,
        final(state)@.food == old(state)@.food.add(eaten@.to_multiset()),
{
    broadcast use vstd::seq_lib::group_to_multiset_ensures;

    let ghost stock = old(state)@.food;
    let mut j: usize = 0;
    proof {
        assert(eaten@.subrange(0, 0) =~= Seq::<Point>::empty());
        assert(state@.food =~= stock.add(eaten@.subrange(0, 0).to_multiset()));
    }
    while j < eaten.len()
        invariant
            state.snake == old(state).snake,
            state.other_snakes == old(state).other_snakes,
            j <= eaten@.len(),
            state@.food == stock.add(eaten@.subrange(0, j as int).to_multiset()),
        decreases eaten@.len() - j,
    {
        let ghost before = state@.food;
        state.uneat(Some(eaten[j]));
        proof {
            let done = eaten@.subrange(0, j as int);
            assert(eaten@.subrange(0, j + 1) =~= done.push(eaten@[j as int]));
            vstd::seq_lib::to_multiset_build(done, eaten@[j as int]);
            assert(state@.food =~= stock.add(eaten@.subrange(0, j + 1).to_multiset()));
        }
        j += 1;
    }
    proof {
        assert(eaten@.subrange(0, eaten@.len() as int) =~= eaten@);
    }
}

/// Membership in the legal moves of a head means being legal.
proof fn lemma_legal_moves_are_legal(
    head: Point,
    s: StateView,
    upto: int,
    width: i32,
    height: i32,
    m: Movement,
)
    requires
        legal_moves_upto(head, s, upto, width, height).contains(m),
    ensures
        legal(shifted(head, m), s, width, height),
    decreases upto,
{
    if upto > 0 {
        let before = legal_moves_upto(head, s, upto - 1, width, height);
        let all = legal_moves_upto(head, s, upto, width, height);
        let i = choose|i: int| 0 <= i < all.len() && all[i] == m;
        if i < before.len() {
            assert(before[i] == m);
            lemma_legal_moves_are_legal(head, s, upto - 1, width, height, m);
        }
    }
}

/// For each other snake, the moves that it may make, in the order right,
/// left, up, down.
fn rival_moves(state: &State, width: i32, height: i32) -> (sets: Vec<Vec<Movement>>)
    requires
        state.wf(),
        heads_inner(state@),
    ensures
        row_views(sets@) == rival_move_sets(state@, width, height),
{
    let mut sets: Vec<Vec<Movement>> = Vec::new();
    let mut k: usize = 0;
    while k < state.other_snakes.len()
        invariant
            state.wf(),
            heads_inner(state@),
            k <= state.other_snakes@.len(),
            sets@.len() == k,
            forall|j: int|
                0 <= j < k ==> (#[trigger] sets@[j])@ == legal_moves_upto(
                    state@.others[j][0],
                    state@,
                    4,
                    width,
                    height,
                ),
        decreases state.other_snakes@.len() - k,
    {
        let ghost head = state@.others[k as int][0];
        assert(inner(head));
        let possibilities = get_moves(&state.other_snakes[k], state, width, height);
        let mut set: Vec<Movement> = Vec::new();
        let mut i: usize = 0;
        while i < 4
            invariant
                i <= 4,
                set@ == legal_moves_upto(head, state@, i as int, width, height),
                forall|j: int|
                    0 <= j < 4 ==> possibilities[j] == legal(
                        shifted(head, movement_at(j)),
                        state@,
                        width,
                        height,
                    ),
            decreases 4 - i,
        {
            if possibilities[i] {
                set.push(Movement::from(i));
            }
            i += 1;
        }
        sets.push(set);
        k += 1;
    }
    proof {
        assert(row_views(sets@) =~= rival_move_sets(state@, width, height));
    }
    sets
}

/// Moves the head of each other snake one square in its direction of
/// `joint`, and collects in `evicted` what fell off each snake's end.
fn advance_rivals(state: &mut State, joint: &Vec<Movement>, evicted: &mut Vec<Point>)
    requires
        old(state).wf(),
        old(evicted)@.len() == 0,
        joint@.len() == old(state).other_snakes@.len(),
        forall|k: int|
            0 <= k < joint@.len() ==> can_shift(#[trigger] old(state)@.others[k][0], joint@[k]),
    ensures
        final(state).wf(),
        final(state).snake == old(state).snake,
        final(state).food == old(state).food,
        final(state)@ == step_rivals(old(state)@, joint@),
        final(state).other_snakes@.len() == old(state).other_snakes@.len(),
        forall|k: int|
            0 <= k < final(state).other_snakes@.len() ==> (#[trigger] final(state).other_snakes@[k]).has_advanced(),
        final(evicted)@.len() == joint@.len(),
        forall|k: int|
            0 <= k < joint@.len() ==> #[trigger] final(evicted)@[k] == old(state)@.others[k].last(),
{
    let ghost entry = old(state)@;
    let mut s: usize = 0;
    while s < state.other_snakes.len()
        invariant
            state.wf(),
            state.snake == old(state).snake,
            state.food == old(state).food,
            state.other_snakes@.len() == old(state).other_snakes@.len(),
            joint@.len() == state.other_snakes@.len(),
            entry == old(state)@,
            s <= joint@.len(),
            evicted@.len() == s,
            forall|k: int|
                0 <= k < joint@.len() ==> can_shift(#[trigger] entry.others[k][0], joint@[k]),
            forall|k: int|
                0 <= k < s ==> {
                    &&& (#[trigger] state.other_snakes@[k])@ == advanced(
                        entry.others[k],
                        shifted(entry.others[k][0], joint@[k]),
                    )
                    &&& state.other_snakes@[k].has_advanced()
                },
            forall|k: int| 0 <= k < s ==> #[trigger] evicted@[k] == entry.others[k].last(),
            forall|k: int|
                s <= k < joint@.len() ==> #[trigger] state.other_snakes@[k]
                    == old(state).other_snakes@[k],
        decreases joint@.len() - s,
    {
        let movement = joint[s];
        assert(can_shift(entry.others[s as int][0], movement));
        let new_head = movement_to_move(state.other_snakes[s].get_head(), movement);
        let old_head = state.other_snakes[s].push_head(new_head);
        evicted.push(old_head);
        s += 1;
    }
    proof {
        assert(state@.others =~= step_rivals(entry, joint@).others);
    }
}

/// Takes the head of each other snake back by one square and gives it the
/// element of `evicted` at its place as its last segment.
fn retreat_rivals(state: &mut State, evicted: &Vec<Point>)
    requires
        old(state).wf(),
        evicted@.len() == old(state).other_snakes@.len(),
        forall|k: int|
            0 <= k < old(state).other_snakes@.len() ==> (#[trigger] old(state).other_snakes@[k]).has_advanced(),
    ensures
        final(state).wf(),
        final(state).snake == old(state).snake,
        final(state).food == old(state).food,
        final(state).other_snakes@.len() == old(state).other_snakes@.len(),
        forall|k: int|
            0 <= k < final(state).other_snakes@.len() ==> {
                &&& (#[trigger] final(state).other_snakes@[k]).has_advanced()
                &&& final(state).other_snakes@[k]@ == retreated(
                    old(state).other_snakes@[k]@,
                    evicted@[k],
                )
            },
{
    let mut i: usize = 0;
    while i < evicted.len()
        invariant
            state.wf(),
            state.snake == old(state).snake,
            state.food == old(state).food,
            state.other_snakes@.len() == old(state).other_snakes@.len(),
            evicted@.len() == state.other_snakes@.len(),
            i <= evicted@.len(),
            forall|k: int|
                0 <= k < state.other_snakes@.len() ==> (#[trigger] state.other_snakes@[k]).has_advanced(),
            forall|k: int|
                0 <= k < i ==> (#[trigger] state.other_snakes@[k])@ == retreated(
                    old(state).other_snakes@[k]@,
                    evicted@[k],
                ),
            forall|k: int|
                i <= k < evicted@.len() ==> #[trigger] state.other_snakes@[k]
                    == old(state).other_snakes@[k],
        decreases evicted@.len() - i,
    {
        state.other_snakes[i].pop_head(evicted[i]);
        i += 1;
    }
}

/// No child of a maximizing node is worth less than the least score there
/// is.
proof fn lemma_duel_best_floor(
    fed: StateView,
    from: int,
    depth: int,
    limit: int,
    score: int,
    width: i32,
    height: i32,
)
    ensures
        duel_best(fed, from, depth, limit, score, width, height) >= i64::MIN,
    decreases 4 - from,
{
    if from < 4 && depth < limit {
        lemma_duel_best_floor(fed, from + 1, depth, limit, score, width, height);
    }
}

/// No child of a minimizing node is worth more than the greatest score
/// there is.
proof fn lemma_duel_worst_ceiling(
    fed: StateView,
    joint: Seq<Seq<Movement>>,
    from: int,
    depth: int,
    limit: int,
    score: int,
    width: i32,
    height: i32,
)
    ensures
        duel_worst(fed, joint, from, depth, limit, score, width, height) <= i64::MAX,
    decreases joint.len() - from,
{
    if 0 <= from < joint.len() && depth < limit {
        lemma_duel_worst_ceiling(fed, joint, from + 1, depth, limit, score, width, height);
    }
}

/// A joint move out of the legal moves of each other snake takes each of
/// them onto the board.
proof fn lemma_joint_move_is_legal(fed: StateView, width: i32, height: i32, c: int)
    requires
        0 <= c < cross(rival_move_sets(fed, width, height), 0).len(),
    ensures
        cross(rival_move_sets(fed, width, height), 0)[c].len() == fed.others.len(),
        forall|k: int|
            0 <= k < fed.others.len() ==> legal(
                shifted(
                    (#[trigger] fed.others[k])[0],
                    cross(rival_move_sets(fed, width, height), 0)[c][k],
                ),
                fed,
                width,
                height,
            ),
{
    let sets = rival_move_sets(fed, width, height);
    let joint = cross(sets, 0)[c];
    lemma_cross_picks(sets, 0, c);
    assert forall|k: int| 0 <= k < fed.others.len() implies legal(
        shifted((#[trigger] fed.others[k])[0], joint[k]),
        fed,
        width,
        height,
    ) by {
        assert(sets[k].contains(joint[k - 0]));
        lemma_legal_moves_are_legal(fed.others[k][0], fed, 4, width, height, joint[k]);
    }
}

/// The two-sided search: the score of the node of the side `minimax` that
/// `state` stands at, with `depth` the depth of that node and
/// `current_score` what the nodes above have gathered. The other snakes
/// move together, as one opponent that picks what is worst for the deciding
/// snake. The state is left as it was found, but for the order in which the
/// food is stored.
pub fn minimax_impl2(
    state: &mut State,
    depth: u8,
    current_score: i64,
    minimax: Minimax,
    depth_limit: u8,
    width: i32,
    height: i32,
) -> (score: i64)
    requires
        old(state).wf(),
        depth <= depth_limit,
        heads_inner(old(state)@),
        score_fits(
            current_score as int,
            depth_limit - depth + 1,
            old(state).other_snakes@.len() as int,
        ),
    ensures
        final(state).wf(),
        final(state)@ == old(state)@,
        final(state).keeps_advanced(old(state)),
        score == duel_score(
            old(state)@,
            depth as int,
            depth_limit as int,
            current_score as int,
            minimax,
            width,
            height,
        ),
    decreases depth_limit - depth,
{
    let ghost entry = state@;
    let ghost rivals = state.other_snakes@.len() as int;
    let ghost heads = rival_heads(entry);
    proof {
        state.lemma_bodies_nonempty();
    }
    let head = state.snake.get_head();

    let ate = state.try_eat(head);
    let ghost own = state@.food;
    proof {
        assert(state@.others =~= entry.others);
        assert(rival_heads(state@) =~= heads);
    }
    let other_ate = feed_rivals(state);
    let ghost fed = state@;
    proof {
        assert(fed.others =~= entry.others);
        assert(fed == StateView { food: leftovers(own, heads, 0), ..entry });
        lemma_score_fits_below(
            current_score as int,
            depth_limit - depth + 1,
            rivals,
            (if ate.is_some() {
                FOOD_BONUS as int
            } else {
                0
            }) - RIVAL_PENALTY * other_ate@.len(),
        );
    }

    let mut current_score = current_score;
    if let Some(_) = ate {
        current_score += FOOD_BONUS;
    }
    current_score -= RIVAL_PENALTY * (other_ate.len() as i64);

    if depth == depth_limit {
        restore_meals(state, &other_ate);
        return match ate {
            Some(p) => {
                state.uneat(Some(p));
                proof {
                    assert(state@.food =~= entry.food);
                    assert(state@.others =~= entry.others);
                }
                current_score
            },
            None => {
                let distance_to_food = state.distance_to_food();
                proof {
                    assert(state@.food =~= entry.food);
                    assert(state@.others =~= entry.others);
                }
                current_score + distance_to_food
            },
        };
    }
    match minimax {
        Minimax::Minimize => {
            let mut value = i64::MAX;
            let mut old_snakes: Vec<Point> = Vec::with_capacity(state.other_snakes.len());
            let move_sets = rival_moves(state, width, height);
            let moves = permutations(move_sets.as_slice());
            let ghost joint = cross(rival_move_sets(fed, width, height), 0);
            proof {
                lemma_duel_worst_ceiling(
                    fed,
                    joint,
                    0,
                    depth as int,
                    depth_limit as int,
                    current_score as int,
                    width,
                    height,
                );
            }
            let mut c: usize = 0;
            while c < moves.len()
                invariant
                    depth < depth_limit,
                    state.wf(),
                    state@ == fed,
                    state.keeps_advanced(old(state)),
                    rivals == fed.others.len(),
                    heads_inner(fed),
                    forall|k: int| 0 <= k < rivals ==> (#[trigger] fed.others[k]).len() > 0,
                    score_fits(current_score as int, depth_limit - depth, rivals),
                    old_snakes@.len() == 0,
                    joint == cross(rival_move_sets(fed, width, height), 0),
                    row_views(moves@) == joint,
                    c <= moves@.len(),
                    lower(
                        value as int,
                        duel_worst(
                            fed,
                            joint,
                            c as int,
                            depth as int,
                            depth_limit as int,
                            current_score as int,
                            width,
                            height,
                        ),
                    ) == duel_worst(
                        fed,
                        joint,
                        0,
                        depth as int,
                        depth_limit as int,
                        current_score as int,
                        width,
                        height,
                    ),
                decreases moves@.len() - c,
            {
                let move_set = &moves[c];
                proof {
                    assert(move_set@ == joint[c as int]);
                    lemma_joint_move_is_legal(fed, width, height, c as int);
                    assert forall|k: int| 0 <= k < move_set@.len() implies can_shift(
                        #[trigger] state@.others[k][0],
                        move_set@[k],
                    ) by {
                        assert(inner(fed.others[k][0]));
                    }
                }
                advance_rivals(state, move_set, &mut old_snakes);
                proof {
                    assert forall|k: int| 0 <= k < state@.others.len() implies inner(
                        #[trigger] state@.others[k][0],
                    ) by {
                        assert(legal(
                            shifted(fed.others[k][0], move_set@[k]),
                            fed,
                            width,
                            height,
                        ));
                    }
                }
                let ghost moved = state@;

                let score = minimax_impl2(
                    state,
                    depth + 1,
                    current_score,
                    Minimax::Maximize,
                    depth_limit,
                    width,
                    height,
                );

                if score < value {
                    value = score;
                }
                retreat_rivals(state, &old_snakes);
                old_snakes.clear();
                proof {
                    assert forall|k: int| 0 <= k < rivals implies #[trigger] state@.others[k]
                        == fed.others[k] by {
                        assert(moved.others[k] == advanced(
                            fed.others[k],
                            shifted(fed.others[k][0], move_set@[k]),
                        ));
                        lemma_retreat_undoes_advance(
                            fed.others[k],
                            shifted(fed.others[k][0], move_set@[k]),
                        );
                    }
                    assert(state@.others =~= fed.others);
                }
                c += 1;
            }
            state.uneat(ate);
            restore_meals(state, &other_ate);
            proof {
                let meals = other_ate@.to_multiset();
                assert(fed.food.add(meals) == own);
                assert(state@.food =~= restocked(fed.food.add(meals), ate));
                assert(state@.food =~= entry.food);
                assert(state@.others =~= entry.others);
            }
            value
        },
        Minimax::Maximize => {
            let possibilities = get_moves(&state.snake, state, width, height);
            let mut best = i64::MIN;
            let mut i: usize = 0;
            proof {
                lemma_duel_best_floor(
                    fed,
                    0,
                    depth as int,
                    depth_limit as int,
                    current_score as int,
                    width,
                    height,
                );
            }
            while i < 4
                invariant
                    i <= 4,
                    depth < depth_limit,
                    state.wf(),
                    state@ == fed,
                    state.keeps_advanced(old(state)),
                    rivals == fed.others.len(),
                    fed.snake.len() > 0,
                    head == fed.snake[0],
                    heads_inner(fed),
                    score_fits(current_score as int, depth_limit - depth, rivals),
                    forall|j: int|
                        0 <= j < 4 ==> possibilities[j] == legal(
                            shifted(head, movement_at(j)),
                            fed,
                            width,
                            height,
                        ),
                    higher(
                        best as int,
                        duel_best(
                            fed,
                            i as int,
                            depth as int,
                            depth_limit as int,
                            current_score as int,
                            width,
                            height,
                        ),
                    ) == duel_best(
                        fed,
                        0,
                        depth as int,
                        depth_limit as int,
                        current_score as int,
                        width,
                        height,
                    ),
                decreases 4 - i,
            {
                if possibilities[i] {
                    let movement = Movement::from(i);
                    let new_head = movement_to_move(head, movement);
                    let old_head = state.snake.push_head(new_head);
                    proof {
                        assert(state@.others =~= fed.others);
                        assert(state@ == step_self(fed, movement));
                    }

                    let score = minimax_impl2(
                        state,
                        depth + 1,
                        current_score,
                        Minimax::Minimize,
                        depth_limit,
                        width,
                        height,
                    );

                    state.snake.pop_head(old_head);
                    proof {
                        lemma_retreat_undoes_advance(fed.snake, new_head);
                        assert(state@.others =~= fed.others);
                    }
                    if score > best {
                        best = score;
                    }
                }
                i += 1;
            }
            state.uneat(ate);
            restore_meals(state, &other_ate);
            proof {
                let meals = other_ate@.to_multiset();
                assert(fed.food.add(meals) == own);
                assert(state@.food =~= restocked(fed.food.add(meals), ate));
                assert(state@.food =~= entry.food);
                assert(state@.others =~= entry.others);
            }
            best
        },
    }
}

/// At the depth limit the two searches differ by the penalties alone: the
/// two-sided score is the one-sided score less one penalty for each other
/// snake that finds food under its head.
pub proof fn lemma_rival_meals_cost(
    s: StateView,
    depth: int,
    limit: int,
    score: int,
    side: Minimax,
    width: i32,
    height: i32,
)
    requires
        depth >= limit,
    ensures
        duel_score(s, depth, limit, score, side, width, height) == solo_score(
            s,
            depth,
            limit,
            score,
            width,
            height,
        ) - RIVAL_PENALTY * meals(after_meal(s.food, s.snake[0]), rival_heads(s), 0),
{
}

/// One other snake, with its head on food that the deciding snake does not
/// stand on, makes the two-sided score at the depth limit less than the
/// one-sided score by exactly one penalty.
pub proof fn lemma_one_rival_meal_costs_one_penalty(
    s: StateView,
    depth: int,
    limit: int,
    score: int,
    side: Minimax,
    width: i32,
    height: i32,
)
    requires
        depth >= limit,
        s.others.len() == 1,
        s.food.contains(s.others[0][0]),
        s.others[0][0] != s.snake[0],
    ensures
        duel_score(s, depth, limit, score, side, width, height) == solo_score(
            s,
            depth,
            limit,
            score,
            width,
            height,
        ) - RIVAL_PENALTY,
{
    let own = after_meal(s.food, s.snake[0]);
    let heads = rival_heads(s);
    assert(own.contains(heads[0]));
    assert(meals(after_meal(own, heads[0]), heads, 1) == 0);
    assert(meals(own, heads, 0) == 1);
    lemma_rival_meals_cost(s, depth, limit, score, side, width, height);
}

/// What a call of the search leaves behind: a state that holds what it held
/// before, and the score of that content.
pub open spec fn searched(
    before: StateView,
    after: StateView,
    score: int,
    limit: int,
    width: i32,
    height: i32,
) -> bool {
    after == before && score == search_score(before, limit, width, height)
}

/// The search has no effect that a caller can see: of two calls in a row,
/// the second finds what the first found, gives the same score, and leaves
/// it once more.
pub proof fn lemma_search_repeats(
    found: StateView,
    between: StateView,
    left: StateView,
    first: int,
    second: int,
    limit: int,
    width: i32,
    height: i32,
)
    requires
        searched(found, between, first, limit, width, height),
        searched(between, left, second, limit, width, height),
    ensures
        first == second,
        left == found,
{
}

/// The score that the search gives the state: that of the one-sided search
/// where there is no other snake, else that of the two-sided search, begun
/// on the maximizing side. The state is left as it was found, but for the
/// order in which the food is stored, so that a second call gives the same
/// score.
pub fn minimax(state: &mut State, depth_limit: u8, width: i32, height: i32) -> (score: i64)
    requires
        old(state).wf(),
        heads_inner(old(state)@),
        RIVAL_PENALTY * old(state).other_snakes@.len() * (depth_limit + 1) <= i64::MAX,
    ensures
        final(state).wf(),
        final(state).keeps_advanced(old(state)),
        searched(old(state)@, final(state)@, score as int, depth_limit as int, width, height),
{
    proof {
        let loss = RIVAL_PENALTY * state.other_snakes@.len();
        assert(loss <= loss * (depth_limit + 1)) by (nonlinear_arith)
            requires
                loss >= 0,
                depth_limit >= 0,
        ;
    }
    if state.other_snakes.len() == 0 {
        minimax_impl(state, 0, 0, depth_limit, width, height)
    } else {
        minimax_impl2(state, 0, 0, Minimax::Maximize, depth_limit, width, height)
    }
}

} // verus!
