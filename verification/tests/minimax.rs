use snek::logic::minimax::{minimax, minimax_impl, minimax_impl2, permutations, Minimax};
use snek::logic::State;
use snek::requests::Point;
use snek::responses::Movement;
use snek::snake::optim::Snake;

fn alone(body: Vec<Point>, food: Vec<Point>) -> State {
    State {
        snake: body.into(),
        food,
        other_snakes: Vec::new(),
    }
}

fn sorted(points: &Vec<Point>) -> Vec<Point> {
    let mut points = points.clone();
    points.sort();
    points
}

#[test]
fn minimax_move_left() {
    /*
    .....
    ...x.
    ...x.
    f..x.
    .....
    */
    let mut state = alone(
        vec![
            Point { x: 3, y: 1 },
            Point { x: 3, y: 2 },
            Point { x: 3, y: 3 },
        ],
        vec![Point { x: 0, y: 1 }],
    );

    let h = state.snake.push_head(Point { x: 2, y: 1 });
    let min_left = minimax(&mut state, 0, 5, 5);

    state.snake.pop_head(h);
    state.snake.push_head(Point { x: 3, y: 0 });
    let min_down = minimax(&mut state, 0, 5, 5);

    state.snake.pop_head(h);
    state.snake.push_head(Point { x: 4, y: 1 });
    let min_right = minimax(&mut state, 0, 5, 5);

    assert_eq!(min_left, 2);
    assert_eq!(min_down, 4);
    assert_eq!(min_right, 4);
}

#[test]
fn minimax_best_move_no_lookahead() {
    /*
    .....
    .....
    .....
    ...21
    ..f3.
    */
    let mut state = alone(
        vec![
            Point { x: 4, y: 1 },
            Point { x: 3, y: 1 },
            Point { x: 3, y: 0 },
        ],
        vec![Point { x: 2, y: 0 }],
    );

    let h = state.snake.push_head(Point { x: 4, y: 0 });
    let min_down = minimax(&mut state, 0, 5, 5);

    state.snake.pop_head(h);
    state.snake.push_head(Point { x: 4, y: 2 });
    let min_up = minimax(&mut state, 0, 5, 5);

    assert!(min_down < min_up);
}

#[test]
fn minimax_best_move_1_lookahead() {
    /*
    .....
    .....
    .....
    ...21
    ..f3.

    After down the head stands on (4,0) and can only go left, onto (3,0),
    one square from the food. After up it stands on (4,2) and can go left,
    onto (3,2), or up, onto (4,3): three and five squares from the food. A
    node is worth its best child, and a leaf without a meal its distance to
    the food, so the further leaf counts.
    */
    let mut state = alone(
        vec![
            Point { x: 4, y: 1 },
            Point { x: 3, y: 1 },
            Point { x: 3, y: 0 },
        ],
        vec![Point { x: 2, y: 0 }],
    );

    let h = state.snake.push_head(Point { x: 4, y: 0 });
    let min_down = minimax(&mut state, 1, 5, 5);

    state.snake.pop_head(h);
    state.snake.push_head(Point { x: 4, y: 2 });
    let min_up = minimax(&mut state, 1, 5, 5);

    assert!(min_down < min_up, "down {} up {}", min_down, min_up);
    assert_eq!(min_down, 1);
    assert_eq!(min_up, 5);
}

#[test]
fn minimax_best_move_2_lookahead() {
    /*
    DOWN
    ..... ..... ..... .....
    ..... ..... ..... .....
    ...21 ...32 ...43 ....4
    ..f3. ..f41 ..f12 ..123
    ...4. ..... ..... .....

    UP
    ..... ..... ..... .....
    ..... ....1 ...12 ..123
    ...21 ...32 ...43 ...14
    ..f3. ..f4. ..f.. ..f..
    ...4. ..... ..... .....

    After down the food is two steps away and the meal at the leaf is worth
    100. After up it is out of reach, and the furthest leaf is four squares
    from it.
    */
    let mut state = alone(
        vec![
            Point { x: 4, y: 2 },
            Point { x: 3, y: 2 },
            Point { x: 3, y: 1 },
            Point { x: 3, y: 0 },
        ],
        vec![Point { x: 2, y: 1 }],
    );

    let h = state.snake.push_head(Point { x: 4, y: 1 });
    let min_down = minimax(&mut state, 2, 5, 5);

    state.snake.pop_head(h);
    state.snake.push_head(Point { x: 4, y: 3 });
    let min_up = minimax(&mut state, 2, 5, 5);

    assert!(min_down > min_up, "down {} up {}", min_down, min_up);
    assert_eq!(min_down, 100);
    assert_eq!(min_up, 4);
}

#[test]
fn search_leaves_the_state_as_it_was() {
    let body = vec![
        Point { x: 4, y: 2 },
        Point { x: 3, y: 2 },
        Point { x: 3, y: 1 },
        Point { x: 3, y: 0 },
    ];
    let food = vec![
        Point { x: 2, y: 1 },
        Point { x: 4, y: 1 },
        Point { x: 0, y: 0 },
        Point { x: 4, y: 1 },
    ];
    let mut state = alone(body.clone(), food.clone());
    let h = state.snake.push_head(Point { x: 4, y: 1 });
    let first = minimax(&mut state, 4, 5, 5);
    assert_eq!(sorted(&state.food), sorted(&food));
    assert_eq!(state.snake.get_head(), Point { x: 4, y: 1 });
    let second = minimax(&mut state, 4, 5, 5);
    assert_eq!(first, second);
    assert_eq!(sorted(&state.food), sorted(&food));
    state.snake.pop_head(h);
    let mut evicted = Vec::new();
    for _ in 0..4 {
        evicted.push(state.snake.push_head(Point { x: 9, y: 9 }));
    }
    evicted.reverse();
    assert_eq!(evicted, body);
}

#[test]
fn search_with_rivals_leaves_the_state_as_it_was() {
    let food = vec![
        Point { x: 2, y: 2 },
        Point { x: 0, y: 3 },
        Point { x: 4, y: 4 },
    ];
    let mut state = State {
        snake: vec![
            Point { x: 1, y: 1 },
            Point { x: 1, y: 0 },
            Point { x: 0, y: 0 },
        ]
        .into(),
        food: food.clone(),
        other_snakes: vec![
            vec![
                Point { x: 3, y: 3 },
                Point { x: 3, y: 4 },
                Point { x: 4, y: 4 },
            ]
            .into(),
            vec![Point { x: 0, y: 3 }, Point { x: 0, y: 4 }].into(),
        ],
    };
    let first = minimax(&mut state, 4, 5, 5);
    assert_eq!(sorted(&state.food), sorted(&food));
    assert_eq!(state.snake.get_head(), Point { x: 1, y: 1 });
    assert_eq!(state.other_snakes[0].get_head(), Point { x: 3, y: 3 });
    assert_eq!(state.other_snakes[1].get_head(), Point { x: 0, y: 3 });
    assert!(state.snake.collides_with(Point { x: 1, y: 0 }));
    assert!(!state.snake.collides_with(Point { x: 0, y: 0 }));
    assert!(state.other_snakes[0].collides_with(Point { x: 3, y: 4 }));
    assert!(!state.other_snakes[0].collides_with(Point { x: 4, y: 4 }));
    assert!(!state.other_snakes[1].collides_with(Point { x: 0, y: 4 }));
    let second = minimax(&mut state, 4, 5, 5);
    assert_eq!(first, second);
    assert_eq!(sorted(&state.food), sorted(&food));
}

#[test]
fn meal_at_the_leaf_is_worth_the_bonus() {
    let mut state = alone(
        vec![Point { x: 1, y: 1 }, Point { x: 1, y: 2 }],
        vec![Point { x: 1, y: 1 }, Point { x: 4, y: 4 }],
    );
    assert_eq!(minimax_impl(&mut state, 0, 0, 0, 5, 5), 100);
    assert_eq!(minimax_impl(&mut state, 0, 7, 0, 5, 5), 107);
    assert_eq!(state.food.len(), 2);
}

#[test]
fn leaf_without_food_is_worth_the_running_score() {
    let mut state = alone(vec![Point { x: 1, y: 1 }, Point { x: 1, y: 2 }], Vec::new());
    assert_eq!(minimax_impl(&mut state, 0, 0, 0, 5, 5), 0);
    assert_eq!(minimax_impl(&mut state, 3, 42, 3, 5, 5), 42);
}

#[test]
fn meal_above_the_leaf_changes_what_the_leaves_see() {
    // The head stands on food and has one way to go, to (1,0). With the
    // meal taken, the food that is left lies five squares from there.
    let mut state = alone(
        vec![
            Point { x: 0, y: 0 },
            Point { x: 0, y: 1 },
            Point { x: 0, y: 2 },
        ],
        vec![Point { x: 0, y: 0 }, Point { x: 3, y: 3 }],
    );
    assert_eq!(minimax_impl(&mut state, 0, 0, 1, 5, 5), 105);
    assert_eq!(
        sorted(&state.food),
        vec![Point { x: 0, y: 0 }, Point { x: 3, y: 3 }]
    );
}

#[test]
fn meal_is_put_back_once_whatever_the_number_of_moves() {
    // Three ways to go from the food.
    let mut state = alone(
        vec![Point { x: 2, y: 2 }, Point { x: 2, y: 1 }, Point { x: 2, y: 0 }],
        vec![Point { x: 2, y: 2 }],
    );
    assert_eq!(minimax_impl(&mut state, 0, 0, 1, 5, 5), 100);
    assert_eq!(state.food, vec![Point { x: 2, y: 2 }]);

    // No way to go from the food.
    let mut state = alone(
        vec![
            Point { x: 0, y: 0 },
            Point { x: 0, y: 1 },
            Point { x: 1, y: 1 },
            Point { x: 1, y: 0 },
            Point { x: 2, y: 0 },
        ],
        vec![Point { x: 0, y: 0 }],
    );
    assert_eq!(minimax_impl(&mut state, 0, 0, 1, 5, 5), i64::MIN);
    assert_eq!(state.food, vec![Point { x: 0, y: 0 }]);
}

#[test]
fn dead_end_is_worth_the_least_score() {
    let mut state = alone(
        vec![
            Point { x: 0, y: 0 },
            Point { x: 0, y: 1 },
            Point { x: 1, y: 1 },
            Point { x: 1, y: 0 },
            Point { x: 2, y: 0 },
        ],
        vec![Point { x: 4, y: 4 }],
    );
    assert_eq!(minimax(&mut state, 1, 5, 5), i64::MIN);
    assert_eq!(minimax(&mut state, 0, 5, 5), 8);
}

#[test]
fn rivals_are_obstacles_for_the_one_sided_search() {
    // The only way off (0,0) that the own body leaves open is to the right,
    // and a rival lies there.
    let mut state = State {
        snake: vec![
            Point { x: 0, y: 0 },
            Point { x: 0, y: 1 },
            Point { x: 0, y: 2 },
        ]
        .into(),
        food: vec![Point { x: 4, y: 0 }],
        other_snakes: vec![vec![Point { x: 1, y: 0 }, Point { x: 1, y: 1 }].into()],
    };
    assert_eq!(minimax_impl(&mut state, 0, 0, 1, 5, 5), i64::MIN);
    assert_eq!(state.other_snakes[0].get_head(), Point { x: 1, y: 0 });
}

#[test]
fn rival_on_food_costs_ten() {
    let mut state = State {
        snake: vec![
            Point { x: 1, y: 1 },
            Point { x: 1, y: 2 },
            Point { x: 1, y: 3 },
        ]
        .into(),
        food: vec![Point { x: 3, y: 3 }],
        other_snakes: vec![vec![
            Point { x: 3, y: 3 },
            Point { x: 3, y: 4 },
            Point { x: 4, y: 4 },
        ]
        .into()],
    };
    let single = minimax_impl(&mut state, 0, 0, 0, 5, 5);
    let multi = minimax_impl2(&mut state, 0, 0, Minimax::Maximize, 0, 5, 5);
    assert_eq!(single, 4);
    assert_eq!(multi, -6);
    assert_eq!(multi, single - 10);
    assert_eq!(state.food, vec![Point { x: 3, y: 3 }]);
}

#[test]
fn rival_meal_is_counted_through_the_plies_below() {
    // The rival stands on the food at (4,4) from the start. The own snake
    // reaches the food at (0,1) with its first step.
    let mut state = State {
        snake: vec![
            Point { x: 1, y: 1 },
            Point { x: 1, y: 2 },
            Point { x: 1, y: 3 },
        ]
        .into(),
        food: vec![Point { x: 4, y: 4 }, Point { x: 0, y: 1 }],
        other_snakes: vec![vec![
            Point { x: 4, y: 4 },
            Point { x: 4, y: 3 },
            Point { x: 4, y: 2 },
        ]
        .into()],
    };
    let single = minimax_impl(&mut state, 0, 0, 1, 5, 5);
    let multi = minimax_impl2(&mut state, 0, 0, Minimax::Maximize, 1, 5, 5);
    assert_eq!(single, 100);
    assert_eq!(multi, 90);
    assert_eq!(
        sorted(&state.food),
        vec![Point { x: 0, y: 1 }, Point { x: 4, y: 4 }]
    );
    assert_eq!(minimax(&mut state, 1, 5, 5), 90);
}

#[test]
fn two_rivals_on_food_cost_twenty() {
    let mut state = State {
        snake: vec![Point { x: 0, y: 0 }, Point { x: 0, y: 1 }].into(),
        food: vec![
            Point { x: 2, y: 2 },
            Point { x: 4, y: 4 },
            Point { x: 0, y: 0 },
        ],
        other_snakes: vec![
            vec![Point { x: 4, y: 4 }, Point { x: 4, y: 3 }].into(),
            vec![Point { x: 2, y: 2 }, Point { x: 2, y: 3 }].into(),
        ],
    };
    assert_eq!(
        minimax_impl2(&mut state, 0, 0, Minimax::Maximize, 0, 5, 5),
        80
    );
    assert_eq!(
        minimax_impl2(&mut state, 0, 0, Minimax::Minimize, 0, 5, 5),
        80
    );
    assert_eq!(state.food.len(), 3);
}

#[test]
fn rivals_on_one_square_share_one_meal() {
    // Two heads on one food: the first eats it, the second finds nothing.
    let mut state = State {
        snake: vec![Point { x: 0, y: 0 }, Point { x: 0, y: 1 }].into(),
        food: vec![Point { x: 2, y: 2 }],
        other_snakes: vec![
            vec![Point { x: 2, y: 2 }, Point { x: 2, y: 3 }].into(),
            vec![Point { x: 2, y: 2 }, Point { x: 2, y: 1 }].into(),
        ],
    };
    assert_eq!(
        minimax_impl2(&mut state, 0, 0, Minimax::Maximize, 0, 5, 5),
        -6
    );
    assert_eq!(state.food, vec![Point { x: 2, y: 2 }]);
}

#[test]
fn own_snake_eats_before_the_rivals() {
    let mut state = State {
        snake: vec![Point { x: 2, y: 2 }, Point { x: 2, y: 1 }].into(),
        food: vec![Point { x: 2, y: 2 }],
        other_snakes: vec![vec![Point { x: 2, y: 2 }, Point { x: 2, y: 3 }].into()],
    };
    assert_eq!(
        minimax_impl2(&mut state, 0, 0, Minimax::Maximize, 0, 5, 5),
        100
    );
    assert_eq!(state.food, vec![Point { x: 2, y: 2 }]);
}

#[test]
fn rival_without_a_move_leaves_the_greatest_score() {
    let mut state = State {
        snake: vec![Point { x: 0, y: 0 }].into(),
        food: Vec::new(),
        other_snakes: vec![vec![Point { x: 0, y: 0 }].into()],
    };
    assert_eq!(
        minimax_impl2(&mut state, 0, 0, Minimax::Minimize, 1, 1, 1),
        i64::MAX
    );
    assert_eq!(
        minimax_impl2(&mut state, 0, 0, Minimax::Maximize, 1, 1, 1),
        i64::MIN
    );
    assert_eq!(state.other_snakes[0].get_head(), Point { x: 0, y: 0 });
}

#[test]
fn one_rival_without_a_move_empties_the_joint_moves() {
    // On a board one square high the first rival can go right, onto (3,0);
    // the second is shut in between its own body and the wall.
    let mut state = State {
        snake: vec![Point { x: 0, y: 0 }].into(),
        food: Vec::new(),
        other_snakes: vec![
            vec![Point { x: 2, y: 0 }, Point { x: 1, y: 0 }, Point { x: 1, y: 0 }].into(),
            vec![Point { x: 5, y: 0 }, Point { x: 4, y: 0 }, Point { x: 4, y: 0 }].into(),
        ],
    };
    assert_eq!(
        minimax_impl2(&mut state, 0, 0, Minimax::Minimize, 1, 6, 1),
        i64::MAX
    );
    assert_eq!(state.other_snakes[0].get_head(), Point { x: 2, y: 0 });
    assert_eq!(state.other_snakes[1].get_head(), Point { x: 5, y: 0 });
}

#[test]
fn minimizing_node_takes_the_worst_reply() {
    // The rival can step right, onto the food, left, onto its own tail, or
    // up. The own snake stands still on this ply, three squares from the
    // food.
    let mut state = State {
        snake: vec![Point { x: 0, y: 0 }, Point { x: 0, y: 1 }].into(),
        food: vec![Point { x: 3, y: 0 }],
        other_snakes: vec![vec![Point { x: 2, y: 0 }, Point { x: 1, y: 0 }].into()],
    };
    assert_eq!(
        minimax_impl2(&mut state, 0, 0, Minimax::Minimize, 1, 4, 2),
        -7
    );
    assert_eq!(state.other_snakes[0].get_head(), Point { x: 2, y: 0 });
    assert_eq!(state.food, vec![Point { x: 3, y: 0 }]);
}

#[test]
fn entry_picks_the_search_by_the_rivals() {
    // Without rivals two plies are two steps of the own snake.
    let mut state = alone(
        vec![Point { x: 0, y: 0 }, Point { x: 0, y: 1 }],
        vec![Point { x: 2, y: 0 }],
    );
    assert_eq!(minimax(&mut state, 2, 3, 1), 100);
    assert_eq!(minimax_impl(&mut state, 0, 0, 2, 3, 1), 100);
    // In the two-sided search the second ply belongs to the rivals, and
    // with no rival it passes: the leaf stands one step from the start.
    assert_eq!(
        minimax_impl2(&mut state, 0, 0, Minimax::Maximize, 2, 3, 1),
        1
    );
}

#[test]
fn permutations_vary_the_last_row_fastest() {
    let rows = vec![
        vec![Movement::Right, Movement::Left],
        vec![Movement::Up],
        vec![Movement::Down, Movement::Up, Movement::Left],
    ];
    assert_eq!(
        permutations(&rows),
        vec![
            vec![Movement::Right, Movement::Up, Movement::Down],
            vec![Movement::Right, Movement::Up, Movement::Up],
            vec![Movement::Right, Movement::Up, Movement::Left],
            vec![Movement::Left, Movement::Up, Movement::Down],
            vec![Movement::Left, Movement::Up, Movement::Up],
            vec![Movement::Left, Movement::Up, Movement::Left],
        ]
    );
}

#[test]
fn permutations_of_no_row_is_the_empty_pick() {
    let rows: Vec<Vec<u8>> = Vec::new();
    assert_eq!(permutations(&rows), vec![Vec::<u8>::new()]);
}

#[test]
fn permutations_with_an_empty_row_is_empty() {
    let rows: Vec<Vec<u8>> = vec![vec![1, 2], Vec::new(), vec![3]];
    assert_eq!(permutations(&rows), Vec::<Vec<u8>>::new());
    let rows: Vec<Vec<u8>> = vec![Vec::new()];
    assert_eq!(permutations(&rows), Vec::<Vec<u8>>::new());
}

#[test]
fn snake_type_of_the_state_is_the_ring() {
    let snake: Snake = vec![Point { x: 0, y: 0 }].into();
    let state = State {
        snake,
        food: Vec::new(),
        other_snakes: Vec::new(),
    };
    assert_eq!(state.snake.get_head(), Point { x: 0, y: 0 });
}
