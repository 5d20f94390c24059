use snek::requests::Point;
use snek::snake::optim::Snake;

fn optim_body_eq(snake: &Snake, points: &[Point]) {
    let mut points: Vec<Point> = points.iter().cloned().collect();
    points.sort();

    let mut snake_points = snake.get_body();
    snake_points.sort();

    assert_eq!(snake_points, points);
}

#[test]
fn optim_snake_recursion() {
    let mut snake: Snake = vec![
        Point { x: 1, y: 0 },
        Point { x: 2, y: 0 },
        Point { x: 3, y: 0 },
    ]
    .into();

    let h1 = snake.push_head(Point { x: 0, y: 1 });
    let h2 = snake.push_head(Point { x: 0, y: 2 });
    let h3 = snake.push_head(Point { x: 0, y: 3 });
    let h4 = snake.push_head(Point { x: 0, y: 4 });
    let h5 = snake.push_head(Point { x: 0, y: 5 });

    snake.pop_head(h5);
    snake.pop_head(h4);
    snake.pop_head(h3);
    snake.pop_head(h2);
    snake.pop_head(h1);

    optim_body_eq(
        &snake,
        &vec![
            Point { x: 1, y: 0 },
            Point { x: 2, y: 0 },
            Point { x: 3, y: 0 },
        ],
    );
}

#[test]
fn optim_snake_works() {
    let mut snake: Snake = vec![
        Point { x: 4, y: 1 },
        Point { x: 4, y: 2 },
        Point { x: 3, y: 2 },
        Point { x: 3, y: 1 },
    ]
    .into();

    snake.push_head(Point { x: 3, y: 1 });
    println!("{:?}", snake);
    optim_body_eq(
        &snake,
        &vec![
            Point { x: 4, y: 1 },
            Point { x: 4, y: 2 },
            Point { x: 3, y: 2 },
            Point { x: 3, y: 1 },
        ],
    );

    snake.push_head(Point { x: 2, y: 1 });
    println!("{:?}", snake);

    optim_body_eq(
        &snake,
        &vec![
            Point { x: 4, y: 1 },
            Point { x: 4, y: 2 },
            Point { x: 3, y: 1 },
            Point { x: 2, y: 1 },
        ],
    );
}

/// The segments from head to tail, read off by advancing once round the
/// ring and back.
fn optim_segments(snake: &mut Snake, len: usize) -> Vec<Point> {
    let marker = Point { x: -7, y: -7 };
    let mut evicted = Vec::new();
    for _ in 0..len {
        evicted.push(snake.push_head(marker));
    }
    let mut segments = evicted.clone();
    segments.reverse();
    while let Some(p) = evicted.pop() {
        snake.pop_head(p);
    }
    segments
}

#[test]
fn optim_round_trip_keeps_the_order() {
    let body = vec![
        Point { x: 1, y: 0 },
        Point { x: 2, y: 0 },
        Point { x: 3, y: 0 },
    ];
    let mut snake: Snake = body.clone().into();
    assert_eq!(optim_segments(&mut snake, 3), body);
    let heads = [
        Point { x: 0, y: 0 },
        Point { x: 0, y: 1 },
        Point { x: 1, y: 1 },
        Point { x: 2, y: 1 },
    ];
    let mut evicted = Vec::new();
    for head in heads.iter() {
        evicted.push(snake.push_head(*head));
    }
    assert_eq!(
        evicted,
        vec![
            Point { x: 3, y: 0 },
            Point { x: 2, y: 0 },
            Point { x: 1, y: 0 },
            Point { x: 0, y: 0 }
        ]
    );
    assert_eq!(
        optim_segments(&mut snake, 3),
        vec![
            Point { x: 2, y: 1 },
            Point { x: 1, y: 1 },
            Point { x: 0, y: 1 }
        ]
    );
    while let Some(p) = evicted.pop() {
        snake.pop_head(p);
    }
    assert_eq!(snake.get_head(), Point { x: 1, y: 0 });
    assert_eq!(optim_segments(&mut snake, 3), body);
}

#[test]
fn optim_one_push_one_pop() {
    let mut snake: Snake = vec![
        Point { x: 1, y: 0 },
        Point { x: 2, y: 0 },
        Point { x: 3, y: 0 },
    ]
    .into();
    let evicted = snake.push_head(Point { x: 0, y: 0 });
    assert_eq!(evicted, Point { x: 3, y: 0 });
    assert_eq!(snake.get_head(), Point { x: 0, y: 0 });
    snake.pop_head(evicted);
    assert_eq!(snake.get_head(), Point { x: 1, y: 0 });
    assert!(snake.collides_with(Point { x: 1, y: 0 }));
    assert!(snake.collides_with(Point { x: 2, y: 0 }));
    assert!(!snake.collides_with(Point { x: 3, y: 0 }));
    assert!(!snake.collides_with(Point { x: 0, y: 0 }));
}

#[test]
fn optim_head_before_any_push() {
    let snake: Snake = vec![Point { x: 5, y: 6 }, Point { x: 5, y: 7 }].into();
    assert_eq!(snake.get_head(), Point { x: 5, y: 6 });
}

#[test]
fn optim_collides_with_all_but_the_tail() {
    let mut snake: Snake = vec![
        Point { x: 1, y: 0 },
        Point { x: 2, y: 0 },
        Point { x: 3, y: 0 },
    ]
    .into();
    assert!(snake.collides_with(Point { x: 1, y: 0 }));
    assert!(snake.collides_with(Point { x: 2, y: 0 }));
    assert!(!snake.collides_with(Point { x: 3, y: 0 }));
    assert!(!snake.collides_with(Point { x: 4, y: 0 }));

    snake.push_head(Point { x: 0, y: 0 });
    assert!(snake.collides_with(Point { x: 0, y: 0 }));
    assert!(snake.collides_with(Point { x: 1, y: 0 }));
    assert!(!snake.collides_with(Point { x: 2, y: 0 }));
    assert!(!snake.collides_with(Point { x: 3, y: 0 }));

    snake.push_head(Point { x: 0, y: 1 });
    assert!(snake.collides_with(Point { x: 0, y: 1 }));
    assert!(snake.collides_with(Point { x: 0, y: 0 }));
    assert!(!snake.collides_with(Point { x: 1, y: 0 }));
}

#[test]
fn optim_one_segment_blocks_nothing() {
    let mut snake: Snake = vec![Point { x: 1, y: 0 }].into();
    assert!(!snake.collides_with(Point { x: 1, y: 0 }));
    assert_eq!(snake.push_head(Point { x: 2, y: 0 }), Point { x: 1, y: 0 });
    assert_eq!(snake.get_head(), Point { x: 2, y: 0 });
    assert!(!snake.collides_with(Point { x: 2, y: 0 }));
}

#[test]
fn optim_set_unchecked_writes_a_slot() {
    let mut snake: Snake = vec![
        Point { x: 1, y: 0 },
        Point { x: 2, y: 0 },
        Point { x: 3, y: 0 },
    ]
    .into();
    snake.set_unchecked(0, Point { x: 9, y: 9 });
    assert_eq!(snake.get_head(), Point { x: 9, y: 9 });
    assert_eq!(
        snake.get_body(),
        vec![
            Point { x: 9, y: 9 },
            Point { x: 2, y: 0 },
            Point { x: 3, y: 0 }
        ]
    );
    snake.push_head(Point { x: 0, y: 0 });
    assert_eq!(
        snake.get_body(),
        vec![
            Point { x: 9, y: 9 },
            Point { x: 2, y: 0 },
            Point { x: 0, y: 0 }
        ]
    );
}
