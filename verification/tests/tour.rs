use greedy_tour::selection::nearest_candidate;
use greedy_tour::{Ledger, Point, Shape};

fn build(points: Vec<Point>) -> Option<Vec<Point>> {
    Shape::new(Ledger::new(), vec![], points).calc()
}

#[test]
#[should_panic]
fn light_algo_diamond() {
    let v = vec![Point(5, 0), Point(0, 2), Point(0, -2), Point(-5, 0)];
    let mut shape = Shape::new(Ledger::new(), vec![], v);

    match shape.calc() {
        Some(n) => n,
        None => panic!("Nothing returned"),
    };
}

#[test]
fn light_algo_equal_distance() {
    let v = vec![Point(0, -2), Point(0, 2), Point(1, -3), Point(-3, 0)];
    let mut shape = Shape::new(Ledger::new(), vec![], v);

    let shape = match shape.calc() {
        Some(n) => n,
        None => panic!("Nothing returned"),
    };

    assert_eq!(
        vec![Point(-3, 0), Point(0, 2), Point(0, -2), Point(1, -3),],
        shape
    );
}

#[test]
#[should_panic]
fn light_algo_consume_all_points() {
    let v = vec![Point(-7, 0), Point(0, 2), Point(1, 1), Point(3, 0)];
    let mut shape = Shape::new(Ledger::new(), vec![], v);

    match shape.calc() {
        Some(n) => n,
        None => panic!("Nothing returned"),
    };
}

#[test]
fn light_algo_one_way() {
    let v = vec![
        Point(1, -3),
        Point(1, 0),
        Point(6, -2),
        Point(5, 0),
        Point(3, -5),
        Point(0, -2),
        Point(6, -5),
        Point(3, 0),
        Point(0, 0),
    ];
    let mut shape = Shape::new(Ledger::new(), vec![], v);

    let shape = match shape.calc() {
        Some(n) => n,
        None => panic!("Nothing returned"),
    };

    assert_eq!(
        vec![
            Point(0, 0),
            Point(1, 0),
            Point(3, 0),
            Point(5, 0),
            Point(6, -2),
            Point(6, -5),
            Point(3, -5),
            Point(1, -3),
            Point(0, -2),
        ],
        shape
    )
}

#[test]
fn diamond_with_symmetric_ties_has_no_tour() {
    let v = vec![Point(5, 0), Point(0, 2), Point(0, -2), Point(-5, 0)];
    assert_eq!(build(v), None);
}

#[test]
fn cover_without_closure_has_no_tour() {
    let v = vec![Point(-7, 0), Point(0, 2), Point(1, 1), Point(3, 0)];
    assert_eq!(build(v), None);
}

#[test]
fn empty_pool_has_no_tour() {
    assert_eq!(build(vec![]), None);
}

#[test]
fn single_point_has_no_candidate() {
    assert_eq!(build(vec![Point(0, 0)]), None);
}

#[test]
fn two_points_cannot_close() {
    assert_eq!(build(vec![Point(0, 0), Point(4, 0)]), None);
}

#[test]
fn triangle_closes_from_the_last_point() {
    let tour = build(vec![Point(0, 0), Point(4, 0), Point(0, 3)]);
    assert_eq!(tour, Some(vec![Point(0, 3), Point(0, 0), Point(4, 0)]));
}

#[test]
fn unit_square_breaks_the_tie_towards_the_later_point() {
    // From (0, 1) both (0, 0) and (1, 1) are one unit away; (1, 1) orders last.
    let tour = build(vec![Point(0, 0), Point(1, 0), Point(1, 1), Point(0, 1)]);
    assert_eq!(
        tour,
        Some(vec![Point(0, 1), Point(1, 1), Point(1, 0), Point(0, 0)])
    );
}

#[test]
fn centre_point_blocks_the_square() {
    let v = vec![
        Point(0, 0),
        Point(10, 0),
        Point(10, 10),
        Point(0, 10),
        Point(5, 5),
    ];
    assert_eq!(build(v), None);
}

#[test]
fn duplicate_points_have_no_tour() {
    let v = vec![Point(0, 0), Point(0, 0), Point(1, 0), Point(0, 1)];
    assert_eq!(build(v), None);
}

#[test]
fn tour_holds_every_point_exactly_once() {
    let pool = vec![
        Point(1, -3),
        Point(1, 0),
        Point(6, -2),
        Point(5, 0),
        Point(3, -5),
        Point(0, -2),
        Point(6, -5),
        Point(3, 0),
        Point(0, 0),
    ];
    let tour = build(pool.clone()).unwrap();
    assert_eq!(tour.len(), pool.len());
    for p in &pool {
        assert_eq!(tour.iter().filter(|q| *q == p).count(), 1);
    }
    for q in &tour {
        assert!(pool.contains(q));
    }
}

#[test]
fn tour_follows_edges_that_a_ledger_can_hold() {
    // Replaying the tour edge by edge saturates every point and never needs
    // a third slot: the tour is a cycle.
    let tour = build(vec![Point(0, -2), Point(0, 2), Point(1, -3), Point(-3, 0)]).unwrap();
    let mut ledger = Ledger::new();
    for i in 0..tour.len() {
        let a = tour[i];
        let b = tour[(i + 1) % tour.len()];
        assert!(!ledger.is_saturated(&a));
        assert!(!ledger.is_saturated(&b));
        ledger.add_edge(a, b);
    }
    for p in &tour {
        assert!(ledger.is_saturated(p));
    }
}

#[test]
fn repeated_construction_gives_the_same_tour() {
    let v = vec![Point(0, -2), Point(0, 2), Point(1, -3), Point(-3, 0)];
    let mut shape = Shape::new(Ledger::new(), vec![], v.clone());
    let first = shape.calc();
    let second = shape.calc();
    let third = Shape::new(Ledger::new(), vec![], v).calc();
    assert!(first.is_some());
    assert_eq!(first, second);
    assert_eq!(first, third);
}

#[test]
fn the_order_of_the_pool_decides_the_start() {
    let tour = build(vec![Point(0, 3), Point(4, 0), Point(0, 0)]);
    assert_eq!(tour, Some(vec![Point(0, 0), Point(0, 3), Point(4, 0)]));
}

#[test]
fn nearest_candidate_takes_the_least_distance() {
    let pool = vec![Point(5, 0), Point(1, 1), Point(-2, 0), Point(0, 0)];
    assert_eq!(
        nearest_candidate(&Point(0, 0), None, &pool),
        Some(Point(1, 1))
    );
}

#[test]
fn nearest_candidate_breaks_ties_by_the_order_of_points() {
    let diamond = vec![Point(5, 0), Point(0, 2), Point(0, -2), Point(-5, 0)];
    assert_eq!(
        nearest_candidate(&Point(-5, 0), None, &diamond),
        Some(Point(0, 2))
    );
    let reversed = vec![Point(-5, 0), Point(0, -2), Point(0, 2), Point(5, 0)];
    assert_eq!(
        nearest_candidate(&Point(-5, 0), None, &reversed),
        Some(Point(0, 2))
    );
    let row = vec![Point(-1, 7), Point(1, -7), Point(0, 0)];
    assert_eq!(
        nearest_candidate(&Point(0, 0), None, &row),
        Some(Point(1, -7))
    );
}

#[test]
fn nearest_candidate_skips_the_current_and_the_previous_point() {
    let pool = vec![Point(0, 0), Point(1, 0), Point(3, 0)];
    assert_eq!(
        nearest_candidate(&Point(0, 0), Some(&Point(1, 0)), &pool),
        Some(Point(3, 0))
    );
    assert_eq!(
        nearest_candidate(&Point(0, 0), None, &pool),
        Some(Point(1, 0))
    );
}

#[test]
fn nearest_candidate_finds_nothing_without_candidates() {
    let pool = vec![Point(0, 0), Point(1, 0)];
    assert_eq!(
        nearest_candidate(&Point(0, 0), Some(&Point(1, 0)), &pool),
        None
    );
    assert_eq!(nearest_candidate(&Point(0, 0), None, &vec![]), None);
}

#[test]
fn walk_goes_on_from_a_given_path_and_ledger() {
    // The walk of the triangle, picked up after its first step.
    let pool = vec![Point(0, 0), Point(4, 0), Point(0, 3)];
    let mut ledger = Ledger::new();
    ledger.add_edge(Point(0, 3), Point(0, 0));
    let path = vec![Point(0, 3), Point(0, 0)];
    let mut shape = Shape::new(Ledger::new(), vec![], pool.clone());
    let tour = shape.light_algo(Some(&Point(0, 3)), ledger, path, pool);
    assert_eq!(tour, Some(vec![Point(0, 3), Point(0, 0), Point(4, 0)]));
}

#[test]
fn walk_fails_at_a_saturated_current_point() {
    let pool = vec![Point(0, 0), Point(4, 0), Point(0, 3)];
    let mut ledger = Ledger::new();
    ledger.add_edge(Point(0, 3), Point(9, 9));
    ledger.add_edge(Point(0, 3), Point(8, 8));
    let mut shape = Shape::new(ledger, vec![Point(0, 3)], pool);
    assert_eq!(shape.calc(), None);
}

#[test]
fn walk_fails_at_a_saturated_candidate() {
    let pool = vec![Point(0, 0), Point(4, 0), Point(0, 3)];
    let mut ledger = Ledger::new();
    ledger.add_edge(Point(0, 0), Point(9, 9));
    ledger.add_edge(Point(0, 0), Point(8, 8));
    let mut shape = Shape::new(ledger, vec![], pool);
    assert_eq!(shape.calc(), None);
}

#[test]
fn walk_fails_on_a_path_longer_than_any_tour() {
    let pool = vec![Point(0, 0), Point(4, 0), Point(0, 3)];
    let path = vec![
        Point(0, 0),
        Point(4, 0),
        Point(0, 3),
        Point(0, 0),
        Point(4, 0),
    ];
    let mut shape = Shape::new(Ledger::new(), path, pool);
    assert_eq!(shape.calc(), None);
}

#[test]
fn complete_path_closes_only_over_the_first_edge() {
    let pool = vec![Point(0, 0), Point(4, 0), Point(0, 3)];
    let path = vec![Point(0, 3), Point(0, 0), Point(4, 0), Point(0, 3)];
    let mut closing = Ledger::new();
    closing.add_edge(Point(0, 3), Point(0, 0));
    closing.add_edge(Point(0, 0), Point(4, 0));
    closing.add_edge(Point(4, 0), Point(0, 3));
    let mut shape = Shape::new(Ledger::new(), vec![], pool.clone());
    assert_eq!(
        shape.light_algo(Some(&Point(4, 0)), closing, path.clone(), pool.clone()),
        Some(vec![Point(0, 3), Point(0, 0), Point(4, 0)])
    );
    // Without a first edge to the candidate the complete path is given up.
    assert_eq!(
        shape.light_algo(Some(&Point(4, 0)), Ledger::new(), path, pool),
        None
    );
}
