use greedy_tour::{Connection, DistanceKey, Ledger, Point, Shape};
use std::collections::HashMap;

/// The walk written out the long way: rank every candidate by key and point,
/// turn the ranking round, and take the first entry that has the least key.
/// A saturated current point has its second slot overwritten.
fn walk_by_ranking(
    prev: Option<Point>,
    mut map: HashMap<Point, Connection>,
    mut list: Vec<Point>,
    points: &Vec<Point>,
) -> Option<Vec<Point>> {
    if list.is_empty() {
        match points.last() {
            Some(n) => list.push(*n),
            None => return None,
        }
    }
    let p = list[list.len() - 1];

    let mut ranked: Vec<(DistanceKey, Point)> = vec![];
    for point in points {
        if *point != p && Some(*point) != prev {
            ranked.push((p.distance_key(point), *point));
        }
    }
    ranked.sort();
    ranked.reverse();
    let least = match ranked.last() {
        Some(n) => n.0,
        None => return None,
    };

    for entry in &ranked {
        if entry.0 == least {
            let c = entry.1;
            if let Some(n) = map.get(&p) {
                if n.0 == Some(c) && list.len() - 1 == points.len() {
                    list.pop();
                    return Some(list);
                } else if list.len() - 1 == points.len() {
                    return None;
                }
            }
            if let Some(n) = map.get(&c) {
                if n.0.is_some() && n.1.is_some() {
                    return None;
                }
            }
            let at_p = match map.get(&p) {
                Some(n) if n.0.is_some() => Connection(n.0, Some(c)),
                _ => Connection(Some(c), None),
            };
            map.insert(p, at_p);
            let at_c = match map.get(&c) {
                Some(n) if n.0.is_some() => Connection(n.0, Some(p)),
                _ => Connection(Some(p), None),
            };
            map.insert(c, at_c);
            list.push(c);
            return walk_by_ranking(Some(p), map, list, points);
        }
    }
    None
}

struct Dice(u64);

impl Dice {
    fn roll(&mut self, sides: u64) -> u64 {
        self.0 = self
            .0
            .wrapping_mul(6364136223846793005)
            .wrapping_add(1442695040888963407);
        (self.0 >> 33) % sides
    }

    fn pool(&mut self, most: u64, reach: u64) -> Vec<Point> {
        let size = self.roll(most + 1);
        let mut points = vec![];
        for _ in 0..size {
            let x = self.roll(2 * reach + 1) as isize - reach as isize;
            let y = self.roll(2 * reach + 1) as isize - reach as isize;
            points.push(Point(x, y));
        }
        points
    }
}

fn agree_on(pools: u32, most: u64, reach: u64, seed: u64) -> u32 {
    let mut dice = Dice(seed);
    let mut tours = 0;
    for _ in 0..pools {
        let pool = dice.pool(most, reach);
        let built = Shape::new(Ledger::new(), vec![], pool.clone()).calc();
        let ranked = walk_by_ranking(None, HashMap::new(), vec![], &pool);
        assert_eq!(built, ranked);
        if built.is_some() {
            tours += 1;
        }
    }
    tours
}

#[test]
fn construction_agrees_with_ranking_on_crowded_pools() {
    // Few places for many points: ties and repeated points abound.
    let tours = agree_on(20000, 7, 2, 1);
    assert!(tours > 0);
}

#[test]
fn construction_agrees_with_ranking_on_scattered_pools() {
    let tours = agree_on(20000, 9, 50, 2);
    assert!(tours > 0);
}

#[test]
fn construction_agrees_with_ranking_on_distant_points() {
    let tours = agree_on(5000, 6, 4_000_000_000, 3);
    assert!(tours > 0);
}

#[test]
fn every_tour_found_is_a_cycle_through_the_pool() {
    let mut dice = Dice(4);
    let mut tours = 0;
    for _ in 0..20000 {
        let pool = dice.pool(8, 6);
        if let Some(tour) = Shape::new(Ledger::new(), vec![], pool.clone()).calc() {
            tours += 1;
            assert_eq!(tour.len(), pool.len());
            for p in &pool {
                assert_eq!(tour.iter().filter(|q| *q == p).count(), 1);
            }
            let mut ledger = Ledger::new();
            for i in 0..tour.len() {
                let next = tour[(i + 1) % tour.len()];
                assert!(!ledger.is_saturated(&tour[i]));
                assert!(!ledger.is_saturated(&next));
                ledger.add_edge(tour[i], next);
            }
            for p in &tour {
                assert!(ledger.is_saturated(p));
            }
        }
    }
    assert!(tours > 0);
}
