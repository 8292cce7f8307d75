//! The choice of the next point: the nearest candidate, ties broken by the
//! order of the points.

use vstd::prelude::*;
use crate::distance::DistanceKey;
use crate::point::{lemma_precedes_is_total, lemma_precedes_is_transitive, Point};

verus! {

/// The point behind an optional reference.
pub open spec fn pointee(prev: Option<&Point>) -> Option<Point> {
    match prev {
        Some(q) => Some(*q),
        None => None,
    }
}

/// `q` may follow `p`: it is neither `p` itself nor the point that `p` was
/// reached from.
pub open spec fn eligible(p: Point, prev: Option<Point>, q: Point) -> bool {
    q != p && prev != Some(q)
}

/// Seen from `p`, `a` is at least as good a choice as `b`: it has the smaller
/// distance key, or the same key and does not order before `b`.
pub open spec fn outranks(p: Point, a: Point, b: Point) -> bool {
    p.key_to(a) < p.key_to(b) || (p.key_to(a) == p.key_to(b) && !a.precedes(b))
}

/// `c` is the candidate of `pool` that follows `p`: among the eligible
/// points with the least distance key, the one that orders last.
pub open spec fn is_choice(p: Point, prev: Option<Point>, pool: Seq<Point>, c: Point) -> bool {
    &&& pool.contains(c)
    &&& eligible(p, prev, c)
    &&& forall|j: int|
        0 <= j < pool.len() && eligible(p, prev, #[trigger] pool[j]) ==> outranks(p, c, pool[j])
}

/// The candidate of `pool` that follows `p`, if `pool` holds an eligible
/// point at all.
pub open spec fn choice(p: Point, prev: Option<Point>, pool: Seq<Point>) -> Option<Point> {
    if exists|c: Point| is_choice(p, prev, pool, c) {
        Some(choose|c: Point| is_choice(p, prev, pool, c))
    } else {
        None
    }
}

/// No two points are both the choice.
pub proof fn lemma_choice_is_unique(
    p: Point,
    prev: Option<Point>,
    pool: Seq<Point>,
    c: Point,
    d: Point,
)
    requires
        is_choice(p, prev, pool, c),
        is_choice(p, prev, pool, d),
    ensures
        c == d,
{
    let i = choose|i: int| 0 <= i < pool.len() && pool[i] == c;
    let j = choose|j: int| 0 <= j < pool.len() && pool[j] == d;
    assert(outranks(p, c, pool[j]));
    assert(outranks(p, d, pool[i]));
    lemma_precedes_is_total(c, d);
}

/// A point that meets the description of the choice is the choice.
pub proof fn lemma_choice_found(p: Point, prev: Option<Point>, pool: Seq<Point>, c: Point)
    requires
        is_choice(p, prev, pool, c),
    ensures
        choice(p, prev, pool) == Some(c),
{
    let d = choose|d: Point| is_choice(p, prev, pool, d);
    lemma_choice_is_unique(p, prev, pool, c, d);
}

/// What holds of the choice wherever there is one, and when there is none.
pub proof fn lemma_choice_characterised(p: Point, prev: Option<Point>, pool: Seq<Point>)
    ensures
        match choice(p, prev, pool) {
            Some(c) => is_choice(p, prev, pool, c),
            None => forall|j: int| 0 <= j < pool.len() ==> !eligible(p, prev, #[trigger] pool[j]),
        },
    decreases pool.len(),
{
    if choice(p, prev, pool) is None {
        if exists|j: int| 0 <= j < pool.len() && eligible(p, prev, #[trigger] pool[j]) {
            // Some point is eligible, so the best of them is the choice.
            let rest = pool.drop_last();
            lemma_choice_characterised(p, prev, rest);
            let last = pool.last();
            let best = match choice(p, prev, rest) {
                Some(c) => if eligible(p, prev, last) && !outranks(p, c, last) {
                    last
                } else {
                    c
                },
                None => last,
            };
            if choice(p, prev, rest) is None {
                let j = choose|j: int| 0 <= j < pool.len() && eligible(p, prev, #[trigger] pool[j]);
                if j < rest.len() {
                    assert(rest[j] == pool[j]);
                }
            } else {
                let c = choice(p, prev, rest).unwrap();
                let i = choose|i: int| 0 <= i < rest.len() && rest[i] == c;
                assert(pool[i] == c);
            }
            assert(pool[pool.len() - 1] == last);
            assert(pool.contains(best));
            assert forall|j: int|
                0 <= j < pool.len() && eligible(p, prev, #[trigger] pool[j]) implies outranks(
                p,
                best,
                pool[j],
            ) by {
                lemma_precedes_is_total(best, pool[j]);
                if j < rest.len() {
                    assert(rest[j] == pool[j]);
                    let c = choice(p, prev, rest).unwrap();
                    assert(outranks(p, c, rest[j]));
                    lemma_precedes_is_total(c, pool[j]);
                    lemma_precedes_is_total(last, c);
                    lemma_precedes_is_transitive(pool[j], c, last);
                }
            }
            assert(is_choice(p, prev, pool, best));
        }
    }
}

/// Finds the candidate of `points` that follows `p`.
pub fn nearest_candidate(p: &Point, prev: Option<&Point>, points: &Vec<Point>) -> (found: Option<
    Point,
>)
    ensures
        found == choice(*p, pointee(prev), points@),
{
    let mut best: Option<(DistanceKey, Point)> = None;
    let mut i: usize = 0;
    while i < points.len()
        invariant
            i <= points.len(),
            match best {
                None => forall|j: int|
                    0 <= j < i ==> !eligible(*p, pointee(prev), #[trigger] points[j]),
                Some((key, c)) => {
                    &&& key.wf()
                    &&& key.scaled() == p.key_to(c)
                    &&& eligible(*p, pointee(prev), c)
                    &&& exists|j: int| 0 <= j < i && points[j] == c
                    &&& forall|j: int|
                        0 <= j < i && eligible(*p, pointee(prev), #[trigger] points[j])
                            ==> outranks(*p, c, points[j])
                },
            },
        decreases points.len() - i,
    {
        let q = points[i];
        let is_prev = match prev {
            Some(r) => *r == q,
            None => false,
        };
        if q != *p && !is_prev {
            let key = p.distance_key(&q);
            match best {
                None => {
                    best = Some((key, q));
                    proof {
                        lemma_precedes_is_total(q, q);
                    }
                },
                Some((least, c)) => {
                    proof {
                        least.lemma_order_is_numeric(key);
                        key.lemma_order_is_numeric(least);
                        lemma_precedes_is_total(q, c);
                        lemma_precedes_is_total(q, q);
                    }
                    if key.is_below(&least) || (key == least && c.comes_before(&q)) {
                        proof {
                            assert forall|j: int|
                                0 <= j < i && eligible(
                                    *p,
                                    pointee(prev),
                                    #[trigger] points[j],
                                ) implies outranks(*p, q, points[j]) by {
                                assert(outranks(*p, c, points[j]));
                                lemma_precedes_is_transitive(points[j], c, q);
                            }
                        }
                        best = Some((key, q));
                    }
                },
            }
        }
        i += 1;
    }
    match best {
        None => {
            proof {
                lemma_choice_characterised(*p, pointee(prev), points@);
                if choice(*p, pointee(prev), points@) is Some {
                    let c = choice(*p, pointee(prev), points@).unwrap();
                    let j = choose|j: int| 0 <= j < points@.len() && points@[j] == c;
                    assert(!eligible(*p, pointee(prev), points@[j]));
                }
            }
            None
        },
        Some((_, c)) => {
            proof {
                assert(points@.contains(c));
                lemma_choice_found(*p, pointee(prev), points@, c);
            }
            Some(c)
        },
    }
}

} // verus!
