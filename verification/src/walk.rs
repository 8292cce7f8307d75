//! The walk that builds a tour, as a function of where it starts, and what a
//! walk that starts from nothing but a pool guarantees: the tour it returns
//! is a cycle through the whole pool.

use vstd::prelude::*;
use vstd::seq_lib::seq_to_set_is_finite;
use vstd::set_lib::{lemma_len_subset, lemma_subset_equality};
use crate::ledger::{
    connected,
    edge_count_in,
    first_link_in,
    lemma_connected_effects,
    linked_in,
    saturated_in,
    slots_of,
    Connection,
};
use crate::point::Point;
use crate::selection::{choice, is_choice, lemma_choice_found, lemma_choice_characterised};

verus! {

/// The path that an attempt starts from: the given one, or, where that is
/// empty, the last point of the pool alone.
pub open spec fn started(path: Seq<Point>, pool: Seq<Point>) -> Seq<Point> {
    if path.len() == 0 && pool.len() > 0 {
        seq![pool.last()]
    } else {
        path
    }
}

/// Where the walk from the end of `path` leads: the closed tour together with
/// the ledger that records it, or nothing.
///
/// The current point `p` is the end of the path, and `c` the candidate that
/// follows it. Without a candidate the walk fails. With one, it goes on in
/// this order:
/// - The path is one longer than the pool: every point was visited and the
///   start was reached again. The tour is the path without its last point if
///   the first edge recorded at `p` leads to `c`. Otherwise the walk fails.
/// - The path is longer still: it can never be cut down to a tour, and the
///   walk fails.
/// - `c` or `p` is saturated: there is no slot for the edge between them, and
///   the walk fails.
/// - Otherwise the edge between `p` and `c` is recorded, `c` joins the path
///   and the walk goes on from `c`, reached from `p`.
///
/// A walk that began at a single point with an empty ledger never has a path
/// too long (`lemma_on_track_path_fits`), and where its current point is
/// saturated its candidate is too
/// (`lemma_saturated_end_has_saturated_candidate`).
pub open spec fn extension(
    prev: Option<Point>,
    ledger: Map<Point, Connection>,
    path: Seq<Point>,
    pool: Seq<Point>,
) -> Option<(Seq<Point>, Map<Point, Connection>)>
    decreases pool.len() + 1 - started(path, pool).len(),
{
    let path = started(path, pool);
    if path.len() == 0 || path.len() > pool.len() + 1 {
        None
    } else {
        let p = path.last();
        match choice(p, prev, pool) {
            None => None,
            Some(c) => if path.len() == pool.len() + 1 {
                if first_link_in(ledger, p) == Some(c) {
                    Some((path.drop_last(), ledger))
                } else {
                    None
                }
            } else if saturated_in(ledger, c) || saturated_in(ledger, p) {
                None
            } else {
                extension(Some(p), connected(ledger, p, c), path.push(c), pool)
            },
        }
    }
}

/// The edge between `a` and `b` is recorded at both of its ends.
pub open spec fn edge_in(ledger: Map<Point, Connection>, a: Point, b: Point) -> bool {
    linked_in(ledger, a, b) && linked_in(ledger, b, a)
}

/// The index after `i` on a cycle of `len` places.
pub open spec fn next_on_cycle(i: int, len: nat) -> int {
    if i + 1 == len {
        0
    } else {
        i + 1
    }
}

/// `tour` is a closed tour through `pool`, recorded in `ledger`: it is as
/// long as the pool, holds every point of the pool and no point twice, and
/// each of its points is joined by an edge to the next, the last to the first.
pub open spec fn is_closed_tour(
    tour: Seq<Point>,
    ledger: Map<Point, Connection>,
    pool: Seq<Point>,
) -> bool {
    &&& tour.len() == pool.len()
    &&& tour.no_duplicates()
    &&& forall|i: int| 0 <= i < pool.len() ==> tour.contains(#[trigger] pool[i])
    &&& forall|i: int| 0 <= i < tour.len() ==> pool.contains(#[trigger] tour[i])
    &&& forall|i: int|
        0 <= i < tour.len() ==> edge_in(
            ledger,
            #[trigger] tour[i],
            tour[next_on_cycle(i, tour.len())],
        )
}

/// The state of a walk that began at a single point with an empty ledger.
///
/// The path holds points of the pool, none twice but for a last point that
/// closes it by repeating the first. Its second point is the one that was
/// chosen at its first. The ledger holds the edges between neighbours on the
/// path and nothing else: points inside the path are saturated, points off
/// the path have no edge, and the two ends have one edge each while the path
/// is open.
pub open spec fn on_track(
    prev: Option<Point>,
    ledger: Map<Point, Connection>,
    path: Seq<Point>,
    pool: Seq<Point>,
) -> bool {
    let n = path.len() as int;
    &&& n >= 1
    &&& forall|i: int| 0 <= i < n ==> pool.contains(#[trigger] path[i])
    &&& path.drop_last().no_duplicates()
    &&& prev == (if n >= 2 {
        Some(path[n - 2])
    } else {
        None
    })
    &&& forall|i: int| 0 <= i < n - 1 ==> edge_in(ledger, #[trigger] path[i], path[i + 1])
    &&& forall|x: Point| !path.contains(x) ==> #[trigger] edge_count_in(ledger, x) == 0
    &&& forall|i: int| 0 < i < n - 1 ==> saturated_in(ledger, #[trigger] path[i])
    &&& n >= 2 ==> first_link_in(ledger, path[0]) == Some(path[1])
    &&& n >= 2 ==> is_choice(path[0], None, pool, path[1])
    &&& if n >= 2 && path[n - 1] == path[0] {
        n >= 4 && saturated_in(ledger, path[0])
    } else {
        &&& !path.drop_last().contains(path[n - 1])
        &&& n >= 2 ==> slots_of(ledger, path[n - 1]) == Connection(prev, None)
        &&& n >= 2 ==> edge_count_in(ledger, path[0]) == 1
        &&& n == 1 ==> edge_count_in(ledger, path[0]) == 0
    }
}

/// A sequence without duplicates that is as long as a pool and holds only
/// points of the pool holds every point of the pool.
proof fn lemma_full_cover(tour: Seq<Point>, pool: Seq<Point>)
    requires
        tour.len() == pool.len(),
        tour.no_duplicates(),
        forall|i: int| 0 <= i < tour.len() ==> pool.contains(#[trigger] tour[i]),
    ensures
        forall|i: int| 0 <= i < pool.len() ==> tour.contains(#[trigger] pool[i]),
{
    broadcast use seq_to_set_is_finite;

    tour.unique_seq_to_set();
    pool.lemma_cardinality_of_set();
    assert(tour.to_set().subset_of(pool.to_set()));
    lemma_len_subset(tour.to_set(), pool.to_set());
    lemma_subset_equality(tour.to_set(), pool.to_set());
    assert forall|i: int| 0 <= i < pool.len() implies tour.contains(#[trigger] pool[i]) by {
        assert(tour.to_set().contains(pool[i]));
    }
}

/// A walk on track whose current point has its first edge to a candidate,
/// with a path one longer than the pool, has closed a tour.
proof fn lemma_closed_path_is_tour(
    prev: Option<Point>,
    ledger: Map<Point, Connection>,
    path: Seq<Point>,
    pool: Seq<Point>,
    c: Point,
)
    requires
        on_track(prev, ledger, path, pool),
        path.len() == pool.len() + 1,
        is_choice(path.last(), prev, pool, c),
        first_link_in(ledger, path.last()) == Some(c),
    ensures
        is_closed_tour(path.drop_last(), ledger, pool),
{
    lemma_full_cover(path.drop_last(), pool);
}

/// Recording the edge to the chosen candidate and moving there keeps a walk
/// on track.
proof fn lemma_step_stays_on_track(
    prev: Option<Point>,
    ledger: Map<Point, Connection>,
    path: Seq<Point>,
    pool: Seq<Point>,
    c: Point,
)
    requires
        on_track(prev, ledger, path, pool),
        is_choice(path.last(), prev, pool, c),
        !saturated_in(ledger, c),
        !saturated_in(ledger, path.last()),
    ensures
        on_track(Some(path.last()), connected(ledger, path.last(), c), path.push(c), pool),
{
    let n = path.len() as int;
    let p = path[n - 1];
    let after = connected(ledger, p, c);
    let longer = path.push(c);
    lemma_connected_effects(ledger, p, c);

    // The path so far holds no point twice: its end is not saturated, so it
    // does not repeat the start.
    assert(path.no_duplicates()) by {
        assert forall|i: int, j: int| 0 <= i < n && 0 <= j < n && i != j implies path[i]
            != path[j] by {
            if i < n - 1 && j < n - 1 {
                assert(path.drop_last()[i] == path[i]);
                assert(path.drop_last()[j] == path[j]);
            }
        }
    }
    // Points off the longer path were off the path before, and are neither
    // end of the new edge.
    assert forall|x: Point| !longer.contains(x) implies #[trigger] edge_count_in(after, x)
        == 0 by {
        assert(longer[n] == c && longer[n - 1] == p);
        if path.contains(x) {
            let i = choose|i: int| 0 <= i < n && path[i] == x;
            assert(longer[i] == x);
        }
        assert(edge_count_in(ledger, x) == 0);
        assert(x != p && x != c);
    }
    // A candidate other than the start is new to the path: the points inside
    // the path are saturated, and it is not.
    if c != path[0] {
        assert(!path.contains(c)) by {
            if path.contains(c) {
                let i = choose|i: int| 0 <= i < n && path[i] == c;
                assert(0 < i < n - 1);
                assert(saturated_in(ledger, path[i]));
            }
        }
        assert(edge_count_in(ledger, c) == 0);
    }
}

/// The path of a walk that is on track is at most one longer than the pool:
/// all its points but the last are different points of the pool.
pub proof fn lemma_on_track_path_fits(
    prev: Option<Point>,
    ledger: Map<Point, Connection>,
    path: Seq<Point>,
    pool: Seq<Point>,
)
    requires
        on_track(prev, ledger, path, pool),
    ensures
        path.len() <= pool.len() + 1,
{
    broadcast use seq_to_set_is_finite;

    let walked = path.drop_last();
    walked.unique_seq_to_set();
    pool.lemma_cardinality_of_set();
    assert(walked.to_set().subset_of(pool.to_set())) by {
        assert forall|x: Point| walked.to_set().contains(x) implies pool.to_set().contains(x) by {
            let i = choose|i: int| 0 <= i < walked.len() && walked[i] == x;
            assert(pool.contains(path[i]));
        }
    }
    lemma_len_subset(walked.to_set(), pool.to_set());
}

/// On a walk that is on track, a saturated current point is the start of the
/// path, reached again, and the candidate that follows it is the second point
/// of the path: the first edge of the current point leads to it, and it is
/// saturated itself.
///
/// So such a walk never fails for its current point alone: where the current
/// point is saturated, either the tour is complete or the candidate is
/// saturated too.
pub proof fn lemma_saturated_end_has_saturated_candidate(
    prev: Option<Point>,
    ledger: Map<Point, Connection>,
    path: Seq<Point>,
    pool: Seq<Point>,
)
    requires
        on_track(prev, ledger, path, pool),
        saturated_in(ledger, path.last()),
    ensures
        path.len() >= 4,
        path.last() == path[0],
        choice(path.last(), prev, pool) == Some(path[1]),
        first_link_in(ledger, path.last()) == Some(path[1]),
        saturated_in(ledger, path[1]),
{
    let n = path.len() as int;
    let start = path[0];
    let second = path[1];
    assert(path.drop_last()[1] == second);
    assert(path.drop_last()[n - 2] == path[n - 2]);
    lemma_choice_found(start, prev, pool, second);
}

/// A walk that is on track ends, if it ends with a tour at all, with a closed
/// tour through the pool.
pub proof fn lemma_walk_on_track_closes(
    prev: Option<Point>,
    ledger: Map<Point, Connection>,
    path: Seq<Point>,
    pool: Seq<Point>,
)
    requires
        on_track(prev, ledger, path, pool),
    ensures
        extension(prev, ledger, path, pool) matches Some(end) ==> is_closed_tour(
            end.0,
            end.1,
            pool,
        ),
    decreases pool.len() + 1 - path.len(),
{
    if path.len() <= pool.len() + 1 {
        let p = path.last();
        lemma_choice_characterised(p, prev, pool);
        match choice(p, prev, pool) {
            None => {},
            Some(c) => {
                if path.len() == pool.len() + 1 {
                    if first_link_in(ledger, p) == Some(c) {
                        lemma_closed_path_is_tour(prev, ledger, path, pool, c);
                    }
                } else if saturated_in(ledger, c) || saturated_in(ledger, p) {
                } else {
                    lemma_step_stays_on_track(prev, ledger, path, pool, c);
                    lemma_walk_on_track_closes(Some(p), connected(ledger, p, c), path.push(c), pool);
                }
            },
        }
    }
}

/// A tour built from nothing but a pool is closed: it is as long as the
/// pool, holds every point of the pool exactly once, and every point of it is
/// joined to the next, and the last to the first, by an edge of the ledger
/// that the construction ends with.
pub proof fn lemma_fresh_tour_is_closed(pool: Seq<Point>)
    ensures
        extension(None, Map::empty(), Seq::empty(), pool) matches Some(end) ==> is_closed_tour(
            end.0,
            end.1,
            pool,
        ),
{
    if pool.len() > 0 {
        let path = seq![pool.last()];
        let ledger = Map::<Point, Connection>::empty();
        assert(pool.contains(path[0])) by {
        }
        lemma_walk_on_track_closes(None, ledger, path, pool);
    }
}

} // verus!
