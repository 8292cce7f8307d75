//! The tour builder: a ledger of edges, the path walked so far and the pool
//! of points, extended one nearest candidate at a time.

use vstd::prelude::*;
use crate::ledger::{Connection, Ledger};
use crate::point::Point;
use crate::selection::{nearest_candidate, pointee};
use crate::walk::{extension, is_closed_tour, lemma_fresh_tour_is_closed, started};

verus! {

/// A tour under construction.
pub struct Shape {
    map: Ledger,
    list: Vec<Point>,
    points: Vec<Point>,
}

impl Shape {
    /// The edges recorded before the construction starts.
    pub closed spec fn ledger(&self) -> Map<Point, Connection> {
        self.map@
    }

    /// The path walked before the construction starts.
    pub closed spec fn path(&self) -> Seq<Point> {
        self.list@
    }

    /// The points that the tour is to visit.
    pub closed spec fn pool(&self) -> Seq<Point> {
        self.points@
    }

    /// The ledger is sound.
    pub closed spec fn wf(&self) -> bool {
        self.map.wf()
    }

    /// Nothing was recorded or walked yet: the ledger and the path are empty.
    pub open spec fn is_fresh(&self) -> bool {
        self.ledger() =~= Map::<Point, Connection>::empty() && self.path() =~= Seq::<
            Point,
        >::empty()
    }

    /// What the construction yields: the tour together with the ledger that
    /// records it, or nothing.
    pub open spec fn outcome(&self) -> Option<(Seq<Point>, Map<Point, Connection>)> {
        extension(None, self.ledger(), self.path(), self.pool())
    }

    /// A builder for a tour through `points`, starting from the edges in
    /// `map` and the path in `list`. A fresh construction has both empty.
    pub fn new(map: Ledger, list: Vec<Point>, points: Vec<Point>) -> (shape: Shape)
        requires
            map.wf(),
        ensures
            shape.wf(),
            shape.ledger() == map@,
            shape.path() == list@,
            shape.pool() == points@,
    {
        Shape { map, list, points }
    }

    /// Attempts the construction and returns the tour, or nothing where the
    /// walk fails. The builder itself stays as it was.
    ///
    /// The tour of a fresh builder is closed: it holds every point of the
    /// pool exactly once, and each of its points is joined to the next, the
    /// last to the first, in the ledger that the walk ends with.
    pub fn calc(&mut self) -> (tour: Option<Vec<Point>>)
        requires
            old(self).wf(),
        ensures
            *final(self) == *old(self),
            match tour {
                Some(t) => old(self).outcome() matches Some(end) && end.0 == t@ && t.len()
                    == old(self).pool().len(),
                None => old(self).outcome() is None,
            },
            old(self).is_fresh() ==> (old(self).outcome() matches Some(end) ==> is_closed_tour(
                end.0,
                end.1,
                old(self).pool(),
            )),
    {
        let map = self.map.clone();
        let list = self.list.clone();
        let points = self.points.clone();
        proof {
            lemma_fresh_tour_is_closed(self.points@);
        }
        self.light_algo(None, map, list, points)
    }

    /// Walks on from the end of `list`, reached from `prev`, and returns the
    /// closed tour, or nothing where the walk fails.
    pub fn light_algo(
        &mut self,
        prev: Option<&Point>,
        map: Ledger,
        list: Vec<Point>,
        points: Vec<Point>,
    ) -> (tour: Option<Vec<Point>>)
        requires
            map.wf(),
        ensures
            *final(self) == *old(self),
            match tour {
                Some(t) => extension(pointee(prev), map@, list@, points@) matches Some(end)
                    && end.0 == t@ && t.len() == points.len(),
                None => extension(pointee(prev), map@, list@, points@) is None,
            },
        decreases points.len() + 1 - started(list@, points@).len(),
    {
        let ghost given = list@;
        let mut map = map;
        let mut list = list;
        if list.len() == 0 {
            if points.len() == 0 {
                return None;
            }
            list.push(points[points.len() - 1]);
        }
        if list.len() - 1 > points.len() {
            return None;
        }
        let p = list[list.len() - 1];
        let c = match nearest_candidate(&p, prev, &points) {
            None => {
                return None;
            },
            Some(c) => c,
        };
        if list.len() - 1 == points.len() {
            let closes = match map.connection(&p).0 {
                Some(first) => first == c,
                None => false,
            };
            if closes {
                list.pop();
                return Some(list);
            }
            return None;
        }
        if map.is_saturated(&c) || map.is_saturated(&p) {
            return None;
        }
        map.add_edge(p, c);
        list.push(c);
        assert(list@ =~= started(given, points@).push(c));
        self.light_algo(Some(&p), map, list, points)
    }
}

/// The construction is deterministic: two builders with the same ledger, path
/// and pool yield the same tour, or both none.
pub proof fn lemma_construction_is_deterministic(one: Shape, other: Shape)
    requires
        one.ledger() == other.ledger(),
        one.path() == other.path(),
        one.pool() == other.pool(),
    ensures
        one.outcome() == other.outcome(),
{
}

} // verus!
