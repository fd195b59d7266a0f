//! A bounded history of the points that the end of a chain has passed.

use vstd::prelude::*;

verus! {

/// The history after `point` has been recorded: a history that is longer
/// than `limit` first loses its oldest point.
pub open spec fn recorded(points: Seq<(i128, i128)>, limit: nat, point: (i128, i128)) -> Seq<
    (i128, i128),
> {
    if points.len() > limit {
        points.drop_first().push(point)
    } else {
        points.push(point)
    }
}

/// A history that starts within `limit + 1` points stays within it.
pub proof fn lemma_recorded_bounded(points: Seq<(i128, i128)>, limit: nat, point: (i128, i128))
    requires
        points.len() <= limit + 1,
    ensures
        recorded(points, limit, point).len() <= limit + 1,
{
}

/// The most recent points of a path, oldest first.
pub struct Trace {
    points: Vec<(i128, i128)>,
    limit: usize,
}

impl Trace {
    /// The recorded points, oldest first.
    pub closed spec fn view(&self) -> Seq<(i128, i128)> {
        self.points@
    }

    /// The length beyond which the oldest point is dropped.
    pub closed spec fn limit(&self) -> nat {
        self.limit as nat
    }

    /// An empty history with the given limit.
    pub fn new(limit: usize) -> (r: Trace)
        ensures
            r@ == Seq::<(i128, i128)>::empty(),
            r.limit() == limit,
    {
        Trace { points: Vec::new(), limit }
    }

    /// Records `point` as the newest of the history.
    pub fn record(&mut self, point: (i128, i128))
        ensures
            final(self).limit() == old(self).limit(),
            final(self)@ == recorded(old(self)@, old(self).limit(), point),
    {
        if self.points.len() > self.limit {
            self.points.remove(0);
        }
        self.points.push(point);
    }

    /// The recorded points, oldest first.
    pub fn points(&self) -> (r: &Vec<(i128, i128)>)
        ensures
            r@ == self@,
    {
        &self.points
    }
}

} // verus!
