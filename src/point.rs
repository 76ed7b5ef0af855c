use vstd::prelude::*;

verus! {

/// A grid coordinate: column `0`, row `1`.
#[derive(Debug, Clone, Copy, PartialEq, Eq, Hash, Structural)]
pub struct Point(pub usize, pub usize);

/// The left neighbour of `p`, if its column does not go below zero.
pub open spec fn left_of(p: Point) -> Option<Point> {
    if p.0 >= 1 { Some(Point((p.0 - 1) as usize, p.1)) } else { None }
}

/// The right neighbour of `p`, if its column fits in a `usize`.
pub open spec fn right_of(p: Point) -> Option<Point> {
    if p.0 < usize::MAX { Some(Point((p.0 + 1) as usize, p.1)) } else { None }
}

/// The neighbour above `p`, if its row does not go below zero.
pub open spec fn up_of(p: Point) -> Option<Point> {
    if p.1 >= 1 { Some(Point(p.0, (p.1 - 1) as usize)) } else { None }
}

/// The neighbour below `p`, if its row fits in a `usize`.
pub open spec fn down_of(p: Point) -> Option<Point> {
    if p.1 < usize::MAX { Some(Point(p.0, (p.1 + 1) as usize)) } else { None }
}

/// The four neighbours of `p` in the order left, right, up, down.
pub open spec fn neighbors_of(p: Point) -> Seq<Option<Point>> {
    seq![left_of(p), right_of(p), up_of(p), down_of(p)]
}

/// `p` and `q` are one step apart along one axis.
pub open spec fn adjacent(p: Point, q: Point) -> bool {
    ||| p.1 == q.1 && (p.0 + 1 == q.0 || q.0 + 1 == p.0)
    ||| p.0 == q.0 && (p.1 + 1 == q.1 || q.1 + 1 == p.1)
}

/// Every neighbour that `neighbors_of` gives is adjacent, and every adjacent
/// point is one of them.
pub proof fn lemma_neighbors_are_adjacent(p: Point, q: Point)
    ensures
        adjacent(p, q) <==> exists|i: int| 0 <= i < 4 && #[trigger] neighbors_of(p)[i] == Some(q),
{
    if adjacent(p, q) {
        if p.1 == q.1 && q.0 + 1 == p.0 {
            assert(neighbors_of(p)[0] == Some(q));
        } else if p.1 == q.1 {
            assert(neighbors_of(p)[1] == Some(q));
        } else if q.1 + 1 == p.1 {
            assert(neighbors_of(p)[2] == Some(q));
        } else {
            assert(neighbors_of(p)[3] == Some(q));
        }
    }
}

impl Point {
    /// The axis-aligned neighbours, left, right, up, down; a side whose
    /// coordinate would leave the range of `usize` is `None`.
    pub fn neighbors(&self) -> (r: Vec<Option<Point>>)
        ensures
            r@ == neighbors_of(*self),
    {
        let r = vec![self.left(), self.right(), self.up(), self.down()];
        assert(r@ =~= neighbors_of(*self));
        r
    }

    fn left(&self) -> (r: Option<Point>)
        ensures
            r == left_of(*self),
    {
        match self.0.checked_sub(1) {
            Some(x) => Some(Point(x, self.1)),
            None => None,
        }
    }

    fn right(&self) -> (r: Option<Point>)
        ensures
            r == right_of(*self),
    {
        match self.0.checked_add(1) {
            Some(x) => Some(Point(x, self.1)),
            None => None,
        }
    }

    fn up(&self) -> (r: Option<Point>)
        ensures
            r == up_of(*self),
    {
        match self.1.checked_sub(1) {
            Some(y) => Some(Point(self.0, y)),
            None => None,
        }
    }

    fn down(&self) -> (r: Option<Point>)
        ensures
            r == down_of(*self),
    {
        match self.1.checked_add(1) {
            Some(y) => Some(Point(self.0, y)),
            None => None,
        }
    }
}

} // verus!
