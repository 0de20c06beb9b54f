//! Axis aligned bounding boxes over `u32` points.

use vstd::prelude::*;
use crate::point::{Point, min_u32, max_u32};

verus! {

/// An axis aligned bounding box, given by its lowest and highest corners.
///
/// The empty box holds the inverted corners `min = (u32::MAX, u32::MAX)` and
/// `max = (0, 0)`, so that expanding it by a first point gives that point.
#[derive(Clone, Copy, Debug, PartialEq, Eq, Structural)]
pub struct BoundingBox {
    pub min: Point,
    pub max: Point,
}

/// The empty box.
pub open spec fn empty_box() -> BoundingBox {
    BoundingBox { min: Point { x: u32::MAX, y: u32::MAX }, max: Point { x: 0, y: 0 } }
}

/// The box `b` grown to cover `p`.
pub open spec fn expanded(b: BoundingBox, p: Point) -> BoundingBox {
    BoundingBox {
        min: Point { x: min_u32(b.min.x, p.x), y: min_u32(b.min.y, p.y) },
        max: Point { x: max_u32(b.max.x, p.x), y: max_u32(b.max.y, p.y) },
    }
}

/// The box obtained by expanding `b` by each point of `s`, first to last.
pub open spec fn fold_expand(b: BoundingBox, s: Seq<Point>) -> BoundingBox
    decreases s.len(),
{
    if s.len() == 0 {
        b
    } else {
        expanded(fold_expand(b, s.drop_last()), s.last())
    }
}

/// Whether `p` lies in `b`, bounds included.
pub open spec fn in_box(b: BoundingBox, p: Point) -> bool {
    b.min.x <= p.x && p.x <= b.max.x && b.min.y <= p.y && p.y <= b.max.y
}

/// The four corners of `b` in clockwise order, starting at `min`.
pub open spec fn corners(b: BoundingBox) -> Seq<Point> {
    seq![b.min, Point { x: b.max.x, y: b.min.y }, b.max, Point { x: b.min.x, y: b.max.y }]
}

/// What a fold computes: each corner coordinate is bounded by the starting
/// box and by every point, and is attained by one of them.
spec fn fold_bounds(r: BoundingBox, b: BoundingBox, s: Seq<Point>) -> bool {
    &&& r.min.x <= b.min.x && r.min.y <= b.min.y && r.max.x >= b.max.x && r.max.y >= b.max.y
    &&& forall|i: int| 0 <= i < s.len() ==> r.min.x <= #[trigger] s[i].x && r.min.y <= s[i].y
        && r.max.x >= s[i].x && r.max.y >= s[i].y
    &&& (r.min.x == b.min.x || exists|i: int| 0 <= i < s.len() && r.min.x == #[trigger] s[i].x)
    &&& (r.min.y == b.min.y || exists|i: int| 0 <= i < s.len() && r.min.y == #[trigger] s[i].y)
    &&& (r.max.x == b.max.x || exists|i: int| 0 <= i < s.len() && r.max.x == #[trigger] s[i].x)
    &&& (r.max.y == b.max.y || exists|i: int| 0 <= i < s.len() && r.max.y == #[trigger] s[i].y)
}

proof fn lemma_fold_bounds(b: BoundingBox, s: Seq<Point>)
    ensures
        fold_bounds(fold_expand(b, s), b, s),
    decreases s.len(),
{
    if s.len() > 0 {
        let t = s.drop_last();
        lemma_fold_bounds(b, t);
        let r0 = fold_expand(b, t);
        assert forall|i: int| 0 <= i < t.len() implies #[trigger] s[i] == t[i] by {}
        let n = s.len() - 1;
        if r0.min.x != b.min.x && s.last().x >= r0.min.x {
            let i = choose|i: int| 0 <= i < t.len() && r0.min.x == #[trigger] t[i].x;
            assert(s[i] == t[i]);
        }
        if r0.min.y != b.min.y && s.last().y >= r0.min.y {
            let i = choose|i: int| 0 <= i < t.len() && r0.min.y == #[trigger] t[i].y;
            assert(s[i] == t[i]);
        }
        if r0.max.x != b.max.x && s.last().x <= r0.max.x {
            let i = choose|i: int| 0 <= i < t.len() && r0.max.x == #[trigger] t[i].x;
            assert(s[i] == t[i]);
        }
        if r0.max.y != b.max.y && s.last().y <= r0.max.y {
            let i = choose|i: int| 0 <= i < t.len() && r0.max.y == #[trigger] t[i].y;
            assert(s[i] == t[i]);
        }
        assert(s[n] == s.last());
    }
}

/// Expanding a box by the same points in any order gives the same box.
pub proof fn lemma_fold_order_independent(b: BoundingBox, s1: Seq<Point>, s2: Seq<Point>)
    requires
        s1.to_multiset() == s2.to_multiset(),
    ensures
        fold_expand(b, s1) == fold_expand(b, s2),
{
    broadcast use vstd::seq_lib::group_to_multiset_ensures;
    lemma_fold_bounds(b, s1);
    lemma_fold_bounds(b, s2);
    assert forall|p: Point| s1.contains(p) <==> s2.contains(p) by {
        assert(s1.contains(p) <==> s1.to_multiset().count(p) > 0);
        assert(s2.contains(p) <==> s2.to_multiset().count(p) > 0);
    }
    lemma_fold_agree(fold_expand(b, s1), fold_expand(b, s2), b, s1, s2);
    lemma_fold_agree(fold_expand(b, s2), fold_expand(b, s1), b, s2, s1);
}

/// Of two folds over sequences with the same points, the first has corners
/// no wider than the second.
proof fn lemma_fold_agree(r1: BoundingBox, r2: BoundingBox, b: BoundingBox, s1: Seq<Point>, s2: Seq<Point>)
    requires
        fold_bounds(r1, b, s1),
        fold_bounds(r2, b, s2),
        forall|p: Point| s1.contains(p) <==> s2.contains(p),
    ensures
        r1.min.x <= r2.min.x && r1.min.y <= r2.min.y && r1.max.x >= r2.max.x && r1.max.y >= r2.max.y,
{
    if r2.min.x != b.min.x {
        let i = choose|i: int| 0 <= i < s2.len() && r2.min.x == #[trigger] s2[i].x;
        assert(s2.contains(s2[i]));
        assert(s1.contains(s2[i]));
        let j = s1.index_of(s2[i]);
        assert(s1[j] == s2[i]);
        assert(r1.min.x <= s1[j].x && r1.min.y <= s1[j].y && r1.max.x >= s1[j].x && r1.max.y >= s1[j].y);
    }
    if r2.min.y != b.min.y {
        let i = choose|i: int| 0 <= i < s2.len() && r2.min.y == #[trigger] s2[i].y;
        assert(s2.contains(s2[i]));
        assert(s1.contains(s2[i]));
        let j = s1.index_of(s2[i]);
        assert(s1[j] == s2[i]);
        assert(r1.min.x <= s1[j].x && r1.min.y <= s1[j].y && r1.max.x >= s1[j].x && r1.max.y >= s1[j].y);
    }
    if r2.max.x != b.max.x {
        let i = choose|i: int| 0 <= i < s2.len() && r2.max.x == #[trigger] s2[i].x;
        assert(s2.contains(s2[i]));
        assert(s1.contains(s2[i]));
        let j = s1.index_of(s2[i]);
        assert(s1[j] == s2[i]);
        assert(r1.min.x <= s1[j].x && r1.min.y <= s1[j].y && r1.max.x >= s1[j].x && r1.max.y >= s1[j].y);
    }
    if r2.max.y != b.max.y {
        let i = choose|i: int| 0 <= i < s2.len() && r2.max.y == #[trigger] s2[i].y;
        assert(s2.contains(s2[i]));
        assert(s1.contains(s2[i]));
        let j = s1.index_of(s2[i]);
        assert(s1[j] == s2[i]);
        assert(r1.min.x <= s1[j].x && r1.min.y <= s1[j].y && r1.max.x >= s1[j].x && r1.max.y >= s1[j].y);
    }
}

/// Each corner of a non-empty box lies in the box.
pub proof fn lemma_corners_contained(b: BoundingBox)
    requires
        b.min.x <= b.max.x,
        b.min.y <= b.max.y,
    ensures
        forall|i: int| 0 <= i < 4 ==> in_box(b, #[trigger] corners(b)[i]),
{
}

impl BoundingBox {
    /// The empty box.
    pub fn new() -> (r: BoundingBox)
        ensures
            r == empty_box(),
    {
        BoundingBox {
            min: Point::new(u32::MAX, u32::MAX),
            max: Point::new(0, 0),
        }
    }

    /// The box `[0, width] x [0, height]`.
    pub fn from_dimensions(width: u32, height: u32) -> (r: BoundingBox)
        ensures
            r.min == (Point { x: 0, y: 0 }),
            r.max == (Point { x: width, y: height }),
    {
        Self::from_dimensions_and_origin(&Point::new(0, 0), width, height)
    }

    /// The box `[origin, origin + (width, height)]`; the far corner must fit in `u32`.
    pub fn from_dimensions_and_origin(origin: &Point, width: u32, height: u32) -> (r: BoundingBox)
        requires
            origin.x + width <= u32::MAX,
            origin.y + height <= u32::MAX,
        ensures
            r.min == *origin,
            r.max == (Point { x: (origin.x + width) as u32, y: (origin.y + height) as u32 }),
    {
        let mut bbox = Self::new();
        bbox.expand_by_point(origin);
        bbox.expand_by_point(&Point::new(origin.x + width, origin.y + height));
        bbox
    }

    /// As `from_dimensions_and_origin`, but `None` where the far corner
    /// would not fit in `u32`.
    pub fn checked_from_dimensions_and_origin(origin: &Point, width: u32, height: u32) -> (r: Option<BoundingBox>)
        ensures
            r.is_none() <==> (origin.x + width > u32::MAX || origin.y + height > u32::MAX),
            r.is_some() ==> r.unwrap().min == *origin
                && r.unwrap().max == (Point { x: (origin.x + width) as u32, y: (origin.y + height) as u32 }),
    {
        match (origin.x.checked_add(width), origin.y.checked_add(height)) {
            (Some(_), Some(_)) => Some(Self::from_dimensions_and_origin(origin, width, height)),
            _ => None,
        }
    }

    /// The corner with the lowest coordinates.
    pub fn min(&self) -> (r: &Point)
        ensures
            *r == self.min,
    {
        &self.min
    }

    /// The corner with the highest coordinates.
    pub fn max(&self) -> (r: &Point)
        ensures
            *r == self.max,
    {
        &self.max
    }

    /// Grows the box to cover `pt`.
    pub fn expand_by_point(&mut self, pt: &Point)
        ensures
            *final(self) == expanded(*old(self), *pt),
    {
        self.min = self.min.lowest(pt);
        self.max = self.max.highest(pt);
    }

    /// Whether `pt` lies in the box, bounds included.
    pub fn contains(&self, pt: &Point) -> (r: bool)
        ensures
            r == in_box(*self, *pt),
    {
        self.min.x <= pt.x && self.max.x >= pt.x && self.min.y <= pt.y && self.max.y >= pt.y
    }

    /// The four corners in clockwise order, starting at `min`.
    pub fn points(&self) -> (r: [Point; 4])
        ensures
            r@ == corners(*self),
    {
        let r = [self.min, Point::new(self.max.x, self.min.y), self.max, Point::new(self.min.x, self.max.y)];
        assert(r@ =~= corners(*self));
        r
    }

    /// The midpoint of the box, each coordinate rounded down.
    pub fn center(&self) -> (r: Point)
        ensures
            r.x == (self.min.x + self.max.x) / 2,
            r.y == (self.min.y + self.max.y) / 2,
    {
        let x = ((self.min.x as u64 + self.max.x as u64) / 2) as u32;
        let y = ((self.min.y as u64 + self.max.y as u64) / 2) as u32;
        Point::new(x, y)
    }

    /// The box covering exactly the given points (empty if there are none).
    pub fn from_points(points: &[Point]) -> (r: BoundingBox)
        ensures
            r == fold_expand(empty_box(), points@),
    {
        let mut bbox = Self::new();
        let mut i: usize = 0;
        while i < points.len()
            invariant
                i <= points@.len(),
                bbox == fold_expand(empty_box(), points@.subrange(0, i as int)),
            decreases points@.len() - i,
        {
            proof {
                let s = points@.subrange(0, i as int + 1);
                assert(s.drop_last() =~= points@.subrange(0, i as int));
            }
            bbox.expand_by_point(&points[i]);
            i = i + 1;
        }
        assert(points@.subrange(0, i as int) =~= points@);
        bbox
    }
}

impl Default for BoundingBox {
    fn default() -> (r: BoundingBox)
        ensures
            r == empty_box(),
    {
        Self::new()
    }
}

} // verus!
