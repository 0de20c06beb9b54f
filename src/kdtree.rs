//! A static 2D k-d tree answering nearest neighbor queries.

use vstd::prelude::*;
use vstd::multiset::Multiset;
use vstd::seq_lib::{lemma_multiset_commutative, to_multiset_build, to_multiset_insert};
use crate::point::{Point, sq_dist};

verus! {

broadcast use {vstd::multiset::group_multiset_axioms, vstd::seq_lib::group_to_multiset_ensures};

/// The coordinate of `p` on the x axis (`split_x`) or on the y axis.
pub open spec fn axis_key(p: Point, split_x: bool) -> u32 {
    if split_x { p.x } else { p.y }
}

/// Whether the entries are ordered by their coordinate on the given axis.
pub open spec fn sorted_on<T>(s: Seq<(Point, T)>, split_x: bool) -> bool {
    forall|i: int, j: int|
        0 <= i < j < s.len() ==> axis_key(#[trigger] s[i].0, split_x) <= axis_key(#[trigger] s[j].0, split_x)
}

/// Whether `e` is an entry of `m` at least as close to `q` as every entry of `m`.
pub open spec fn is_nearest<T>(m: Multiset<(Point, T)>, q: Point, e: (Point, T)) -> bool {
    &&& m.contains(e)
    &&& forall|f: (Point, T)| #[trigger] m.contains(f) ==> sq_dist(e.0, q) <= sq_dist(f.0, q)
}

fn key_of(p: &Point, split_x: bool) -> (r: u32)
    ensures
        r == axis_key(*p, split_x),
{
    if split_x { p.x } else { p.y }
}

/// Reorders the entries by their coordinate on the given axis.
fn sort_on_axis<T>(entries: Vec<(Point, T)>, split_x: bool) -> (r: Vec<(Point, T)>)
    ensures
        r@.to_multiset() == entries@.to_multiset(),
        sorted_on(r@, split_x),
{
    let mut input = entries;
    let mut out: Vec<(Point, T)> = Vec::new();
    proof {
        assert(out@ =~= Seq::<(Point, T)>::empty());
        assert(out@.to_multiset() =~= Multiset::<(Point, T)>::empty());
        assert(out@.to_multiset().add(input@.to_multiset()) =~= entries@.to_multiset());
    }
    while input.len() > 0
        invariant
            out@.to_multiset().add(input@.to_multiset()) == entries@.to_multiset(),
            sorted_on(out@, split_x),
        decreases input@.len(),
    {
        let ghost before = input@;
        let e = input.pop().unwrap();
        proof {
            assert(before =~= input@.push(e));
            to_multiset_build(input@, e);
        }
        let k = key_of(&e.0, split_x);
        let mut i: usize = 0;
        while i < out.len() && key_of(&out[i].0, split_x) <= k
            invariant
                i <= out@.len(),
                forall|j: int| 0 <= j < i ==> axis_key(#[trigger] out@[j].0, split_x) <= k,
            decreases out@.len() - i,
        {
            i = i + 1;
        }
        let ghost prev = out@;
        out.insert(i, e);
        proof {
            to_multiset_insert(prev, i as int, e);
            assert(out@.to_multiset().add(input@.to_multiset()) =~= entries@.to_multiset());
            assert forall|a: int, b: int| 0 <= a < b < out@.len() implies
                axis_key(#[trigger] out@[a].0, split_x) <= axis_key(#[trigger] out@[b].0, split_x) by {
                if i < prev.len() {
                    assert(axis_key(prev[i as int].0, split_x) > k);
                }
                if a < i && b > i {
                    assert(out@[b] == prev[b - 1]);
                }
            }
        }
    }
    assert(input@ =~= Seq::empty());
    assert(input@.to_multiset() =~= Multiset::empty());
    assert(out@.to_multiset() =~= entries@.to_multiset());
    out
}


struct Node<T> {
    point: Point,
    payload: T,
    split_x: bool,
    left: Option<Box<Node<T>>>,
    right: Option<Box<Node<T>>>,
}

/// A k-d tree over `(point, payload)` entries, built once and then only read.
pub struct KdTree<T> {
    root: Option<Box<Node<T>>>,
}

impl<T> Node<T> {
    spec fn link_entries(link: Option<Box<Node<T>>>) -> Multiset<(Point, T)>
        decreases link,
    {
        match link {
            None => Multiset::empty(),
            Some(n) => n.entries(),
        }
    }

    spec fn entries(self) -> Multiset<(Point, T)>
        decreases self,
    {
        Self::link_entries(self.left).add(Self::link_entries(self.right)).insert(
            (self.point, self.payload),
        )
    }

    spec fn link_wf(link: Option<Box<Node<T>>>) -> bool
        decreases link,
    {
        match link {
            None => true,
            Some(n) => n.wf(),
        }
    }

    /// Entries left of a node lie at or below its splitting coordinate,
    /// entries right of it at or above.
    spec fn wf(self) -> bool
        decreases self,
    {
        &&& forall|e: (Point, T)| #[trigger] Self::link_entries(self.left).contains(e)
            ==> axis_key(e.0, self.split_x) <= axis_key(self.point, self.split_x)
        &&& forall|e: (Point, T)| #[trigger] Self::link_entries(self.right).contains(e)
            ==> axis_key(self.point, self.split_x) <= axis_key(e.0, self.split_x)
        &&& Self::link_wf(self.left)
        &&& Self::link_wf(self.right)
    }
}

proof fn lemma_sq_mono(a: int, b: int)
    requires
        0 <= a <= b,
    ensures
        a * a <= b * b,
{
    assert(a * a <= b * b) by (nonlinear_arith)
        requires 0 <= a <= b;
}

/// An entry on the far side of the splitting plane through `p` is at least
/// as far from `q` as the plane is.
proof fn lemma_plane_bound(e: Point, q: Point, p: Point, split_x: bool)
    requires
        (axis_key(q, split_x) < axis_key(p, split_x) && axis_key(p, split_x) <= axis_key(e, split_x))
        || (axis_key(p, split_x) <= axis_key(q, split_x) && axis_key(e, split_x) <= axis_key(p, split_x)),
    ensures
        (axis_key(p, split_x) - axis_key(q, split_x)) * (axis_key(p, split_x) - axis_key(q, split_x))
            <= sq_dist(e, q),
{
    let kp = axis_key(p, split_x) as int;
    let kq = axis_key(q, split_x) as int;
    let ke = axis_key(e, split_x) as int;
    let dx = e.x - q.x;
    let dy = e.y - q.y;
    assert(dx * dx >= 0 && dy * dy >= 0) by (nonlinear_arith);
    if kq < kp {
        lemma_sq_mono(kp - kq, ke - kq);
    } else {
        lemma_sq_mono(kq - kp, kq - ke);
    }
    assert((kp - kq) * (kp - kq) == (kq - kp) * (kq - kp)) by (nonlinear_arith);
    assert((ke - kq) * (ke - kq) == (kq - ke) * (kq - ke)) by (nonlinear_arith);
}

fn build<T>(entries: Vec<(Point, T)>, split_x: bool) -> (r: Option<Box<Node<T>>>)
    ensures
        Node::<T>::link_wf(r),
        Node::<T>::link_entries(r) == entries@.to_multiset(),
    decreases entries@.len(),
{
    if entries.len() == 0 {
        assert(entries@.to_multiset() =~= Multiset::empty());
        return None;
    }
    let mut lower = sort_on_axis(entries, split_x);
    let ghost s = lower@;
    assert(s.len() == entries@.len()) by {
        assert(s.to_multiset().len() == entries@.to_multiset().len());
    }
    let m: usize = lower.len() / 2;
    let mut upper = lower.split_off(m);
    let (point, payload) = upper.remove(0);
    let ghost lo = s.subrange(0, m as int);
    let ghost hi = s.subrange(m as int + 1, s.len() as int);
    proof {
        assert(lower@ == lo);
        assert(upper@ =~= hi);
        assert(s =~= lo + (seq![s[m as int]] + hi));
        lemma_multiset_commutative(lo, seq![s[m as int]] + hi);
        lemma_multiset_commutative(seq![s[m as int]], hi);
        assert(seq![s[m as int]] =~= Seq::<(Point, T)>::empty().push(s[m as int]));
        assert(Seq::<(Point, T)>::empty().to_multiset() =~= Multiset::empty());
    }
    let left = build(lower, !split_x);
    let right = build(upper, !split_x);
    let node = Node { point, payload, split_x, left, right };
    proof {
        assert(node.entries() =~= entries@.to_multiset());
        assert forall|e: (Point, T)| #[trigger] Node::<T>::link_entries(node.left).contains(e)
            implies axis_key(e.0, split_x) <= axis_key(point, split_x) by {
            let j = lo.index_of(e);
            assert(lo.contains(e));
            assert(lo[j] == s[j]);
        }
        assert forall|e: (Point, T)| #[trigger] Node::<T>::link_entries(node.right).contains(e)
            implies axis_key(point, split_x) <= axis_key(e.0, split_x) by {
            let j = hi.index_of(e);
            assert(hi.contains(e));
            assert(hi[j] == s[m + 1 + j]);
        }
    }
    Some(Box::new(node))
}

fn search<'a, T>(node: &'a Node<T>, q: &Point, best: (Point, &'a T, u128)) -> (r: (Point, &'a T, u128))
    requires
        node.wf(),
        best.2 == sq_dist(best.0, *q),
    ensures
        r.2 == sq_dist(r.0, *q),
        r.2 <= best.2,
        (r.0 == best.0 && *r.1 == *best.1) || node.entries().contains((r.0, *r.1)),
        forall|e: (Point, T)| #[trigger] node.entries().contains(e) ==> r.2 <= sq_dist(e.0, *q),
    decreases node,
{
    let d = node.point.squared_distance(q);
    let mut cur = if d < best.2 { (node.point, &node.payload, d) } else { best };
    let kq = key_of(q, node.split_x);
    let kp = key_of(&node.point, node.split_x);
    let go_left = kq < kp;
    let near = if go_left { &node.left } else { &node.right };
    let far = if go_left { &node.right } else { &node.left };
    match near {
        Some(n) => {
            cur = search(&**n, q, cur);
            assert(Node::<T>::link_entries(*near) == n.entries());
        },
        None => {
            assert(Node::<T>::link_entries(*near) =~= Multiset::empty());
        },
    }
    assert(forall|e: (Point, T)| #[trigger] Node::<T>::link_entries(*near).contains(e)
        ==> cur.2 <= sq_dist(e.0, *q));
    let gap: u128 = if go_left { (kp - kq) as u128 } else { (kq - kp) as u128 };
    let ghost cur1 = cur;
    assert(gap * gap <= 0xffff_ffff * 0xffff_ffff) by (nonlinear_arith)
        requires gap <= 0xffff_ffff;
    let plane = gap * gap;
    if plane < cur.2 {
        match far {
            Some(f) => {
                cur = search(&**f, q, cur);
                assert(Node::<T>::link_entries(*far) == f.entries());
            },
            None => {
                assert(Node::<T>::link_entries(*far) =~= Multiset::empty());
            },
        }
    } else {
        proof {
            assert(plane == (kp - kq) * (kp - kq)) by (nonlinear_arith)
                requires gap == kp - kq || gap == kq - kp, plane == gap * gap;
            assert forall|e: (Point, T)| #[trigger] Node::<T>::link_entries(*far).contains(e)
                implies cur.2 <= sq_dist(e.0, *q) by {
                lemma_plane_bound(e.0, *q, node.point, node.split_x);
            }
        }
    }
    proof {
        assert(cur.2 <= cur1.2);
        assert(forall|e: (Point, T)| #[trigger] Node::<T>::link_entries(*far).contains(e)
            ==> cur.2 <= sq_dist(e.0, *q));
        assert forall|e: (Point, T)| #[trigger] node.entries().contains(e)
            implies cur.2 <= sq_dist(e.0, *q) by {
            if e != (node.point, node.payload) {
                assert(Node::<T>::link_entries(node.left).contains(e)
                    || Node::<T>::link_entries(node.right).contains(e));
                if Node::<T>::link_entries(*near).contains(e) {
                    assert(cur1.2 <= sq_dist(e.0, *q));
                }
            }
        }
    }
    cur
}

impl<T> KdTree<T> {
    /// The entries held by the tree.
    pub closed spec fn view(&self) -> Multiset<(Point, T)> {
        Node::<T>::link_entries(self.root)
    }

    /// The ordering of entries along each node's splitting axis.
    pub closed spec fn well_formed(&self) -> bool {
        Node::<T>::link_wf(self.root)
    }

    /// Builds a balanced tree over the given entries; the root splits on x.
    pub fn from_vector(entries: Vec<(Point, T)>) -> (r: KdTree<T>)
        ensures
            r.well_formed(),
            r.view() == entries@.to_multiset(),
    {
        KdTree { root: build(entries, true) }
    }

    /// An entry nearest to `q` by Euclidean distance, or `None` for an empty tree.
    pub fn nearest_neighbor(&self, q: Point) -> (r: Option<(Point, &T)>)
        requires
            self.well_formed(),
        ensures
            r.is_none() <==> self.view().len() == 0,
            r.is_some() ==> is_nearest(self.view(), q, (r.unwrap().0, *r.unwrap().1)),
    {
        match &self.root {
            None => {
                assert(self.view() =~= Multiset::empty());
                None
            },
            Some(n) => {
                let d = n.point.squared_distance(&q);
                let r = search(&**n, &q, (n.point, &n.payload, d));
                assert(self.view() == n.entries());
                assert(self.view().contains((n.point, n.payload)));
                Some((r.0, r.1))
            },
        }
    }
}

} // verus!
