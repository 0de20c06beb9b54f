//! Voronoi diagrams: every pixel takes the color of its nearest seed.

use vstd::prelude::*;
use vstd::multiset::Multiset;
use vstd::arithmetic::div_mod::{lemma_div_is_ordered, lemma_div_multiples_vanish, lemma_fundamental_div_mod};
use rand::Rng;
use crate::point::{Point, sq_dist};
use crate::bbox::{BoundingBox, in_box};
use crate::kdtree::{KdTree, is_nearest};
use crate::image::{Image, Rgb};

verus! {

broadcast use vstd::seq_lib::group_to_multiset_ensures;

/// Seed `i` carries color `c` and is at least as close to `q` as every seed.
pub open spec fn nearest_seed_color(seeds: Seq<(Point, Rgb)>, q: Point, c: Rgb) -> bool {
    exists|i: int|
        0 <= i < seeds.len() && #[trigger] seeds[i].1 == c && forall|j: int|
            0 <= j < seeds.len() ==> sq_dist(seeds[i].0, q) <= sq_dist(#[trigger] seeds[j].0, q)
}

/// Every pixel of `img` has the color of a seed nearest to it.
pub open spec fn painted(img: Image, seeds: Seq<(Point, Rgb)>) -> bool {
    forall|x: int, y: int|
        0 <= x < img.spec_width() && 0 <= y < img.spec_height() ==> nearest_seed_color(
            seeds,
            Point { x: x as u32, y: y as u32 },
            #[trigger] img.pixel_at(x, y),
        )
}

/// One channel of the gradient from `a` (at `x = 0`) to `b` (at `x = w`),
/// the exact value rounded down.
pub open spec fn shade(a: u8, b: u8, x: int, w: int) -> int {
    if a <= b {
        a + x * (b - a) / w
    } else {
        b + (w - x) * (a - b) / w
    }
}

/// The gradient color at column `x` of an image `w` pixels wide.
pub open spec fn gradient_at(c1: Rgb, c2: Rgb, x: int, w: int) -> Rgb {
    Rgb {
        r: shade(c1.r, c2.r, x, w) as u8,
        g: shade(c1.g, c2.g, x, w) as u8,
        b: shade(c1.b, c2.b, x, w) as u8,
    }
}

/// Each point paired with the gradient color of its own column.
pub open spec fn gradient_seeds(c1: Rgb, c2: Rgb, w: int, pts: Seq<Point>) -> Seq<(Point, Rgb)> {
    Seq::new(pts.len(), |i: int| (pts[i], gradient_at(c1, c2, pts[i].x as int, w)))
}

/// No two entries are equal.
pub open spec fn distinct(pts: Seq<Point>) -> bool {
    forall|i: int, j: int| 0 <= i < j < pts.len() ==> pts[i] != pts[j]
}

/// The number of points in a non-empty box.
pub open spec fn box_area(b: BoundingBox) -> int {
    (b.max.x - b.min.x + 1) * (b.max.y - b.min.y + 1)
}

/// The seed points are `n` distinct points of `b`.
pub open spec fn valid_seeds(pts: Seq<Point>, n: int, b: BoundingBox) -> bool {
    &&& pts.len() == n
    &&& distinct(pts)
    &&& forall|i: int| 0 <= i < pts.len() ==> in_box(b, #[trigger] pts[i])
}

/// The box of an image `[0, width] x [0, height]`.
pub open spec fn image_box(img: Image) -> BoundingBox {
    BoundingBox { min: Point { x: 0, y: 0 }, max: Point { x: img.spec_width(), y: img.spec_height() } }
}

proof fn lemma_nearest_in_seq(seeds: Seq<(Point, Rgb)>, q: Point, e: (Point, Rgb))
    requires
        is_nearest(seeds.to_multiset(), q, e),
    ensures
        nearest_seed_color(seeds, q, e.1),
{
    let i = seeds.index_of(e);
    assert(seeds.contains(e));
    assert forall|j: int| 0 <= j < seeds.len() implies sq_dist(seeds[i].0, q) <= sq_dist(#[trigger] seeds[j].0, q) by {
        assert(seeds.contains(seeds[j]));
        assert(seeds.to_multiset().contains(seeds[j]));
    }
}

/// Some entry of `m` carrying color `c` is nearest to `q`.
spec fn covered(m: Multiset<(Point, Rgb)>, q: Point, c: Rgb) -> bool {
    exists|p: Point| #[trigger] is_nearest(m, q, (p, c))
}

/// Colors every pixel after an entry of `tree` nearest to it.
fn paint(img: &mut Image, tree: &KdTree<Rgb>)
    requires
        old(img).well_formed(),
        tree.well_formed(),
        tree.view().len() > 0,
    ensures
        final(img).well_formed(),
        final(img).spec_width() == old(img).spec_width(),
        final(img).spec_height() == old(img).spec_height(),
        forall|x: int, y: int|
            0 <= x < final(img).spec_width() && 0 <= y < final(img).spec_height() ==> covered(
                tree.view(),
                Point { x: x as u32, y: y as u32 },
                #[trigger] final(img).pixel_at(x, y),
            ),
{
    let w = img.width();
    let h = img.height();
    let mut y: u32 = 0;
    while y < h
        invariant
            img.well_formed(),
            img.spec_width() == w,
            img.spec_height() == h,
            tree.well_formed(),
            tree.view().len() > 0,
            y <= h,
            forall|x2: int, y2: int|
                0 <= x2 < w && 0 <= y2 < y ==> covered(tree.view(), Point { x: x2 as u32, y: y2 as u32 }, #[trigger] img.pixel_at(x2, y2)),
        decreases h - y,
    {
        let mut x: u32 = 0;
        while x < w
            invariant
                img.well_formed(),
                img.spec_width() == w,
                img.spec_height() == h,
                tree.well_formed(),
                tree.view().len() > 0,
                y < h,
                x <= w,
                forall|x2: int, y2: int|
                    0 <= x2 < w && 0 <= y2 < y ==> covered(tree.view(), Point { x: x2 as u32, y: y2 as u32 }, #[trigger] img.pixel_at(x2, y2)),
                forall|x2: int|
                    0 <= x2 < x ==> covered(tree.view(), Point { x: x2 as u32, y: y }, #[trigger] img.pixel_at(x2, y as int)),
            decreases w - x,
        {
            match tree.nearest_neighbor(Point::new(x, y)) {
                Some((p, c)) => {
                    let ghost before = *img;
                    img.put_pixel(x, y, *c);
                    assert(is_nearest(tree.view(), Point { x: x, y: y }, (p, img.pixel_at(x as int, y as int))));
                    assert(covered(tree.view(), Point { x: x, y: y }, img.pixel_at(x as int, y as int)));
                    assert forall|x2: int, y2: int|
                        0 <= x2 < w && 0 <= y2 < y implies covered(tree.view(), Point { x: x2 as u32, y: y2 as u32 }, #[trigger] img.pixel_at(x2, y2)) by {
                        assert(img.pixel_at(x2, y2) == before.pixel_at(x2, y2));
                    }
                    assert forall|x2: int| 0 <= x2 < x + 1 implies covered(tree.view(), Point { x: x2 as u32, y: y }, #[trigger] img.pixel_at(x2, y as int)) by {
                        if x2 < x {
                            assert(img.pixel_at(x2, y as int) == before.pixel_at(x2, y as int));
                        }
                    }
                },
                None => {},
            }
            x = x + 1;
        }
        y = y + 1;
    }
}

/// Colors every pixel of `img` after a seed nearest to it; with no seeds the
/// image is left as it is.
pub fn render_palette(img: &mut Image, seeds: Vec<(Point, Rgb)>)
    requires
        old(img).well_formed(),
    ensures
        final(img).well_formed(),
        final(img).spec_width() == old(img).spec_width(),
        final(img).spec_height() == old(img).spec_height(),
        seeds@.len() == 0 ==> *final(img) == *old(img),
        seeds@.len() > 0 ==> painted(*final(img), seeds@),
{
    if seeds.len() == 0 {
        return;
    }
    let ghost sv = seeds@;
    let tree = KdTree::from_vector(seeds);
    paint(img, &tree);
    assert forall|x: int, y: int|
        0 <= x < img.spec_width() && 0 <= y < img.spec_height() implies nearest_seed_color(
            sv,
            Point { x: x as u32, y: y as u32 },
            #[trigger] img.pixel_at(x, y),
        ) by {
        let q = Point { x: x as u32, y: y as u32 };
        let p = choose|p: Point| is_nearest(tree.view(), q, (p, img.pixel_at(x, y)));
        lemma_nearest_in_seq(sv, q, (p, img.pixel_at(x, y)));
    }
}


/// The points of the seeds, in order.
pub open spec fn seed_points(seeds: Seq<(Point, Rgb)>) -> Seq<Point> {
    Seq::new(seeds.len(), |i: int| seeds[i].0)
}

/// Relies on `rand::Rng::gen_range` over `0..=hi` on the thread-local
/// generator: the value lies in the range, which is never empty.
#[verifier::external_body]
fn random_up_to(hi: u128) -> (r: u128)
    ensures
        r <= hi,
{
    rand::thread_rng().gen_range(0..=hi)
}

/// Relies on `rand::random` for three uniformly drawn bytes; nothing is
/// promised of their values.
#[verifier::external_body]
fn random_rgb() -> (r: Rgb) {
    let [r, g, b] = rand::random::<[u8; 3]>();
    Rgb { r, g, b }
}

fn contains_index(v: &Vec<u128>, t: u128) -> (r: bool)
    ensures
        r == v@.contains(t),
{
    let mut i: usize = 0;
    while i < v.len()
        invariant
            i <= v@.len(),
            forall|k: int| 0 <= k < i ==> v@[k] != t,
        decreases v@.len() - i,
    {
        if v[i] == t {
            return true;
        }
        i = i + 1;
    }
    false
}

/// Cell `t` of a box `w` cells wide, counted row by row from `min`.
spec fn cell_point(min: Point, w: int, t: int) -> Point {
    Point { x: (min.x + t % w) as u32, y: (min.y + t / w) as u32 }
}

proof fn lemma_cell(w: int, h: int, t: int)
    requires
        0 < w,
        0 <= t < w * h,
    ensures
        0 <= t % w < w,
        0 <= t / w < h,
{
    lemma_fundamental_div_mod(t, w);
    vstd::arithmetic::div_mod::lemma_mod_pos_bound(t, w);
    vstd::arithmetic::div_mod::lemma_div_pos_is_pos(t, w);
    let q = t / w;
    let m = t % w;
    assert(q < h) by (nonlinear_arith)
        requires t == w * q + m, 0 <= m, t < w * h, 0 < w;
}

proof fn lemma_cell_distinct(w: int, t1: int, t2: int)
    requires
        0 < w,
        0 <= t1,
        0 <= t2,
        t1 != t2,
    ensures
        t1 % w != t2 % w || t1 / w != t2 / w,
{
    lemma_fundamental_div_mod(t1, w);
    lemma_fundamental_div_mod(t2, w);
}

/// Draws `npoints` distinct points of `bbox`, each set of that size being
/// equally likely when the draws are uniform.
pub fn generate_distinct_random_points(npoints: usize, bbox: &BoundingBox) -> (r: Vec<Point>)
    requires
        bbox.min.x <= bbox.max.x,
        bbox.min.y <= bbox.max.y,
        npoints <= box_area(*bbox),
    ensures
        valid_seeds(r@, npoints as int, *bbox),
{
    let w: u128 = (bbox.max.x - bbox.min.x) as u128 + 1;
    let h: u128 = (bbox.max.y - bbox.min.y) as u128 + 1;
    assert(w * h <= 0x1_0000_0000 * 0x1_0000_0000) by (nonlinear_arith)
        requires w <= 0x1_0000_0000, h <= 0x1_0000_0000;
    let area: u128 = w * h;
    let start: u128 = area - npoints as u128;
    let mut chosen: Vec<u128> = Vec::new();
    let mut j: u128 = start;
    while j < area
        invariant
            start <= j <= area,
            chosen@.len() == j - start,
            forall|k: int| 0 <= k < chosen@.len() ==> chosen@[k] < j,
            forall|a: int, b: int| 0 <= a < b < chosen@.len() ==> chosen@[a] != chosen@[b],
        decreases area - j,
    {
        let t = random_up_to(j);
        let ghost prev = chosen@;
        if contains_index(&chosen, t) {
            chosen.push(j);
        } else {
            chosen.push(t);
        }
        proof {
            assert forall|a: int, b: int| 0 <= a < b < chosen@.len() implies chosen@[a] != chosen@[b] by {
                if b == prev.len() {
                    assert(prev.contains(chosen@[a]) || chosen@[a] < j);
                    assert(chosen@[a] == prev[a]);
                }
            }
        }
        j = j + 1;
    }
    let mut pts: Vec<Point> = Vec::new();
    let mut i: usize = 0;
    while i < chosen.len()
        invariant
            i <= chosen@.len(),
            chosen@.len() == npoints,
            w == bbox.max.x - bbox.min.x + 1,
            h == bbox.max.y - bbox.min.y + 1,
            area == w * h,
            forall|k: int| 0 <= k < chosen@.len() ==> chosen@[k] < area,
            forall|a: int, b: int| 0 <= a < b < chosen@.len() ==> chosen@[a] != chosen@[b],
            pts@.len() == i,
            forall|k: int| 0 <= k < i ==> #[trigger] pts@[k] == cell_point(bbox.min, w as int, chosen@[k] as int),
            forall|k: int| 0 <= k < i ==> in_box(*bbox, #[trigger] pts@[k]),
        decreases chosen@.len() - i,
    {
        let t = chosen[i];
        proof {
            lemma_cell(w as int, h as int, t as int);
            assert(t % w < w && t / w < h);
        }
        let p = Point::new(bbox.min.x + (t % w) as u32, bbox.min.y + (t / w) as u32);
        pts.push(p);
        i = i + 1;
    }
    proof {
        assert forall|a: int, b: int| 0 <= a < b < pts@.len() implies pts@[a] != pts@[b] by {
            let ta = chosen@[a] as int;
            let tb = chosen@[b] as int;
            lemma_cell(w as int, h as int, ta);
            lemma_cell(w as int, h as int, tb);
            lemma_cell_distinct(w as int, ta, tb);
        }
    }
    pts
}

fn shade_channel(a: u8, b: u8, x: u32, w: u32) -> (r: u8)
    requires
        0 < w,
        x <= w,
    ensures
        r == shade(a, b, x as int, w as int),
{
    if a <= b {
        let d: u64 = (b - a) as u64;
        proof {
            assert(x * d <= w * d) by (nonlinear_arith)
                requires x <= w, 0 <= d;
            lemma_div_is_ordered(x * d, w * d, w as int);
            lemma_div_multiples_vanish(d as int, w as int);
            assert(x * d <= 255 * 0x1_0000_0000) by (nonlinear_arith)
                requires x <= 0x1_0000_0000, d <= 255;
            vstd::arithmetic::div_mod::lemma_div_pos_is_pos(x * d, w as int);
        }
        let q: u64 = (x as u64) * d / (w as u64);
        a + q as u8
    } else {
        let d: u64 = (a - b) as u64;
        let v: u64 = (w - x) as u64;
        proof {
            assert(v * d <= w * d) by (nonlinear_arith)
                requires v <= w, 0 <= d;
            lemma_div_is_ordered(v * d, w * d, w as int);
            lemma_div_multiples_vanish(d as int, w as int);
            assert(v * d <= 255 * 0x1_0000_0000) by (nonlinear_arith)
                requires v <= 0x1_0000_0000, d <= 255;
            vstd::arithmetic::div_mod::lemma_div_pos_is_pos(v * d, w as int);
        }
        let q: u64 = v * d / (w as u64);
        b + q as u8
    }
}

/// The gradient color at column `x` of an image `w` pixels wide.
pub fn gradient_color(c1: Rgb, c2: Rgb, x: u32, w: u32) -> (r: Rgb)
    requires
        0 < w,
        x <= w,
    ensures
        r == gradient_at(c1, c2, x as int, w as int),
{
    Rgb {
        r: shade_channel(c1.r, c2.r, x, w),
        g: shade_channel(c1.g, c2.g, x, w),
        b: shade_channel(c1.b, c2.b, x, w),
    }
}

/// Colors every pixel after its nearest seed, each seed carrying the gradient
/// color of its own column; with no seeds the image is left as it is.
pub fn render_gradient(img: &mut Image, color1: Rgb, color2: Rgb, pts: Vec<Point>)
    requires
        old(img).well_formed(),
        0 < old(img).spec_width(),
        forall|i: int| 0 <= i < pts@.len() ==> #[trigger] pts@[i].x <= old(img).spec_width(),
    ensures
        final(img).well_formed(),
        final(img).spec_width() == old(img).spec_width(),
        final(img).spec_height() == old(img).spec_height(),
        pts@.len() == 0 ==> *final(img) == *old(img),
        pts@.len() > 0 ==> painted(*final(img), gradient_seeds(color1, color2, old(img).spec_width() as int, pts@)),
{
    let w = img.width();
    let mut seeds: Vec<(Point, Rgb)> = Vec::new();
    let mut i: usize = 0;
    while i < pts.len()
        invariant
            i <= pts@.len(),
            0 < w,
            forall|k: int| 0 <= k < pts@.len() ==> #[trigger] pts@[k].x <= w,
            seeds@.len() == i,
            forall|k: int| 0 <= k < i ==> #[trigger] seeds@[k] == (pts@[k], gradient_at(color1, color2, pts@[k].x as int, w as int)),
        decreases pts@.len() - i,
    {
        let p = pts[i];
        seeds.push((p, gradient_color(color1, color2, p.x, w)));
        i = i + 1;
    }
    assert(seeds@ =~= gradient_seeds(color1, color2, w as int, pts@));
    render_palette(img, seeds);
}

/// Paints a diagram of `npoints` distinct random seeds, each seed colored by
/// the gradient from `color1` to `color2` at its own column. With no seeds, or
/// an image without columns, the image is left as it is.
pub fn gradient_voronoi(img: &mut Image, color1: Rgb, color2: Rgb, npoints: usize)
    requires
        old(img).well_formed(),
        npoints <= box_area(image_box(*old(img))),
    ensures
        final(img).well_formed(),
        final(img).spec_width() == old(img).spec_width(),
        final(img).spec_height() == old(img).spec_height(),
        npoints == 0 || old(img).spec_width() == 0 ==> *final(img) == *old(img),
        npoints > 0 && old(img).spec_width() > 0 ==> exists|pts: Seq<Point>|
            valid_seeds(pts, npoints as int, image_box(*old(img)))
            && #[trigger] painted(*final(img), gradient_seeds(color1, color2, old(img).spec_width() as int, pts)),
{
    if npoints == 0 || img.width() == 0 {
        return;
    }
    let bbox = BoundingBox::from_dimensions(img.width(), img.height());
    let pts = generate_distinct_random_points(npoints, &bbox);
    let ghost pv = pts@;
    render_gradient(img, color1, color2, pts);
    assert(valid_seeds(pv, npoints as int, image_box(*old(img))));
}

/// Paints a diagram of `npoints` distinct random seeds, each with a random
/// color. With no seeds the image is left as it is.
pub fn random_voronoi(img: &mut Image, npoints: usize)
    requires
        old(img).well_formed(),
        npoints <= box_area(image_box(*old(img))),
    ensures
        final(img).well_formed(),
        final(img).spec_width() == old(img).spec_width(),
        final(img).spec_height() == old(img).spec_height(),
        npoints == 0 ==> *final(img) == *old(img),
        npoints > 0 ==> exists|seeds: Seq<(Point, Rgb)>|
            valid_seeds(seed_points(seeds), npoints as int, image_box(*old(img)))
            && #[trigger] painted(*final(img), seeds),
{
    if npoints == 0 {
        return;
    }
    let bbox = BoundingBox::from_dimensions(img.width(), img.height());
    let pts = generate_distinct_random_points(npoints, &bbox);
    let mut seeds: Vec<(Point, Rgb)> = Vec::new();
    let mut i: usize = 0;
    while i < pts.len()
        invariant
            i <= pts@.len(),
            seeds@.len() == i,
            forall|k: int| 0 <= k < i ==> #[trigger] seeds@[k].0 == pts@[k],
        decreases pts@.len() - i,
    {
        seeds.push((pts[i], random_rgb()));
        i = i + 1;
    }
    let ghost sv = seeds@;
    assert(seed_points(sv) =~= pts@);
    render_palette(img, seeds);
    assert(valid_seeds(seed_points(sv), npoints as int, image_box(*old(img))));
}

/// A diagram with a single seed is one flat color: the seed's.
pub proof fn lemma_single_seed_flat(img: Image, seeds: Seq<(Point, Rgb)>)
    requires
        seeds.len() == 1,
        painted(img, seeds),
    ensures
        forall|x: int, y: int|
            0 <= x < img.spec_width() && 0 <= y < img.spec_height() ==> #[trigger] img.pixel_at(x, y) == seeds[0].1,
{
    assert forall|x: int, y: int| 0 <= x < img.spec_width() && 0 <= y < img.spec_height()
        implies #[trigger] img.pixel_at(x, y) == seeds[0].1 by {
        assert(nearest_seed_color(seeds, Point { x: x as u32, y: y as u32 }, img.pixel_at(x, y)));
    }
}

} // verus!
