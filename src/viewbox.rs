use crate::matrix::{dot_upto, is_product, Matrix};
use crate::quilt::{Quilt, Vertex, vertex_index};
use crate::raster::Raster;
use vstd::prelude::*;

verus! {

/// A rectangle in the coordinate space of the mesh vertices: its top-left
/// corner and its extent.
#[derive(Clone, Copy, PartialEq, Eq, Structural)]
pub struct ViewBox {
    pub min_x: i64,
    pub min_y: i64,
    pub width: i64,
    pub height: i64,
}

pub open spec fn min4(a: int, b: int, c: int, d: int) -> int {
    vstd::math::min(vstd::math::min(a, b), vstd::math::min(c, d))
}

pub open spec fn max4(a: int, b: int, c: int, d: int) -> int {
    vstd::math::max(vstd::math::max(a, b), vstd::math::max(c, d))
}

/// Outer corner `k` of `q` (top-left, top-right, bottom-left, bottom-right).
pub open spec fn corner(q: Quilt, k: int) -> Vertex {
    q.vertex_at(q.corner_index(k))
}

pub open spec fn corners_min_x(q: Quilt) -> int {
    min4(corner(q, 0).x as int, corner(q, 1).x as int, corner(q, 2).x as int, corner(q, 3).x as int)
}

pub open spec fn corners_max_x(q: Quilt) -> int {
    max4(corner(q, 0).x as int, corner(q, 1).x as int, corner(q, 2).x as int, corner(q, 3).x as int)
}

pub open spec fn corners_min_y(q: Quilt) -> int {
    min4(corner(q, 0).y as int, corner(q, 1).y as int, corner(q, 2).y as int, corner(q, 3).y as int)
}

pub open spec fn corners_max_y(q: Quilt) -> int {
    max4(corner(q, 0).y as int, corner(q, 1).y as int, corner(q, 2).y as int, corner(q, 3).y as int)
}

/// The extent of the outer corners fits in an `i64` along both axes.
pub open spec fn extent_fits(q: Quilt) -> bool {
    &&& corners_max_x(q) - corners_min_x(q) <= i64::MAX
    &&& corners_max_y(q) - corners_min_y(q) <= i64::MAX
}

fn min4_exec(a: i64, b: i64, c: i64, d: i64) -> (r: i64)
    ensures
        r == min4(a as int, b as int, c as int, d as int),
{
    let ab = if a < b {
        a
    } else {
        b
    };
    let cd = if c < d {
        c
    } else {
        d
    };
    if ab < cd {
        ab
    } else {
        cd
    }
}

fn max4_exec(a: i64, b: i64, c: i64, d: i64) -> (r: i64)
    ensures
        r == max4(a as int, b as int, c as int, d as int),
{
    let ab = if a > b {
        a
    } else {
        b
    };
    let cd = if c > d {
        c
    } else {
        d
    };
    if ab > cd {
        ab
    } else {
        cd
    }
}

/// Whether the extent of the outer corners of `quilt` fits in an `i64`, so
/// that `fit_vb` may be called.
pub fn extent_fits_check(quilt: &Quilt) -> (r: bool)
    requires
        quilt.wf(),
    ensures
        r == extent_fits(*quilt),
{
    let (a, b, c, d) = (quilt.p1(), quilt.p2(), quilt.p3(), quilt.p4());
    let span_x = max4_exec(a.x, b.x, c.x, d.x) as i128 - min4_exec(a.x, b.x, c.x, d.x) as i128;
    let span_y = max4_exec(a.y, b.y, c.y, d.y) as i128 - min4_exec(a.y, b.y, c.y, d.y) as i128;
    span_x <= i64::MAX as i128 && span_y <= i64::MAX as i128
}

/// `vb` is the bounding rectangle of the four outer corners of `q`.
pub open spec fn is_fit_of(vb: ViewBox, q: Quilt) -> bool {
    &&& vb.min_x == corners_min_x(q)
    &&& vb.min_y == corners_min_y(q)
    &&& vb.width == corners_max_x(q) - corners_min_x(q)
    &&& vb.height == corners_max_y(q) - corners_min_y(q)
}

/// The rectangle spanned by the four outer corners of the quilt. For a
/// transform that keeps the mesh's outer boundary convex this encloses
/// the whole mesh.
pub fn fit_vb(quilt: &Quilt) -> (vb: ViewBox)
    requires
        quilt.wf(),
        extent_fits(*quilt),
    ensures
        is_fit_of(vb, *quilt),
{
    let corners = [quilt.p1(), quilt.p2(), quilt.p3(), quilt.p4()];
    let mut min_x = corners[0].vx();
    let mut max_x = min_x;
    let mut min_y = corners[0].vy();
    let mut max_y = min_y;
    let mut i: usize = 1;
    while i < 4
        invariant
            1 <= i <= 4,
            corners@ == seq![corner(*quilt, 0), corner(*quilt, 1), corner(*quilt, 2), corner(*quilt, 3)],
            min_x == fold_min_x(corners@, i as int),
            max_x == fold_max_x(corners@, i as int),
            min_y == fold_min_y(corners@, i as int),
            max_y == fold_max_y(corners@, i as int),
        decreases 4 - i,
    {
        let v = corners[i];
        if v.vx() < min_x {
            min_x = v.vx();
        }
        if v.vx() > max_x {
            max_x = v.vx();
        }
        if v.vy() < min_y {
            min_y = v.vy();
        }
        if v.vy() > max_y {
            max_y = v.vy();
        }
        i = i + 1;
    }
    proof {
        reveal_with_fuel(fold_min_x, 4);
        reveal_with_fuel(fold_max_x, 4);
        reveal_with_fuel(fold_min_y, 4);
        reveal_with_fuel(fold_max_y, 4);
    }
    ViewBox { min_x, min_y, width: max_x - min_x, height: max_y - min_y }
}

/// The least x coordinate among the first `n` vertices of `s`.
spec fn fold_min_x(s: Seq<Vertex>, n: int) -> int
    decreases n,
{
    if n <= 1 {
        s[0].x as int
    } else {
        vstd::math::min(fold_min_x(s, n - 1), s[n - 1].x as int)
    }
}

spec fn fold_max_x(s: Seq<Vertex>, n: int) -> int
    decreases n,
{
    if n <= 1 {
        s[0].x as int
    } else {
        vstd::math::max(fold_max_x(s, n - 1), s[n - 1].x as int)
    }
}

spec fn fold_min_y(s: Seq<Vertex>, n: int) -> int
    decreases n,
{
    if n <= 1 {
        s[0].y as int
    } else {
        vstd::math::min(fold_min_y(s, n - 1), s[n - 1].y as int)
    }
}

spec fn fold_max_y(s: Seq<Vertex>, n: int) -> int
    decreases n,
{
    if n <= 1 {
        s[0].y as int
    } else {
        vstd::math::max(fold_max_y(s, n - 1), s[n - 1].y as int)
    }
}

/// The bounding rectangle of an untransformed quilt of a `w x h` raster
/// starts at the origin and is `w` wide and `h` high.
pub proof fn lemma_fit_untransformed(q: Quilt, image: Raster)
    requires
        q.is_knit_of(image),
    ensures
        extent_fits(q),
        corners_min_x(q) == 0,
        corners_min_y(q) == 0,
        corners_max_x(q) - corners_min_x(q) == q.pwidth,
        corners_max_y(q) - corners_min_y(q) == q.pheight,
{
    let w = q.pwidth as int;
    let h = q.pheight as int;
    let wn = q.pwidth as nat;
    assert(vertex_index(wn, 0, 0) == 0);
    assert(vertex_index(wn, w, 0) == w);
    assert(vertex_index(wn, 0, h) == (w + 1) * h) by (nonlinear_arith)
        requires
            wn == w,
    ;
    assert(vertex_index(wn, w, h) == (w + 1) * (h + 1) - 1) by (nonlinear_arith)
        requires
            wn == w,
    ;
    assert(corner(q, 0) == Vertex { x: 0, y: 0 });
    assert(corner(q, 1) == Vertex { x: w as i64, y: 0 });
    assert(corner(q, 2) == Vertex { x: 0, y: h as i64 });
    assert(corner(q, 3) == Vertex { x: w as i64, y: h as i64 });
}

/// The reflection across the x axis in homogeneous coordinates:
/// `diag(1, -1, 1)`.
pub open spec fn is_x_reflection(m: Matrix<i64>) -> bool {
    &&& m.wf()
    &&& m.rows() == 3
    &&& m.cols() == 3
    &&& forall|i: int, j: int|
        0 <= i < 3 && 0 <= j < 3 ==> #[trigger] m.at(i, j) == if i != j {
            0i64
        } else if i == 1 {
            -1i64
        } else {
            1i64
        }
}

/// Reflecting an untransformed quilt of a `w x h` raster across the x axis
/// mirrors every vertex vertically, `(x, y)` going to `(x, -y)`, and leaves
/// a bounding rectangle of the same size, `w` wide and `h` high, now
/// reaching from `-h` to `0` vertically.
pub proof fn lemma_reflection_mirrors(q: Quilt, image: Raster, refl: Matrix<i64>, moved: Quilt)
    requires
        q.is_knit_of(image),
        is_x_reflection(refl),
        is_product(moved.locmat, refl, q.locmat),
        moved.colmat == q.colmat,
        moved.pwidth == q.pwidth,
        moved.pheight == q.pheight,
    ensures
        moved.wf(),
        forall|vx: int, vy: int|
            0 <= vx <= q.pwidth && 0 <= vy <= q.pheight ==> #[trigger] moved.vertex_at(
                vertex_index(q.pwidth as nat, vx, vy),
            ) == (Vertex { x: vx as i64, y: -vy as i64 }),
        extent_fits(moved),
        corners_min_x(moved) == 0,
        corners_min_y(moved) == -q.pheight,
        corners_max_x(moved) - corners_min_x(moved) == q.pwidth,
        corners_max_y(moved) - corners_min_y(moved) == q.pheight,
{
    let w = q.pwidth as int;
    let h = q.pheight as int;
    let wn = q.pwidth as nat;
    assert forall|vx: int, vy: int| 0 <= vx <= w && 0 <= vy <= h implies #[trigger] moved.vertex_at(
        vertex_index(wn, vx, vy),
    ) == (Vertex { x: vx as i64, y: -vy as i64 }) by {
        let v = vertex_index(wn, vx, vy);
        assert(0 <= v < (w + 1) * (h + 1)) by (nonlinear_arith)
            requires
                v == vy * (w + 1) + vx,
                0 <= vx <= w,
                0 <= vy <= h,
        ;
        q.locmat.lemma_col_at(v);
        let col = q.locmat.col(v);
        assert(col[0] == vx && col[1] == vy && col[2] == 1);
        reveal_with_fuel(dot_upto, 4);
        assert(dot_upto(refl.row(0), col, 3) == vx);
        let r1 = refl.row(1);
        assert(r1[0] == 0 && r1[1] == -1 && r1[2] == 0);
        assert(r1[1] * col[1] == -vy);
        assert(dot_upto(r1, col, 3) == -vy);
    }
    assert(vertex_index(wn, 0, 0) == 0);
    assert(vertex_index(wn, w, 0) == w);
    assert(vertex_index(wn, 0, h) == (w + 1) * h) by (nonlinear_arith)
        requires
            wn == w,
    ;
    assert(vertex_index(wn, w, h) == (w + 1) * (h + 1) - 1) by (nonlinear_arith)
        requires
            wn == w,
    ;
    assert(corner(moved, 0) == Vertex { x: 0, y: 0 });
    assert(corner(moved, 1) == Vertex { x: w as i64, y: 0 });
    assert(corner(moved, 2) == Vertex { x: 0, y: -h as i64 });
    assert(corner(moved, 3) == Vertex { x: w as i64, y: -h as i64 });
}

} // verus!
