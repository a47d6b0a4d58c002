use crate::matrix::{lemma_cell_distinct, lemma_cell_in_bounds, Matrix};
use crate::raster::{Pixel, Raster};
use vstd::arithmetic::div_mod::lemma_fundamental_div_mod_converse;
use vstd::prelude::*;

verus! {

/// An image represented as a quilt of coloured parallelograms.
///
/// ```text
/// p1 ------------ p2
/// |               |
/// |               |
/// p3 ------------ p4
/// ```
///
/// `locmat` holds one homogeneous coordinate column `(x, y, 1)` per mesh
/// vertex, vertices row by row with x varying fastest; `colmat` holds one
/// column `(red, green, blue, 1)` per tile, tiles in the same order.
pub struct Quilt {
    pub locmat: Matrix<i64>,
    pub colmat: Matrix<u8>,
    pub pwidth: usize,
    pub pheight: usize,
}

/// A corner of a tile: the first two coordinates of a mesh vertex.
#[derive(Clone, Copy, PartialEq, Eq, Structural)]
pub struct Vertex {
    pub x: i64,
    pub y: i64,
}

/// The colour of a tile.
#[derive(Clone, Copy, PartialEq, Eq, Structural)]
pub struct TileColor {
    pub red: u8,
    pub green: u8,
    pub blue: u8,
}

/// One tile of a quilt, given by its place in the pixel grid: `pi` is its
/// colour column and `uli` the vertex column of its upper-left corner.
#[derive(Clone, Copy, PartialEq, Eq, Structural)]
pub struct Tile {
    pub px: usize,
    pub py: usize,
    pub pi: usize,
    pub uli: usize,
}

/// Hands out the tiles of a `pwidth x pheight` quilt row by row.
pub struct TileIterator {
    pub tile: Tile,
    pub pwidth: usize,
    pub pheight: usize,
}

/// Vertex `(a, b)` of the mesh in `m` sits at grid position `(a, b)`.
spec fn vertex_ok(m: Matrix<i64>, w: nat, a: int, b: int) -> bool {
    let v = vertex_index(w, a, b);
    &&& m.at(0, v) == a
    &&& m.at(1, v) == b
    &&& m.at(2, v) == 1
}

/// Colour column `t` of `m` holds the channels of pixel `t` of `image`.
spec fn color_ok(m: Matrix<u8>, image: Raster, t: int) -> bool {
    &&& m.at(0, t) == image.pixels@[t].red
    &&& m.at(1, t) == image.pixels@[t].green
    &&& m.at(2, t) == image.pixels@[t].blue
    &&& m.at(3, t) == 1
}

/// The vertex and colour matrices of the quilt of `image` fit in memory.
pub open spec fn knittable(image: Raster) -> bool {
    &&& 3 * ((image.width + 1) * (image.height_spec() + 1)) <= usize::MAX
    &&& 4 * (image.width * image.height_spec()) <= usize::MAX
}

/// Whether `knit` can build the quilt of `image`.
pub fn can_knit(image: &Raster) -> (r: bool)
    ensures
        r == knittable(*image),
{
    let w = image.width();
    let h = image.height();
    let vertices = match w.checked_add(1) {
        Some(w1) => match h.checked_add(1) {
            Some(h1) => w1.checked_mul(h1),
            None => None,
        },
        None => None,
    };
    let vertex_cells = match vertices {
        Some(v) => v.checked_mul(3),
        None => None,
    };
    let colour_cells = match w.checked_mul(h) {
        Some(p) => p.checked_mul(4),
        None => None,
    };
    proof {
        assert((w + 1) * (h + 1) >= h + 1) by (nonlinear_arith);
        assert((w + 1) * (h + 1) >= w + 1) by (nonlinear_arith);
        assert(4 * (w * h) >= w * h) by (nonlinear_arith);
        assert(3 * ((w + 1) * (h + 1)) >= (w + 1) * (h + 1)) by (nonlinear_arith);
    }
    vertex_cells.is_some() && colour_cells.is_some()
}

/// Builds the quilt of `image`: one vertex per grid point of the
/// `(width + 1) x (height + 1)` lattice at its integer position, and one
/// tile per pixel carrying that pixel's colour.
pub fn knit(image: Raster) -> (q: Quilt)
    requires
        knittable(image),
    ensures
        q.is_knit_of(image),
{
    let w = image.width();
    let h = image.height();
    proof {
        lemma_mesh_size(w as int, h as int);
        assert(3 * (w + 1) <= 3 * ((w + 1) * (h + 1))) by (nonlinear_arith)
            requires
                0 <= w,
                0 <= h,
        ;
        assert(3 * (h + 1) <= 3 * ((w + 1) * (h + 1))) by (nonlinear_arith)
            requires
                0 <= w,
                0 <= h,
        ;
    }
    let vertex_count = (w + 1) * (h + 1);
    let pixel_count = w * h;
    proof {
        if w > 0 {
            let n = image.pixels@.len() as int;
            let wi = w as int;
            vstd::arithmetic::div_mod::lemma_fundamental_div_mod(n, wi);
            assert(wi * (n / wi) <= n);
        }
    }
    let mut locmat: Matrix<i64> = Matrix::new(3, vertex_count);
    let mut colmat: Matrix<u8> = Matrix::new(4, pixel_count);
    let ghost wn = w as nat;

    let mut vi: usize = 0;
    let mut vy: usize = 0;
    while vy < h + 1
        invariant
            vy <= h + 1,
            3 * (w + 1) <= usize::MAX,
            3 * (h + 1) <= usize::MAX,
            vertex_count == (w + 1) * (h + 1),
            3 * vertex_count <= usize::MAX,
            vi == vy * (w + 1),
            wn == w,
            locmat.wf(),
            locmat.rows() == 3,
            locmat.cols() == vertex_count,
            forall|a: int, b: int| 0 <= a <= w && 0 <= b < vy ==> #[trigger] vertex_ok(locmat, wn, a, b),
        decreases h + 1 - vy,
    {
        let mut vx: usize = 0;
        while vx < w + 1
            invariant
                vy < h + 1,
                vx <= w + 1,
                3 * (w + 1) <= usize::MAX,
                3 * (h + 1) <= usize::MAX,
                vertex_count == (w + 1) * (h + 1),
                3 * vertex_count <= usize::MAX,
                vi == vy * (w + 1) + vx,
                wn == w,
                locmat.wf(),
                locmat.rows() == 3,
                locmat.cols() == vertex_count,
                forall|a: int, b: int|
                    (0 <= a <= w && 0 <= b < vy) || (0 <= a < vx && b == vy) ==> #[trigger] vertex_ok(
                        locmat,
                        wn,
                        a,
                        b,
                    ),
            decreases w + 1 - vx,
        {
            proof {
                lemma_vertex_before(w as int, h as int, vx as int, vy as int, vx as int, vy as int);
            }
            let ghost pre = locmat;
            locmat.set(0, vi, vx as i64);
            locmat.set(1, vi, vy as i64);
            locmat.set(2, vi, 1);
            proof {
                assert forall|a: int, b: int|
                    (0 <= a <= w && 0 <= b < vy) || (0 <= a < vx + 1 && b == vy) implies #[trigger] vertex_ok(
                    locmat,
                    wn,
                    a,
                    b,
                ) by {
                    let v = vertex_index(wn, a, b);
                    lemma_vertex_before(w as int, h as int, a, b, vx as int, vy as int);
                    if v != vi {
                        assert(vertex_ok(pre, wn, a, b));
                        assert forall|r: int| 0 <= r < 3 implies #[trigger] locmat.at(r, v) == pre.at(r, v) by {
                            lemma_cell_in_bounds(3, vertex_count as int, r, v);
                            lemma_cell_distinct(3, r, v, 0, vi as int);
                            lemma_cell_distinct(3, r, v, 1, vi as int);
                            lemma_cell_distinct(3, r, v, 2, vi as int);
                        }
                    } else {
                        assert(a == vx && b == vy) by (nonlinear_arith)
                            requires
                                v == vi,
                                v == b * (w as int + 1) + a,
                                vi == vy * (w as int + 1) + vx,
                                0 <= a <= w,
                                0 <= vx <= w,
                                b == vy || (0 <= b < vy),
                        ;
                        lemma_cell_in_bounds(3, vertex_count as int, 0, v);
                        lemma_cell_in_bounds(3, vertex_count as int, 1, v);
                        lemma_cell_in_bounds(3, vertex_count as int, 2, v);
                    }
                }
            }
            vi = vi + 1;
            vx = vx + 1;
        }
        proof {
            assert(vi == (vy + 1) * (w + 1)) by (nonlinear_arith)
                requires
                    vi == vy * (w + 1) + w + 1,
            ;
        }
        vy = vy + 1;
    }

    let mut pi: usize = 0;
    let mut py: usize = 0;
    while py < h
        invariant
            py <= h,
            h == image.height_spec(),
            w == image.width,
            pixel_count == w * h,
            4 * pixel_count <= usize::MAX,
            pi == py * w,
            forall|a: int, b: int| 0 <= a <= w && 0 <= b <= h ==> #[trigger] vertex_ok(locmat, wn, a, b),
            wn == w,
            w * h <= image.pixels@.len(),
            colmat.wf(),
            colmat.rows() == 4,
            colmat.cols() == pixel_count,
            forall|t: int| 0 <= t < pi ==> #[trigger] color_ok(colmat, image, t),
        decreases h - py,
    {
        let mut px: usize = 0;
        while px < w
            invariant
                py < h,
                px <= w,
                h == image.height_spec(),
                w == image.width,
                pixel_count == w * h,
                4 * pixel_count <= usize::MAX,
                pi == py * w + px,
                forall|a: int, b: int| 0 <= a <= w && 0 <= b <= h ==> #[trigger] vertex_ok(locmat, wn, a, b),
                wn == w,
                w * h <= image.pixels@.len(),
                colmat.wf(),
                colmat.rows() == 4,
                colmat.cols() == pixel_count,
                forall|t: int| 0 <= t < pi ==> #[trigger] color_ok(colmat, image, t),
            decreases w - px,
        {
            proof {
                lemma_cell_in_bounds(w as int, h as int, px as int, py as int);
                assert(w * h <= image.pixels@.len());
            }
            let color = image.get_pixel(px, py);
            let ghost pre = colmat;
            colmat.set(0, pi, color.red);
            colmat.set(1, pi, color.green);
            colmat.set(2, pi, color.blue);
            colmat.set(3, pi, 1);
            proof {
                assert forall|t: int| 0 <= t < pi + 1 implies #[trigger] color_ok(colmat, image, t) by {
                    if t != pi {
                        assert(color_ok(pre, image, t));
                        assert forall|r: int| 0 <= r < 4 implies #[trigger] colmat.at(r, t) == pre.at(r, t) by {
                            lemma_cell_in_bounds(4, pixel_count as int, r, t);
                            lemma_cell_distinct(4, r, t, 0, pi as int);
                            lemma_cell_distinct(4, r, t, 1, pi as int);
                            lemma_cell_distinct(4, r, t, 2, pi as int);
                            lemma_cell_distinct(4, r, t, 3, pi as int);
                        }
                    } else {
                        lemma_cell_in_bounds(4, pixel_count as int, 0, t);
                        lemma_cell_in_bounds(4, pixel_count as int, 1, t);
                        lemma_cell_in_bounds(4, pixel_count as int, 2, t);
                        lemma_cell_in_bounds(4, pixel_count as int, 3, t);
                    }
                }
            }
            pi = pi + 1;
            px = px + 1;
        }
        proof {
            assert(pi == (py + 1) * w) by (nonlinear_arith)
                requires
                    pi == py * w + w,
            ;
        }
        py = py + 1;
    }
    let q = Quilt { locmat, colmat, pwidth: w, pheight: h };
    proof {
        assert(pi == w * h) by (nonlinear_arith)
            requires
                pi == py * w,
                py == h,
        ;
        assert forall|vx: int, vy: int| 0 <= vx <= w && 0 <= vy <= h implies {
            let v = #[trigger] vertex_index(wn, vx, vy);
            &&& q.locmat.at(0, v) == vx
            &&& q.locmat.at(1, v) == vy
            &&& q.locmat.at(2, v) == 1
        } by {
            assert(vertex_ok(locmat, wn, vx, vy));
        }
        assert forall|t: int| 0 <= t < w * h implies {
            &&& #[trigger] q.colmat.at(0, t) == image.pixels@[t].red
            &&& q.colmat.at(1, t) == image.pixels@[t].green
            &&& q.colmat.at(2, t) == image.pixels@[t].blue
            &&& q.colmat.at(3, t) == 1
        } by {
            assert(color_ok(colmat, image, t));
        }
        assert(q.is_knit_of(image));
    }
    q
}

/// Grid point `(a, b)` comes no later than `(vx, vy)` in row-major order
/// when it is on an earlier row or earlier on the same row.
proof fn lemma_vertex_before(w: int, h: int, a: int, b: int, vx: int, vy: int)
    requires
        0 <= vx <= w,
        0 <= vy <= h,
        (0 <= a <= w && 0 <= b < vy) || (0 <= a <= vx && b == vy),
    ensures
        0 <= b * (w + 1) + a <= vy * (w + 1) + vx,
        (b < vy || a < vx) ==> b * (w + 1) + a < vy * (w + 1) + vx,
        vy * (w + 1) + vx < (w + 1) * (h + 1),
{
    assert(0 <= b * (w + 1)) by (nonlinear_arith)
        requires
            0 <= b,
            0 <= w,
    ;
    if b < vy {
        assert(b * (w + 1) + (w + 1) <= vy * (w + 1)) by (nonlinear_arith)
            requires
                b + 1 <= vy,
                0 <= w,
        ;
    }
    assert(vy * (w + 1) + (w + 1) <= (w + 1) * (h + 1)) by (nonlinear_arith)
        requires
            vy + 1 <= h + 1,
            0 <= w,
    ;
}

/// The `k`-th tile, in row-major order, of a quilt `w` tiles wide.
pub open spec fn tile_for(w: nat, k: nat) -> Tile {
    Tile {
        px: (k % w) as usize,
        py: (k / w) as usize,
        pi: k as usize,
        uli: ((k / w) * (w + 1) + k % w) as usize,
    }
}

/// The vertex column of grid point `(vx, vy)` in a mesh `w` tiles wide.
pub open spec fn vertex_index(w: nat, vx: int, vy: int) -> int {
    vy * (w + 1) + vx
}

impl Quilt {
    pub open spec fn wf(&self) -> bool {
        &&& self.locmat.wf()
        &&& self.locmat.rows() == 3
        &&& self.locmat.cols() == (self.pwidth + 1) * (self.pheight + 1)
        &&& self.colmat.wf()
        &&& self.colmat.rows() == 4
        &&& self.colmat.cols() == self.pwidth * self.pheight
        &&& 3 * ((self.pwidth + 1) * (self.pheight + 1)) <= usize::MAX
        &&& 4 * (self.pwidth * self.pheight) <= usize::MAX
    }

    /// Vertex column `v`.
    pub open spec fn vertex_at(&self, v: int) -> Vertex {
        Vertex { x: self.locmat.at(0, v), y: self.locmat.at(1, v) }
    }

    /// Colour column `t`.
    pub open spec fn color_at(&self, t: int) -> TileColor {
        TileColor { red: self.colmat.at(0, t), green: self.colmat.at(1, t), blue: self.colmat.at(2, t) }
    }

    /// The vertex columns of the four outer corners: top-left, top-right,
    /// bottom-left, bottom-right.
    pub open spec fn corner_index(&self, k: int) -> int {
        if k == 0 {
            0
        } else if k == 1 {
            self.pwidth as int
        } else if k == 2 {
            (self.pwidth + 1) * self.pheight
        } else {
            (self.pwidth + 1) * (self.pheight + 1) - 1
        }
    }

    /// `self` was knitted from `image`: each vertex sits at its grid position
    /// and each tile carries the colour of its pixel.
    pub open spec fn is_knit_of(&self, image: Raster) -> bool {
        &&& self.wf()
        &&& self.pwidth == image.width
        &&& self.pheight == image.height_spec()
        &&& forall|vx: int, vy: int|
            0 <= vx <= self.pwidth && 0 <= vy <= self.pheight ==> {
                let v = #[trigger] vertex_index(self.pwidth as nat, vx, vy);
                &&& self.locmat.at(0, v) == vx
                &&& self.locmat.at(1, v) == vy
                &&& self.locmat.at(2, v) == 1
            }
        &&& forall|t: int|
            0 <= t < self.pwidth * self.pheight ==> {
                &&& #[trigger] self.colmat.at(0, t) == image.pixels@[t].red
                &&& self.colmat.at(1, t) == image.pixels@[t].green
                &&& self.colmat.at(2, t) == image.pixels@[t].blue
                &&& self.colmat.at(3, t) == 1
            }
    }

    fn vertex(&self, v: usize) -> (r: Vertex)
        requires
            self.wf(),
            v < self.locmat.cols(),
        ensures
            r == self.vertex_at(v as int),
    {
        proof {
            self.locmat.lemma_col_at(v as int);
        }
        let col = self.locmat.get_col(v);
        Vertex { x: col[0], y: col[1] }
    }

    /// The tiles, row by row; a new traversal starts at the first tile.
    pub fn tiles(&self) -> (it: TileIterator)
        requires
            self.wf(),
        ensures
            it.wf(),
            it.pos() == 0,
            it.pwidth == self.pwidth,
            it.pheight == self.pheight,
    {
        TileIterator { tile: Tile { px: 0, py: 0, pi: 0, uli: 0 }, pwidth: self.pwidth, pheight: self.pheight }
    }

    /// The top-left corner of the mesh.
    pub fn p1(&self) -> (r: Vertex)
        requires
            self.wf(),
        ensures
            r == self.vertex_at(self.corner_index(0)),
    {
        proof {
            lemma_mesh_size(self.pwidth as int, self.pheight as int);
        }
        self.vertex(0)
    }

    /// The top-right corner of the mesh.
    pub fn p2(&self) -> (r: Vertex)
        requires
            self.wf(),
        ensures
            r == self.vertex_at(self.corner_index(1)),
    {
        proof {
            lemma_mesh_size(self.pwidth as int, self.pheight as int);
        }
        self.vertex(self.pwidth)
    }

    /// The bottom-left corner of the mesh.
    pub fn p3(&self) -> (r: Vertex)
        requires
            self.wf(),
        ensures
            r == self.vertex_at(self.corner_index(2)),
    {
        proof {
            lemma_mesh_size(self.pwidth as int, self.pheight as int);
        }
        let i = (self.pwidth + 1) * self.pheight;
        self.vertex(i)
    }

    /// The bottom-right corner of the mesh.
    pub fn p4(&self) -> (r: Vertex)
        requires
            self.wf(),
        ensures
            r == self.vertex_at(self.corner_index(3)),
    {
        proof {
            lemma_mesh_size(self.pwidth as int, self.pheight as int);
        }
        let i = self.locmat.colc() - 1;
        self.vertex(i)
    }
}

/// The corners of a `w x h` mesh lie inside its `(w + 1) * (h + 1)` vertices.
proof fn lemma_mesh_size(w: int, h: int)
    requires
        0 <= w,
        0 <= h,
    ensures
        w < (w + 1) * (h + 1),
        (w + 1) * h < (w + 1) * (h + 1),
        (w + 1) * h + w == (w + 1) * (h + 1) - 1,
        1 <= (w + 1) * (h + 1),
{
    assert(w < (w + 1) * (h + 1)) by (nonlinear_arith)
        requires
            0 <= w,
            0 <= h,
    ;
    assert((w + 1) * (h + 1) == (w + 1) * h + w + 1) by (nonlinear_arith);
    assert(0 <= (w + 1) * h) by (nonlinear_arith)
        requires
            0 <= w,
            0 <= h,
    ;
}

impl Tile {
    /// This tile lies in the grid of `q`, and its colour and corner columns
    /// are those of its place `(px, py)`.
    pub open spec fn wf_in(&self, q: &Quilt) -> bool {
        &&& self.px < q.pwidth
        &&& self.py < q.pheight
        &&& self.pi == self.py * q.pwidth + self.px
        &&& self.uli == vertex_index(q.pwidth as nat, self.px as int, self.py as int)
    }

    pub fn p1(&self, quilt: &Quilt) -> (r: Vertex)
        requires
            quilt.wf(),
            self.wf_in(quilt),
        ensures
            r == quilt.vertex_at(self.uli as int),
    {
        proof {
            lemma_tile_corners(quilt.pwidth as int, quilt.pheight as int, self.px as int, self.py as int);
        }
        quilt.vertex(self.uli)
    }

    pub fn p2(&self, quilt: &Quilt) -> (r: Vertex)
        requires
            quilt.wf(),
            self.wf_in(quilt),
        ensures
            r == quilt.vertex_at(self.uli + 1),
    {
        proof {
            lemma_tile_corners(quilt.pwidth as int, quilt.pheight as int, self.px as int, self.py as int);
        }
        quilt.vertex(self.uli + 1)
    }

    pub fn p3(&self, quilt: &Quilt) -> (r: Vertex)
        requires
            quilt.wf(),
            self.wf_in(quilt),
        ensures
            r == quilt.vertex_at(self.uli + quilt.pwidth + 1),
    {
        proof {
            lemma_tile_corners(quilt.pwidth as int, quilt.pheight as int, self.px as int, self.py as int);
        }
        quilt.vertex(self.uli + quilt.pwidth + 1)
    }

    pub fn p4(&self, quilt: &Quilt) -> (r: Vertex)
        requires
            quilt.wf(),
            self.wf_in(quilt),
        ensures
            r == quilt.vertex_at(self.uli + quilt.pwidth + 2),
    {
        proof {
            lemma_tile_corners(quilt.pwidth as int, quilt.pheight as int, self.px as int, self.py as int);
        }
        quilt.vertex(self.uli + quilt.pwidth + 2)
    }

    pub fn color(&self, quilt: &Quilt) -> (r: TileColor)
        requires
            quilt.wf(),
            self.wf_in(quilt),
        ensures
            r == quilt.color_at(self.pi as int),
    {
        proof {
            lemma_cell_in_bounds(quilt.pwidth as int, quilt.pheight as int, self.px as int, self.py as int);
            assert(self.py * quilt.pwidth + self.px < quilt.pwidth * quilt.pheight);
            quilt.colmat.lemma_col_at(self.pi as int);
        }
        let col = quilt.colmat.get_col(self.pi);
        TileColor { red: col[0], green: col[1], blue: col[2] }
    }
}

/// The four corners of tile `(px, py)` are vertices of a `w x h` mesh.
proof fn lemma_tile_corners(w: int, h: int, px: int, py: int)
    requires
        0 <= px < w,
        0 <= py < h,
    ensures
        0 <= py * (w + 1) + px,
        py * (w + 1) + px + w + 2 < (w + 1) * (h + 1),
{
    assert(py * (w + 1) + px + w + 2 < (w + 1) * (h + 1)) by (nonlinear_arith)
        requires
            0 <= px < w,
            0 <= py < h,
    ;
    assert(0 <= py * (w + 1)) by (nonlinear_arith)
        requires
            0 <= py,
            0 <= w,
    ;
}

impl TileIterator {
    /// How many tiles have been handed out.
    pub open spec fn pos(&self) -> nat {
        self.tile.pi as nat
    }

    /// The tile under the cursor is the one at place `pos` in row-major
    /// order, or the cursor is past the last row.
    pub open spec fn wf(&self) -> bool {
        let w = self.pwidth as int;
        let h = self.pheight as int;
        &&& 3 * ((w + 1) * (h + 1)) <= usize::MAX
        &&& 4 * (w * h) <= usize::MAX
        &&& self.tile.pi == self.tile.py * w + self.tile.px
        &&& self.tile.uli == vertex_index(self.pwidth as nat, self.tile.px as int, self.tile.py as int)
        &&& if w == 0 {
            self.tile.px == 0 && self.tile.py == 0
        } else {
            (self.tile.py < h && self.tile.px < w) || (self.tile.py == h && self.tile.px == 0)
        }
    }

    /// Hands out the next tile, or `None` once all `pwidth * pheight` tiles
    /// have been handed out.
    pub fn next(&mut self) -> (r: Option<Tile>)
        requires
            old(self).wf(),
        ensures
            final(self).wf(),
            final(self).pwidth == old(self).pwidth,
            final(self).pheight == old(self).pheight,
            old(self).pos() < old(self).pwidth * old(self).pheight ==> {
                &&& r == Some(tile_for(old(self).pwidth as nat, old(self).pos()))
                &&& final(self).pos() == old(self).pos() + 1
            },
            old(self).pos() >= old(self).pwidth * old(self).pheight ==> {
                &&& r.is_none()
                &&& final(self).pos() == old(self).pos()
            },
    {
        let w = self.pwidth;
        let h = self.pheight;
        proof {
            lemma_iter_pos(w as int, h as int, self.tile.px as int, self.tile.py as int);
        }
        if w == 0 || self.tile.py >= h {
            return None;
        }
        let elapsed = self.tile;
        proof {
            lemma_fundamental_div_mod_converse(elapsed.pi as int, w as int, elapsed.py as int, elapsed.px as int);
            lemma_tile_corners(w as int, h as int, elapsed.px as int, elapsed.py as int);
            lemma_cell_in_bounds(w as int, h as int, elapsed.px as int, elapsed.py as int);
        }
        self.tile.px = self.tile.px + 1;
        if self.tile.px >= w {
            self.tile.px = 0;
            self.tile.py = self.tile.py + 1;
            self.tile.uli = self.tile.uli + 1;
        }
        self.tile.pi = self.tile.pi + 1;
        self.tile.uli = self.tile.uli + 1;
        proof {
            assert(self.tile.pi == self.tile.py * w + self.tile.px) by (nonlinear_arith)
                requires
                    elapsed.pi == elapsed.py * w + elapsed.px,
                    self.tile.pi == elapsed.pi + 1,
                    (self.tile.px == elapsed.px + 1 && self.tile.py == elapsed.py) || (elapsed.px + 1 == w
                        && self.tile.px == 0 && self.tile.py == elapsed.py + 1),
            ;
            assert(self.tile.uli == self.tile.py * (w + 1) + self.tile.px) by (nonlinear_arith)
                requires
                    elapsed.uli == elapsed.py * (w + 1) + elapsed.px,
                    (self.tile.px == elapsed.px + 1 && self.tile.py == elapsed.py && self.tile.uli
                        == elapsed.uli + 1) || (elapsed.px + 1 == w && self.tile.px == 0 && self.tile.py
                        == elapsed.py + 1 && self.tile.uli == elapsed.uli + 2),
            ;
        }
        Some(elapsed)
    }
}

/// Walking the tiles of a quilt `w` tiles wide and `h` tiles high visits
/// each place `(px, py)` of the grid exactly once, row by row with `px`
/// varying fastest: the `k`-th tile lies in the grid, the tile at place
/// `(px, py)` is the `(py * w + px)`-th, and a later tile stands on a later
/// row or further right on the same row.
pub proof fn lemma_tile_order(w: nat, h: nat)
    requires
        3 * ((w + 1) * (h + 1)) <= usize::MAX,
        4 * (w * h) <= usize::MAX,
    ensures
        forall|k: nat|
            k < w * h ==> {
                let t = #[trigger] tile_for(w, k);
                &&& t.px < w
                &&& t.py < h
                &&& t.pi == k
                &&& t.pi == t.py * w + t.px
                &&& t.uli == vertex_index(w, t.px as int, t.py as int)
            },
        forall|px: nat, py: nat|
            px < w && py < h ==> {
                let t = #[trigger] tile_for(w, py * w + px);
                t.px == px && t.py == py
            },
        forall|k1: nat, k2: nat|
            k1 < k2 < w * h ==> {
                let t1 = #[trigger] tile_for(w, k1);
                let t2 = #[trigger] tile_for(w, k2);
                t1.py < t2.py || (t1.py == t2.py && t1.px < t2.px)
            },
{
    assert forall|k: nat| k < w * h implies {
        let t = #[trigger] tile_for(w, k);
        &&& t.px < w
        &&& t.py < h
        &&& t.pi == k
        &&& t.pi == t.py * w + t.px
        &&& t.uli == vertex_index(w, t.px as int, t.py as int)
    } by {
        lemma_place_of(w, h, k);
    }
    assert forall|px: nat, py: nat| px < w && py < h implies {
        let t = #[trigger] tile_for(w, py * w + px);
        t.px == px && t.py == py
    } by {
        lemma_fundamental_div_mod_converse((py * w + px) as int, w as int, py as int, px as int);
        lemma_cell_in_bounds(w as int, h as int, px as int, py as int);
        lemma_place_of(w, h, py * w + px);
    }
    assert forall|k1: nat, k2: nat| k1 < k2 < w * h implies {
        let t1 = #[trigger] tile_for(w, k1);
        let t2 = #[trigger] tile_for(w, k2);
        t1.py < t2.py || (t1.py == t2.py && t1.px < t2.px)
    } by {
        lemma_place_of(w, h, k1);
        lemma_place_of(w, h, k2);
        vstd::arithmetic::div_mod::lemma_div_is_ordered(k1 as int, k2 as int, w as int);
    }
}

/// In the untransformed quilt of a `w x h` raster, the traversal's `k`-th
/// tile lies in the grid and has its top-left corner at the grid point
/// `(k % w, k / w)`; every grid point `(px, py)` with `px < w`, `py < h` is
/// the top-left corner of the `(py * w + px)`-th tile; and no two tiles share
/// a top-left corner.
pub proof fn lemma_tiles_cover_grid(q: Quilt, image: Raster)
    requires
        q.is_knit_of(image),
    ensures
        forall|k: nat|
            k < q.pwidth * q.pheight ==> {
                let t = #[trigger] tile_for(q.pwidth as nat, k);
                &&& t.wf_in(&q)
                &&& q.vertex_at(t.uli as int) == (Vertex {
                    x: (k % q.pwidth as nat) as i64,
                    y: (k / q.pwidth as nat) as i64,
                })
            },
        forall|px: nat, py: nat|
            px < q.pwidth && py < q.pheight ==> q.vertex_at(
                #[trigger] tile_for(q.pwidth as nat, py * q.pwidth as nat + px).uli as int,
            ) == (Vertex { x: px as i64, y: py as i64 }),
        forall|k1: nat, k2: nat|
            k1 < q.pwidth * q.pheight && k2 < q.pwidth * q.pheight && k1 != k2 ==> q.vertex_at(
                #[trigger] tile_for(q.pwidth as nat, k1).uli as int,
            ) != q.vertex_at(#[trigger] tile_for(q.pwidth as nat, k2).uli as int),
{
    let w = q.pwidth as nat;
    let h = q.pheight as nat;
    lemma_tile_order(w, h);
    assert forall|k: nat| k < w * h implies {
        let t = #[trigger] tile_for(w, k);
        &&& t.wf_in(&q)
        &&& q.vertex_at(t.uli as int) == (Vertex { x: (k % w) as i64, y: (k / w) as i64 })
    } by {
        lemma_place_of(w, h, k);
        let t = tile_for(w, k);
        assert(vertex_index(w, t.px as int, t.py as int) == t.uli);
    }
    assert forall|px: nat, py: nat| px < w && py < h implies q.vertex_at(
        #[trigger] tile_for(w, py * w + px).uli as int,
    ) == (Vertex { x: px as i64, y: py as i64 }) by {
        lemma_cell_in_bounds(w as int, h as int, px as int, py as int);
        lemma_place_of(w, h, py * w + px);
        let t = tile_for(w, py * w + px);
        assert(vertex_index(w, t.px as int, t.py as int) == t.uli);
    }
    assert forall|k1: nat, k2: nat| k1 < w * h && k2 < w * h && k1 != k2 implies q.vertex_at(
        #[trigger] tile_for(w, k1).uli as int,
    ) != q.vertex_at(#[trigger] tile_for(w, k2).uli as int) by {
        lemma_place_of(w, h, k1);
        lemma_place_of(w, h, k2);
        let t1 = tile_for(w, k1);
        let t2 = tile_for(w, k2);
        assert(vertex_index(w, t1.px as int, t1.py as int) == t1.uli);
        assert(vertex_index(w, t2.px as int, t2.py as int) == t2.uli);
        if k1 < k2 {
            assert(tile_for(w, k1).py < tile_for(w, k2).py || (tile_for(w, k1).py == tile_for(w, k2).py
                && tile_for(w, k1).px < tile_for(w, k2).px));
        } else {
            assert(tile_for(w, k2).py < tile_for(w, k1).py || (tile_for(w, k2).py == tile_for(w, k1).py
                && tile_for(w, k2).px < tile_for(w, k1).px));
        }
    }
}

/// Place `k` of a `w x h` grid, row-major, is column `k % w` of row `k / w`.
proof fn lemma_place_of(w: nat, h: nat, k: nat)
    requires
        3 * ((w + 1) * (h + 1)) <= usize::MAX,
        4 * (w * h) <= usize::MAX,
        k < w * h,
    ensures
        w > 0,
        k % w < w,
        k / w < h,
        k == (k / w) * w + k % w,
        (k / w) * (w + 1) + k % w < (w + 1) * (h + 1),
        tile_for(w, k).px == k % w,
        tile_for(w, k).py == k / w,
        tile_for(w, k).pi == k,
        tile_for(w, k).uli == (k / w) * (w + 1) + k % w,
{
    assert(w > 0) by (nonlinear_arith)
        requires
            k < w * h,
    ;
    vstd::arithmetic::div_mod::lemma_fundamental_div_mod(k as int, w as int);
    let q = k / w;
    let r = k % w;
    assert(q < h) by (nonlinear_arith)
        requires
            k == w * q + r,
            0 <= r,
            k < w * h,
            w > 0,
    ;
    lemma_tile_corners(w as int, h as int, r as int, q as int);
    assert(k == q * w + r) by (nonlinear_arith)
        requires
            k == w * q + r,
    ;
    assert(w * h <= (w + 1) * (h + 1)) by (nonlinear_arith);
}

/// The cursor's place is below `w * h` exactly while it is inside the grid.
proof fn lemma_iter_pos(w: int, h: int, px: int, py: int)
    requires
        0 <= w,
        0 <= h,
        0 <= px,
        0 <= py,
        if w == 0 {
            px == 0 && py == 0
        } else {
            (py < h && px < w) || (py == h && px == 0)
        },
    ensures
        (w > 0 && py < h) <==> py * w + px < w * h,
{
    if w > 0 && py < h {
        assert(py * w + px < w * h) by (nonlinear_arith)
            requires
                0 <= px < w,
                0 <= py < h,
        ;
    } else if w > 0 {
        assert(py * w + px == w * h) by (nonlinear_arith)
            requires
                py == h,
                px == 0,
        ;
    }
}

impl Vertex {
    pub fn vx(&self) -> (r: i64)
        ensures
            r == self.x,
    {
        self.x
    }

    pub fn vy(&self) -> (r: i64)
        ensures
            r == self.y,
    {
        self.y
    }
}

impl From<TileColor> for Pixel {
    /// The pixel of the tile's colour.
    fn from(value: TileColor) -> (p: Pixel) {
        Pixel { red: value.red(), green: value.green(), blue: value.blue() }
    }
}

impl vstd::std_specs::convert::FromSpecImpl<TileColor> for Pixel {
    open spec fn obeys_from_spec() -> bool {
        true
    }

    open spec fn from_spec(value: TileColor) -> Pixel {
        Pixel { red: value.red, green: value.green, blue: value.blue }
    }
}

impl TileColor {
    pub fn red(&self) -> (r: u8)
        ensures
            r == self.red,
    {
        self.red
    }

    pub fn green(&self) -> (r: u8)
        ensures
            r == self.green,
    {
        self.green
    }

    pub fn blue(&self) -> (r: u8)
        ensures
            r == self.blue,
    {
        self.blue
    }
}

} // verus!
