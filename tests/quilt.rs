use quilt_transform::matrix::{matmul_replace, Matrix};
use quilt_transform::quilt::{can_knit, knit, Quilt, Tile, Vertex};
use quilt_transform::raster::{Pixel, Raster};
use quilt_transform::viewbox::{extent_fits_check, fit_vb, ViewBox};

/// A `w x h` raster whose pixel `(x, y)` has channels `(x, y, 10 * y + x)`.
fn gradient(w: usize, h: usize) -> Raster {
    let mut pixels = Vec::new();
    for y in 0..h {
        for x in 0..w {
            pixels.push(Pixel { red: x as u8, green: y as u8, blue: (10 * y + x) as u8 });
        }
    }
    Raster { pixels, width: w }
}

fn all_tiles(q: &Quilt) -> Vec<Tile> {
    let mut it = q.tiles();
    let mut out = Vec::new();
    while let Some(t) = it.next() {
        out.push(t);
    }
    out
}

fn xy(v: Vertex) -> (i64, i64) {
    (v.vx(), v.vy())
}

#[test]
fn knit_places_vertices_on_the_grid() {
    let q = knit(gradient(2, 3));
    assert_eq!(q.pwidth, 2);
    assert_eq!(q.pheight, 3);
    assert_eq!(q.locmat.rowc(), 3);
    assert_eq!(q.locmat.colc(), 12);
    for vy in 0..4usize {
        for vx in 0..3usize {
            let col = q.locmat.get_col(vy * 3 + vx);
            assert_eq!(col, &[vx as i64, vy as i64, 1]);
        }
    }
}

#[test]
fn knit_copies_pixel_colours() {
    let img = gradient(2, 3);
    let expected = img.pixels.clone();
    let q = knit(img);
    assert_eq!(q.colmat.rowc(), 4);
    assert_eq!(q.colmat.colc(), 6);
    for (i, p) in expected.iter().enumerate() {
        assert_eq!(q.colmat.get_col(i), &[p.red, p.green, p.blue, 1]);
    }
}

#[test]
fn outer_corners() {
    let q = knit(gradient(2, 3));
    assert_eq!(xy(q.p1()), (0, 0));
    assert_eq!(xy(q.p2()), (2, 0));
    assert_eq!(xy(q.p3()), (0, 3));
    assert_eq!(xy(q.p4()), (2, 3));
}

#[test]
fn traversal_visits_each_tile_once_row_major() {
    let q = knit(gradient(3, 2));
    let tiles = all_tiles(&q);
    let places: Vec<(usize, usize)> = tiles.iter().map(|t| (t.px, t.py)).collect();
    assert_eq!(places, vec![(0, 0), (1, 0), (2, 0), (0, 1), (1, 1), (2, 1)]);
    for (k, t) in tiles.iter().enumerate() {
        assert_eq!(t.pi, k);
        assert_eq!(t.uli, t.py * 4 + t.px);
    }
}

#[test]
fn traversal_is_restartable() {
    let q = knit(gradient(2, 2));
    let first = all_tiles(&q);
    let second = all_tiles(&q);
    assert_eq!(first.len(), 4);
    assert!(first == second);
}

#[test]
fn traversal_ends_and_stays_ended() {
    let q = knit(gradient(1, 1));
    let mut it = q.tiles();
    assert!(it.next().is_some());
    assert!(it.next().is_none());
    assert!(it.next().is_none());
}

#[test]
fn traversal_of_empty_quilt() {
    let q = knit(Raster { pixels: Vec::new(), width: 0 });
    assert_eq!(all_tiles(&q).len(), 0);
    let q = knit(Raster { pixels: Vec::new(), width: 4 });
    assert_eq!(q.pheight, 0);
    assert_eq!(all_tiles(&q).len(), 0);
}

#[test]
fn tile_corners_and_colour() {
    let q = knit(gradient(3, 2));
    let tiles = all_tiles(&q);
    let t = tiles[4];
    assert_eq!((t.px, t.py), (1, 1));
    assert_eq!(xy(t.p1(&q)), (1, 1));
    assert_eq!(xy(t.p2(&q)), (2, 1));
    assert_eq!(xy(t.p3(&q)), (1, 2));
    assert_eq!(xy(t.p4(&q)), (2, 2));
    let c = t.color(&q);
    assert_eq!((c.red(), c.green(), c.blue()), (1, 1, 11));
}

#[test]
fn fit_of_untransformed_quilt() {
    let q = knit(gradient(5, 4));
    assert!(fit_vb(&q) == ViewBox { min_x: 0, min_y: 0, width: 5, height: 4 });
}

#[test]
fn fit_after_horizontal_scaling() {
    let mut q = knit(gradient(2, 3));
    let t = Matrix::literal([[3i64, 0, 0], [0, 1, 0], [0, 0, 1]]);
    matmul_replace(&t, &mut q.locmat);
    let vb = fit_vb(&q);
    assert_eq!(vb.width, 6);
    assert_eq!(vb.height, 3);
    assert_eq!((vb.min_x, vb.min_y), (0, 0));
}

#[test]
fn fit_after_reflection() {
    let mut q = knit(gradient(2, 3));
    let t = Matrix::literal([[1i64, 0, 0], [0, -1, 0], [0, 0, 1]]);
    matmul_replace(&t, &mut q.locmat);
    assert!(fit_vb(&q) == ViewBox { min_x: 0, min_y: -3, width: 2, height: 3 });
    assert_eq!(xy(q.p3()), (0, -3));
}

#[test]
fn fit_after_translation_and_shear() {
    let mut q = knit(gradient(2, 3));
    let t = Matrix::literal([[1i64, 0, 0], [-1, 1, 0], [0, 0, 1]]);
    matmul_replace(&t, &mut q.locmat);
    assert!(fit_vb(&q) == ViewBox { min_x: 0, min_y: -2, width: 2, height: 5 });
    let t = Matrix::literal([[1i64, 0, 250], [0, 1, 100], [0, 0, 1]]);
    matmul_replace(&t, &mut q.locmat);
    assert!(fit_vb(&q) == ViewBox { min_x: 250, min_y: 98, width: 2, height: 5 });
}

#[test]
fn pixel_from_tile_colour() {
    let q = knit(gradient(2, 2));
    let tiles = all_tiles(&q);
    let p = Pixel::from(tiles[3].color(&q));
    assert!(p == Pixel { red: 1, green: 1, blue: 11 });
}

#[test]
fn knit_size_check() {
    assert!(can_knit(&gradient(3, 2)));
    assert!(can_knit(&Raster { pixels: Vec::new(), width: 0 }));
    assert!(!can_knit(&Raster { pixels: Vec::new(), width: usize::MAX }));
    assert!(!can_knit(&Raster { pixels: Vec::new(), width: usize::MAX / 3 }));
}

#[test]
fn extent_check() {
    let mut q = knit(gradient(2, 2));
    assert!(extent_fits_check(&q));
    let t = Matrix::literal([[i64::MAX / 2, -(i64::MAX / 2), 0], [0, 1, 0], [0, 0, 1]]);
    matmul_replace(&t, &mut q.locmat);
    assert!(!extent_fits_check(&q));
}

#[test]
fn each_grid_point_is_one_tile_corner() {
    let q = knit(gradient(3, 2));
    let corners: Vec<(i64, i64)> = all_tiles(&q).iter().map(|t| xy(t.p1(&q))).collect();
    assert_eq!(corners, vec![(0, 0), (1, 0), (2, 0), (0, 1), (1, 1), (2, 1)]);
}
