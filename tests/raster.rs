use quilt_transform::raster::{Pixel, Raster};

fn px(r: u8, g: u8, b: u8) -> Pixel {
    Pixel { red: r, green: g, blue: b }
}

#[test]
fn black_is_all_zero() {
    let b = Pixel::black();
    assert_eq!((b.red, b.green, b.blue), (0, 0, 0));
}

#[test]
fn solid_has_size_and_colour() {
    let r = Raster::solid(px(1, 2, 3), 4, 2);
    assert_eq!(r.width(), 4);
    assert_eq!(r.height(), 2);
    assert_eq!(r.pixels.len(), 8);
    assert!(r.pixels.iter().all(|p| *p == px(1, 2, 3)));
}

#[test]
fn set_then_get_pixel() {
    let mut r = Raster::solid(Pixel::black(), 3, 2);
    r.set_pixel(2, 1, px(9, 8, 7));
    assert!(r.get_pixel(2, 1) == px(9, 8, 7));
    assert!(r.pixels[5] == px(9, 8, 7));
    assert!(r.get_pixel(0, 0) == Pixel::black());
}

#[test]
fn empty_raster_has_no_rows() {
    let r = Raster::solid(Pixel::black(), 0, 5);
    assert_eq!(r.width(), 0);
    assert_eq!(r.height(), 0);
}

