use quilt_transform::bmp::{is_encodable, read_bmp, write_bmp, BmpError};
use quilt_transform::raster::{Pixel, Raster};

fn sample() -> Raster {
    let mut pixels = Vec::new();
    for i in 0..6u8 {
        pixels.push(Pixel { red: i, green: 100 + i, blue: 200 + i });
    }
    Raster { pixels, width: 3 }
}

fn encode(img: &Raster) -> Vec<u8> {
    let mut out = Vec::new();
    write_bmp(&mut out, img);
    out
}

#[test]
fn header_layout() {
    let bytes = encode(&sample());
    assert_eq!(bytes.len(), 54 + 18);
    assert_eq!(&bytes[0..2], b"BM");
    assert_eq!(&bytes[2..6], &72u32.to_le_bytes());
    assert_eq!(&bytes[6..10], &[0, 0, 0, 0]);
    assert_eq!(&bytes[10..14], &54u32.to_le_bytes());
    assert_eq!(&bytes[14..18], &40u32.to_le_bytes());
    assert_eq!(&bytes[18..22], &3u32.to_le_bytes());
    assert_eq!(&bytes[22..26], &(-2i32).to_le_bytes());
    assert_eq!(&bytes[26..28], &1u16.to_le_bytes());
    assert_eq!(&bytes[28..30], &24u16.to_le_bytes());
    assert!(bytes[30..54].iter().all(|b| *b == 0));
    assert_eq!(&bytes[54..57], &[0, 100, 200]);
    assert_eq!(&bytes[69..72], &[5, 105, 205]);
}

#[test]
fn write_appends() {
    let mut out = vec![1u8, 2];
    write_bmp(&mut out, &sample());
    assert_eq!(&out[0..2], &[1, 2]);
    assert_eq!(&out[2..4], b"BM");
}

#[test]
fn round_trip_keeps_every_pixel() {
    let img = sample();
    let back = read_bmp(&encode(&img)).unwrap();
    assert_eq!(back.width(), 3);
    assert_eq!(back.height(), 2);
    assert!(back.pixels == img.pixels);
}

#[test]
fn round_trip_of_empty_raster() {
    let img = Raster { pixels: Vec::new(), width: 0 };
    let back = read_bmp(&encode(&img)).unwrap();
    assert_eq!(back.width(), 0);
    assert_eq!(back.height(), 0);
}

#[test]
fn short_header_is_truncated() {
    assert_eq!(read_bmp(&[66, 77, 0]).err(), Some(BmpError::Truncated));
    assert_eq!(read_bmp(&[]).err(), Some(BmpError::Truncated));
}

#[test]
fn wrong_signature() {
    let mut bytes = encode(&sample());
    bytes[1] = b'X';
    assert_eq!(read_bmp(&bytes).err(), Some(BmpError::Signature));
}

#[test]
fn unsupported_depth() {
    let mut bytes = encode(&sample());
    bytes[28] = 32;
    assert_eq!(read_bmp(&bytes).err(), Some(BmpError::Unsupported));
}

#[test]
fn unsupported_compression() {
    let mut bytes = encode(&sample());
    bytes[30] = 1;
    assert_eq!(read_bmp(&bytes).err(), Some(BmpError::Unsupported));
}

#[test]
fn bottom_up_rows_are_read_flipped() {
    let mut bytes = encode(&sample());
    bytes[22..26].copy_from_slice(&2i32.to_le_bytes());
    let back = read_bmp(&bytes).unwrap();
    assert_eq!(back.width(), 3);
    assert_eq!(back.height(), 2);
    let s = sample();
    for y in 0..2 {
        for x in 0..3 {
            assert!(back.get_pixel(x, y) == s.get_pixel(x, 1 - y));
        }
    }
    assert!(back.get_pixel(0, 0) == Pixel { red: 3, green: 103, blue: 203 });
}

#[test]
fn bottom_up_single_row_is_unchanged() {
    let img = Raster { pixels: vec![Pixel { red: 1, green: 2, blue: 3 }, Pixel { red: 4, green: 5, blue: 6 }], width: 2 };
    let mut bytes = encode(&img);
    bytes[22..26].copy_from_slice(&1i32.to_le_bytes());
    let back = read_bmp(&bytes).unwrap();
    assert!(back.pixels == img.pixels);
}

#[test]
fn encodable_limits() {
    assert!(is_encodable(&sample()));
    let wide = Raster { pixels: Vec::new(), width: 1usize << 32 };
    assert!(!is_encodable(&wide));
}

#[test]
fn short_pixel_data_is_truncated() {
    let mut bytes = encode(&sample());
    bytes.pop();
    assert_eq!(read_bmp(&bytes).err(), Some(BmpError::Truncated));
}

#[test]
fn pixel_offset_is_honoured() {
    let mut bytes = encode(&sample());
    bytes[10] = 56;
    bytes.splice(54..54, [9u8, 9]);
    let back = read_bmp(&bytes).unwrap();
    assert!(back.pixels == sample().pixels);
}
