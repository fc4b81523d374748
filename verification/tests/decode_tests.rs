use chlorine::decode::{clipboard_bitmap, decode_thumbnail, icon_bitmap};

fn rgba_png(width: u32, height: u32) -> Vec<u8> {
    let img = image::RgbaImage::from_pixel(width, height, image::Rgba([10, 20, 30, 255]));
    let mut buf: Vec<u8> = Vec::new();
    let mut cursor = std::io::Cursor::new(&mut buf);
    img.write_to(&mut cursor, image::ImageFormat::Png).unwrap();
    buf
}

fn rgb_png(width: u32, height: u32) -> Vec<u8> {
    let img = image::RgbImage::from_pixel(width, height, image::Rgb([10, 20, 30]));
    let mut buf: Vec<u8> = Vec::new();
    let mut cursor = std::io::Cursor::new(&mut buf);
    img.write_to(&mut cursor, image::ImageFormat::Png).unwrap();
    buf
}

#[test]
fn thumbnail_of_wide_image_caps_larger_dimension_at_128() {
    let bytes = rgba_png(256, 64);
    let bitmap = decode_thumbnail(&bytes).expect("a valid PNG decodes");
    assert_eq!(bitmap.width, 128);
    // 256:64 is 4:1, so 128 wide means 32 tall within rounding.
    assert_eq!(bitmap.height, 32);
    assert_eq!(bitmap.pixels.len(), 4 * 128 * 32);
}

#[test]
fn thumbnail_of_tall_image_caps_larger_dimension_at_128() {
    let bytes = rgba_png(50, 200);
    let bitmap = decode_thumbnail(&bytes).expect("a valid PNG decodes");
    assert_eq!(bitmap.height, 128);
    assert_eq!(bitmap.width, 32);
    assert_eq!(bitmap.pixels.len() as u64, 4 * bitmap.width as u64 * bitmap.height as u64);
}

#[test]
fn undecodable_bytes_yield_no_thumbnail() {
    let bytes = vec![0u8, 1, 2, 3, 4, 5, 6, 7];
    assert!(decode_thumbnail(&bytes).is_none());
    assert!(decode_thumbnail(&Vec::new()).is_none());
}

#[test]
fn clipboard_accepts_native_rgba_only() {
    let rgba = rgba_png(4, 4);
    let bitmap = clipboard_bitmap(&rgba).expect("RGBA PNG is native 8-bit RGBA");
    assert_eq!(bitmap.width, 4);
    assert_eq!(bitmap.height, 4);
    assert_eq!(bitmap.pixels.len(), 4 * 4 * 4);
    // An RGB PNG decodes, but not to the native RGBA layout.
    let rgb = rgb_png(4, 4);
    assert!(clipboard_bitmap(&rgb).is_none());
    assert!(clipboard_bitmap(&vec![9u8, 9, 9]).is_none());
}

#[test]
fn icon_falls_back_to_single_transparent_pixel() {
    let missing = icon_bitmap(None);
    assert_eq!(missing.width, 1);
    assert_eq!(missing.height, 1);
    assert_eq!(missing.pixels, vec![0u8, 0, 0, 0]);
    let unreadable = icon_bitmap(Some(vec![1u8, 2, 3]));
    assert_eq!(unreadable.width, 1);
    assert_eq!(unreadable.height, 1);
    assert_eq!(unreadable.pixels, vec![0u8, 0, 0, 0]);
}

#[test]
fn icon_keeps_full_resolution() {
    let bytes = rgba_png(40, 30);
    let icon = icon_bitmap(Some(bytes));
    assert_eq!(icon.width, 40);
    assert_eq!(icon.height, 30);
    assert_eq!(icon.pixels.len(), 4 * 40 * 30);
}
