use wireframe::buffer::ColorBuffer;
use wireframe::color::Vec3;
use wireframe::error::MeshError;
use wireframe::tga::encode_image;

const BLACK: Vec3 = Vec3 { r: 0, g: 0, b: 0 };

fn two_by_two() -> ColorBuffer {
    let mut img = ColorBuffer::new(2, 2, &BLACK);
    img.set_pixel(0, 0, &Vec3 { r: 1, g: 2, b: 3 });
    img.set_pixel(1, 0, &Vec3 { r: 4, g: 5, b: 6 });
    img.set_pixel(0, 1, &Vec3 { r: 7, g: 8, b: 9 });
    img.set_pixel(1, 1, &Vec3 { r: 10, g: 11, b: 12 });
    img
}

#[test]
fn flipped_reverses_rows() {
    let img = two_by_two();
    assert_eq!(img.flipped(), vec![7, 8, 9, 10, 11, 12, 1, 2, 3, 4, 5, 6]);
}

#[test]
fn two_by_two_file_bytes() {
    let bytes = encode_image(&two_by_two()).unwrap();
    assert_eq!(bytes.len(), 18 + 12);
    assert_eq!(bytes[2], 2); // uncompressed true colour
    assert_eq!(&bytes[12..16], &[2, 0, 2, 0]);
    assert_eq!(bytes[16], 24);
    // Rows bottom-up after the flip, each pixel stored as B, G, R.
    assert_eq!(&bytes[18..], &[9, 8, 7, 12, 11, 10, 3, 2, 1, 6, 5, 4]);
}

#[test]
fn two_by_two_decodes_back() {
    let bytes = encode_image(&two_by_two()).unwrap();
    let decoded = image::load_from_memory_with_format(&bytes, image::ImageFormat::Tga).unwrap();
    let rgb = decoded.to_rgb8();
    assert_eq!(rgb.dimensions(), (2, 2));
    assert_eq!(rgb.into_raw(), vec![7, 8, 9, 10, 11, 12, 1, 2, 3, 4, 5, 6]);
}

#[test]
fn empty_image_is_refused() {
    let img = ColorBuffer::new(0, 3, &BLACK);
    assert_eq!(encode_image(&img), Err(MeshError::InvalidDimensions));
    let wide = ColorBuffer::new(65536, 1, &BLACK);
    assert_eq!(encode_image(&wide), Err(MeshError::InvalidDimensions));
}
