use wireframe::buffer::ColorBuffer;
use wireframe::color::{Color, Vec3};
use wireframe::raster::{self, Point};

const BLACK: Vec3 = Vec3 { r: 0, g: 0, b: 0 };
const RED: Vec3 = Vec3 { r: 255, g: 0, b: 0 };

fn colored(img: &ColorBuffer) -> Vec<(usize, usize)> {
    let mut out = Vec::new();
    for y in 0..img.height() {
        for x in 0..img.width() {
            if img.get_pixel(x, y) != BLACK {
                out.push((x, y));
            }
        }
    }
    out
}

#[test]
fn color_triples() {
    assert_eq!(Color::Red.vec3(), Some(Vec3 { r: 255, g: 0, b: 0 }));
    assert_eq!(Color::Green.vec3(), Some(Vec3 { r: 0, g: 255, b: 0 }));
    assert_eq!(Color::Blue.vec3(), Some(Vec3 { r: 0, g: 0, b: 255 }));
    assert_eq!(Color::Black.vec3(), Some(Vec3 { r: 0, g: 0, b: 0 }));
    assert_eq!(Color::White.vec3(), Some(Vec3 { r: 255, g: 255, b: 255 }));
}

#[test]
fn new_buffer_is_filled() {
    let fill = Vec3 { r: 1, g: 2, b: 3 };
    let img = ColorBuffer::new(4, 3, &fill);
    assert_eq!(img.width(), 4);
    assert_eq!(img.height(), 3);
    assert_eq!(img.channels(), 3);
    assert_eq!(img.as_bytes().len(), 36);
    assert_eq!(&img.as_bytes()[0..6], &[1, 2, 3, 1, 2, 3]);
    assert_eq!(img.get_pixel(3, 2), fill);
}

#[test]
fn set_pixel_writes_row_major_offset() {
    let mut img = ColorBuffer::new(4, 3, &BLACK);
    img.set_pixel(1, 2, &Vec3 { r: 10, g: 20, b: 30 });
    let i = (2 * 4 + 1) * 3;
    assert_eq!(&img.as_bytes()[i..i + 3], &[10, 20, 30]);
    assert_eq!(colored(&img), vec![(1, 2)]);
}

#[test]
fn endpoints_are_set() {
    let mut img = ColorBuffer::new(20, 20, &BLACK);
    raster::line(&Point { x: 2, y: 3 }, &Point { x: 17, y: 11 }, &mut img, &RED);
    assert_eq!(img.get_pixel(2, 3), RED);
    assert_eq!(img.get_pixel(17, 11), RED);
    let mut img = ColorBuffer::new(20, 20, &BLACK);
    raster::line(&Point { x: 19, y: 0 }, &Point { x: 0, y: 19 }, &mut img, &RED);
    assert_eq!(img.get_pixel(19, 0), RED);
    assert_eq!(img.get_pixel(0, 19), RED);
    assert_eq!(colored(&img).len(), 20);
}

#[test]
fn out_of_bounds_line_is_clipped() {
    let mut img = ColorBuffer::new(10, 4, &BLACK);
    raster::line(&Point { x: -5, y: 2 }, &Point { x: 15, y: 2 }, &mut img, &RED);
    let expected: Vec<(usize, usize)> = (0..10).map(|x| (x, 2)).collect();
    assert_eq!(colored(&img), expected);
}

#[test]
fn far_out_of_bounds_line_writes_nothing() {
    let mut img = ColorBuffer::new(10, 4, &BLACK);
    raster::line(&Point { x: -50, y: -3 }, &Point { x: -20, y: 30 }, &mut img, &RED);
    assert!(colored(&img).is_empty());
}

#[test]
fn degenerate_line_writes_one_pixel() {
    let mut img = ColorBuffer::new(20, 20, &BLACK);
    raster::line(&Point { x: 10, y: 10 }, &Point { x: 10, y: 10 }, &mut img, &RED);
    assert_eq!(colored(&img), vec![(10, 10)]);
}

#[test]
fn line_pixels_match_reference_sequence() {
    let mut img = ColorBuffer::new(8, 4, &BLACK);
    raster::line(&Point { x: 0, y: 0 }, &Point { x: 5, y: 2 }, &mut img, &RED);
    let mut got = colored(&img);
    got.sort_by_key(|p| (p.0, p.1));
    assert_eq!(got, vec![(0, 0), (1, 0), (2, 1), (3, 1), (4, 2), (5, 2)]);
}

#[test]
fn reversed_line_pixels() {
    let mut img = ColorBuffer::new(8, 4, &BLACK);
    raster::line(&Point { x: 5, y: 2 }, &Point { x: 0, y: 0 }, &mut img, &RED);
    let mut got = colored(&img);
    got.sort_by_key(|p| (p.0, p.1));
    assert_eq!(got, vec![(0, 0), (1, 0), (2, 1), (3, 1), (4, 2), (5, 2)]);
}

#[test]
fn steep_line_pixels() {
    let mut img = ColorBuffer::new(4, 6, &BLACK);
    raster::line(&Point { x: 0, y: 0 }, &Point { x: 2, y: 5 }, &mut img, &RED);
    let mut got = colored(&img);
    got.sort_by_key(|p| (p.1, p.0));
    assert_eq!(got, vec![(0, 0), (0, 1), (1, 2), (1, 3), (2, 4), (2, 5)]);
}

#[test]
fn line_keeps_other_pixels() {
    let fill = Vec3 { r: 7, g: 7, b: 7 };
    let mut img = ColorBuffer::new(5, 5, &fill);
    raster::line(&Point { x: 0, y: 4 }, &Point { x: 4, y: 4 }, &mut img, &RED);
    assert_eq!(img.get_pixel(2, 3), fill);
    assert_eq!(img.get_pixel(2, 4), RED);
}
