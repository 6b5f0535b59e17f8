use vstd::prelude::*;

verus! {

/// An RGB triple of 8-bit channel values.
#[derive(Clone, Copy, Debug, PartialEq, Eq, Structural)]
pub struct Vec3 {
    pub r: u8,
    pub g: u8,
    pub b: u8,
}

/// The named drawing colors.
#[derive(Clone, Copy, Debug, PartialEq, Eq, Structural)]
pub enum Color {
    Red,
    Green,
    Blue,
    Black,
    White,
}

/// The RGB triple that each named color stands for.
pub open spec fn color_rgb(c: Color) -> Vec3 {
    match c {
        Color::Red => Vec3 { r: 255, g: 0, b: 0 },
        Color::Green => Vec3 { r: 0, g: 255, b: 0 },
        Color::Blue => Vec3 { r: 0, g: 0, b: 255 },
        Color::Black => Vec3 { r: 0, g: 0, b: 0 },
        Color::White => Vec3 { r: 255, g: 255, b: 255 },
    }
}

impl Color {
    /// The RGB triple of this color; every named color has one.
    pub fn vec3(&self) -> (r: Option<Vec3>)
        ensures
            r == Some(color_rgb(*self)),
    {
        let color = match self {
            Color::Red => Vec3 { r: 255, g: 0, b: 0 },
            Color::Green => Vec3 { r: 0, g: 255, b: 0 },
            Color::Blue => Vec3 { r: 0, g: 0, b: 255 },
            Color::Black => Vec3 { r: 0, g: 0, b: 0 },
            Color::White => Vec3 { r: 255, g: 255, b: 255 },
        };
        Some(color)
    }
}

} // verus!
