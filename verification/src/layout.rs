//! Shapes shared by the rest of the desktop: a rectangle of screen space, and a direction.

use vstd::prelude::*;

verus! {

/// A rectangle in logical pixels: its top left corner, and its size.
#[derive(Debug, Clone, Copy, PartialEq, Eq)]
pub struct Rect {
    pub x: i32,
    pub y: i32,
    pub w: i32,
    pub h: i32,
}

/// One of the four ways the keyboard moves between screens and windows.
#[derive(Debug, Clone, Copy, PartialEq, Eq)]
pub enum Direction {
    Left,
    Right,
    Up,
    Down,
}

} // verus!

verus! {

/// A tiling tree: a leaf is a window's slot, a split shares its space between two trees, side by
/// side (`vertical`) or stacked, `ratio` of it to the first. The ratio is kept as the decimal
/// text it is written as; turning it into a number is for whoever lays the windows out.
#[derive(Debug, PartialEq)]
pub enum Shape {
    Leaf(usize),
    Split {
        vertical: bool,
        ratio: String,
        a: Box<Shape>,
        b: Box<Shape>,
    },
}

/// A tiling tree as the rules see it.
pub enum ShapeView {
    Leaf(usize),
    Split {
        vertical: bool,
        ratio: Seq<char>,
        a: Box<ShapeView>,
        b: Box<ShapeView>,
    },
}

pub open spec fn shape_view(s: Shape) -> ShapeView
    decreases s,
{
    match s {
        Shape::Leaf(slot) => ShapeView::Leaf(slot),
        Shape::Split { vertical, ratio, a, b } => ShapeView::Split {
            vertical,
            ratio: ratio@,
            a: Box::new(shape_view(*a)),
            b: Box::new(shape_view(*b)),
        },
    }
}

impl View for Shape {
    type V = ShapeView;

    open spec fn view(&self) -> ShapeView {
        shape_view(*self)
    }
}

} // verus!
