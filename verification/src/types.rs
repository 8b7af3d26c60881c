//! Plain value types shared by the layout engine and its callers.

use vstd::prelude::*;

verus! {

/// A point in layout coordinates.
///
/// Queries may lie anywhere, including left of or above the layout, so both
/// coordinates are signed; geometry reported by the engine is non-negative.
#[derive(Clone, Copy, Debug, PartialEq, Eq, Structural)]
pub struct Point {
    pub x: i64,
    pub y: i64,
}

impl Point {
    pub fn new(x: i64, y: i64) -> (r: Point)
        ensures
            r.x == x,
            r.y == y,
    {
        Point { x, y }
    }
}

/// An axis-aligned rectangle in layout coordinates, as two corners.
#[derive(Clone, Copy, Debug, PartialEq, Eq, Structural)]
pub struct Rect {
    pub x0: i64,
    pub y0: i64,
    pub x1: i64,
    pub y1: i64,
}

impl Rect {
    pub fn new(x0: i64, y0: i64, x1: i64, y1: i64) -> (r: Rect)
        ensures
            r.x0 == x0,
            r.y0 == y0,
            r.x1 == x1,
            r.y1 == y1,
    {
        Rect { x0, y0, x1, y1 }
    }
}

/// The total size of a layout: the bounding box over all of its lines.
#[derive(Clone, Copy, Debug, PartialEq, Eq, Structural)]
pub struct Size {
    pub width: i64,
    pub height: i64,
}

impl Size {
    pub fn new(width: i64, height: i64) -> (r: Size)
        ensures
            r.width == width,
            r.height == height,
    {
        Size { width, height }
    }
}

/// Result of hit testing a point against a layout.
#[derive(Clone, Copy, Debug, PartialEq, Eq, Structural)]
pub struct HitTestPoint {
    /// The byte offset of the grapheme boundary closest to the queried point.
    pub idx: usize,
    /// Whether the point was inside the bounds of the layout. A point outside
    /// still resolves to the nearest text position.
    pub is_inside: bool,
}

impl HitTestPoint {
    pub fn new(idx: usize, is_inside: bool) -> (r: HitTestPoint)
        ensures
            r.idx == idx,
            r.is_inside == is_inside,
    {
        HitTestPoint { idx, is_inside }
    }
}

impl Default for HitTestPoint {
    /// Offset zero, outside the layout.
    fn default() -> (r: HitTestPoint)
        ensures
            r.idx == 0,
            r.is_inside == false,
    {
        HitTestPoint { idx: 0, is_inside: false }
    }
}

/// Result of hit testing a text position against a layout.
#[derive(Clone, Copy, Debug, PartialEq, Eq, Structural)]
pub struct HitTestPosition {
    /// `x` is the leading edge of the grapheme cluster containing the
    /// position; `y` is the baseline of the line containing it.
    pub point: Point,
    /// The number of the line containing this position.
    pub line: usize,
}

impl HitTestPosition {
    pub fn new(point: Point, line: usize) -> (r: HitTestPosition)
        ensures
            r.point == point,
            r.line == line,
    {
        HitTestPosition { point, line }
    }
}

/// The alignment of text in a layout.
#[derive(Clone, Copy, Debug, PartialEq, Eq, Structural)]
pub enum TextAlignment {
    Start,
    End,
    Center,
    Justified,
}

impl Default for TextAlignment {
    fn default() -> (r: TextAlignment)
        ensures
            r == TextAlignment::Start,
    {
        TextAlignment::Start
    }
}

/// Errors surfaced by layout construction.
#[derive(Clone, Copy, Debug, PartialEq, Eq, Structural)]
pub enum Error {
    /// The requested operation is not supported by this engine.
    NotSupported,
    /// The input was rejected; for layout construction, text that is not
    /// valid UTF-8.
    InvalidInput,
}

pub fn not_supported() -> (r: Error)
    ensures
        r == Error::NotSupported,
{
    Error::NotSupported
}

pub fn invalid_input() -> (r: Error)
    ensures
        r == Error::InvalidInput,
{
    Error::InvalidInput
}

} // verus!
