//! Core geometric types: points, line segments and polygons.
//!
//! The types are generic over the coordinate type `T`. Everything in this
//! crate that only moves coordinates around (building edges, splitting
//! polylines) is verified for every coordinate type; arithmetic on
//! coordinates is left to the caller's instantiation.
use vstd::prelude::*;

verus! {

/// A point in the plane.
#[derive(Clone, Copy, Debug, PartialEq)]
pub struct Point<T> {
    pub x: T,
    pub y: T,
}

/// A line segment from `(x1, y1)` to `(x2, y2)`.
#[derive(Clone, Copy, Debug, PartialEq)]
pub struct Line<T> {
    pub x1: T,
    pub y1: T,
    pub x2: T,
    pub y2: T,
}

/// A polygon: an outer ring, zero or more hole rings and an optional
/// identifier taken from the source document.
#[derive(Clone, Debug)]
pub struct Polygon<T> {
    pub outer: Vec<Point<T>>,
    pub holes: Vec<Vec<Point<T>>>,
    pub id: Option<String>,
}

/// A chain of connected points forming a polyline.
pub type Chain<T> = Vec<Point<T>>;

/// The segment joining two points.
pub open spec fn segment<T>(a: Point<T>, b: Point<T>) -> Line<T> {
    Line { x1: a.x, y1: a.y, x2: b.x, y2: b.y }
}

impl<T> Point<T> {
    /// Create a point.
    pub fn new(x: T, y: T) -> (p: Self)
        ensures
            p.x == x,
            p.y == y,
    {
        Point { x, y }
    }
}

impl<T> Line<T> {
    /// Create a line segment.
    pub fn new(x1: T, y1: T, x2: T, y2: T) -> (l: Self)
        ensures
            l == (Line { x1, y1, x2, y2 }),
    {
        Line { x1, y1, x2, y2 }
    }
}

impl<T: Copy> Line<T> {
    /// The first endpoint.
    pub fn start(&self) -> (p: Point<T>)
        ensures
            p == (Point { x: self.x1, y: self.y1 }),
    {
        Point { x: self.x1, y: self.y1 }
    }

    /// The second endpoint.
    pub fn end(&self) -> (p: Point<T>)
        ensures
            p == (Point { x: self.x2, y: self.y2 }),
    {
        Point { x: self.x2, y: self.y2 }
    }
}

impl<T> Polygon<T> {
    /// A polygon with the given outer ring, no holes and no identifier.
    pub fn new(outer: Vec<Point<T>>) -> (p: Self)
        ensures
            p.outer@ == outer@,
            p.holes@.len() == 0,
            p.id is None,
    {
        Polygon { outer, holes: Vec::new(), id: None }
    }

    /// A polygon with the given outer ring and identifier, and no holes.
    pub fn with_id(outer: Vec<Point<T>>, id: Option<String>) -> (p: Self)
        ensures
            p.outer@ == outer@,
            p.holes@.len() == 0,
            p.id == id,
    {
        Polygon { outer, holes: Vec::new(), id }
    }

    /// A polygon with the given outer ring, holes and identifier.
    pub fn with_holes(outer: Vec<Point<T>>, holes: Vec<Vec<Point<T>>>, id: Option<String>) -> (p: Self)
        ensures
            p.outer@ == outer@,
            p.holes@ == holes@,
            p.id == id,
    {
        Polygon { outer, holes, id }
    }
}

} // verus!
