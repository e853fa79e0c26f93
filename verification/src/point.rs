use vstd::prelude::*;

verus! {

/// A position on the drawing surface, in whole surface units.
#[derive(Clone, Copy, Debug, PartialEq, Eq, Structural)]
pub struct Point {
    pub x: i32,
    pub y: i32,
}

/// One continuous drag: the positions it passed through, in order.
pub type Stroke = Vec<Point>;

/// The strokes of one drawing, in the order they were made.
pub type Sample = Vec<Stroke>;

impl Point {
    pub fn new(x: i32, y: i32) -> (p: Point)
        ensures
            p == (Point { x, y }),
    {
        Point { x, y }
    }
}

/// The strokes of a sample as sequences of points.
pub open spec fn sample_view(sample: &Sample) -> Seq<Seq<Point>> {
    Seq::new(sample.len() as nat, |i: int| sample[i]@)
}

} // verus!
