use vstd::prelude::*;
use crate::point::{Point, Sample, sample_view};

verus! {

/// An axis-aligned box: `min` inclusive, `max` exclusive on both axes.
#[derive(Clone, Copy, Debug, PartialEq, Eq, Structural)]
pub struct Bounds {
    pub min_x: i64,
    pub min_y: i64,
    pub max_x: i64,
    pub max_y: i64,
}

impl Bounds {
    /// The box is not empty, its minimum is a coordinate that a point can
    /// have, and its maximum is at most one past the largest such coordinate.
    pub open spec fn valid(self) -> bool {
        &&& i32::MIN <= self.min_x < self.max_x <= i32::MAX + 1
        &&& i32::MIN <= self.min_y < self.max_y <= i32::MAX + 1
    }

    /// `p` lies inside the box.
    pub open spec fn holds(self, p: Point) -> bool {
        &&& self.min_x <= p.x < self.max_x
        &&& self.min_y <= p.y < self.max_y
    }
}

/// Point `j` of stroke `i` exists and counts: its stroke has at least two
/// points. A shorter stroke draws nothing and is left out of the box.
pub open spec fn drawn(s: Seq<Seq<Point>>, i: int, j: int) -> bool {
    0 <= i < s.len() && s[i].len() >= 2 && 0 <= j < s[i].len()
}

/// Some stroke has at least two points.
pub open spec fn has_ink(s: Seq<Seq<Point>>) -> bool {
    exists|i: int, j: int| drawn(s, i, j)
}

/// Every point that counts lies inside `b`.
pub open spec fn encloses(b: Bounds, s: Seq<Seq<Point>>) -> bool {
    forall|i: int, j: int| #[trigger] drawn(s, i, j) ==> b.holds(s[i][j])
}

/// `b` is the box of the sample: the smallest coordinates of the points that
/// count, and the largest ones plus one unit.
pub open spec fn is_bounding_box(b: Bounds, s: Seq<Seq<Point>>) -> bool {
    &&& encloses(b, s)
    &&& exists|i: int, j: int| #[trigger] drawn(s, i, j) && s[i][j].x == b.min_x
    &&& exists|i: int, j: int| #[trigger] drawn(s, i, j) && s[i][j].y == b.min_y
    &&& exists|i: int, j: int| #[trigger] drawn(s, i, j) && s[i][j].x + 1 == b.max_x
    &&& exists|i: int, j: int| #[trigger] drawn(s, i, j) && s[i][j].y + 1 == b.max_y
}

/// Position `(i, j)` comes before position `(ui, uj)` in reading order.
spec fn earlier(i: int, j: int, ui: int, uj: int) -> bool {
    i < ui || (i == ui && j < uj)
}

/// `b` is the box of the points that count and come before `(ui, uj)`.
spec fn boxes_prefix(b: Bounds, s: Seq<Seq<Point>>, ui: int, uj: int) -> bool {
    &&& forall|i: int, j: int| #[trigger] drawn(s, i, j) && earlier(i, j, ui, uj) ==> b.holds(s[i][j])
    &&& exists|i: int, j: int| #[trigger] drawn(s, i, j) && earlier(i, j, ui, uj) && s[i][j].x == b.min_x
    &&& exists|i: int, j: int| #[trigger] drawn(s, i, j) && earlier(i, j, ui, uj) && s[i][j].y == b.min_y
    &&& exists|i: int, j: int| #[trigger] drawn(s, i, j) && earlier(i, j, ui, uj) && s[i][j].x + 1 == b.max_x
    &&& exists|i: int, j: int| #[trigger] drawn(s, i, j) && earlier(i, j, ui, uj) && s[i][j].y + 1 == b.max_y
}

/// No point that counts comes before `(ui, uj)`.
spec fn blank_prefix(s: Seq<Seq<Point>>, ui: int, uj: int) -> bool {
    forall|i: int, j: int| #[trigger] drawn(s, i, j) ==> !earlier(i, j, ui, uj)
}

/// What the scan knows after the points before `(ui, uj)`.
spec fn scanned(found: Option<Bounds>, s: Seq<Seq<Point>>, ui: int, uj: int) -> bool {
    match found {
        None => blank_prefix(s, ui, uj),
        Some(b) => b.valid() && boxes_prefix(b, s, ui, uj),
    }
}

/// A sample has at most one bounding box.
pub proof fn lemma_bounding_box_unique(s: Seq<Seq<Point>>, b1: Bounds, b2: Bounds)
    requires
        is_bounding_box(b1, s),
        is_bounding_box(b2, s),
    ensures
        b1 == b2,
{
}

/// A sample has a bounding box only if some stroke of it has two points, and
/// the box then holds every point of every such stroke.
pub proof fn lemma_bounding_box_holds_points(s: Seq<Seq<Point>>, b: Bounds, i: int, j: int)
    requires
        is_bounding_box(b, s),
        0 <= i < s.len(),
        0 <= j < s[i].len(),
        s[i].len() >= 2,
    ensures
        has_ink(s),
        b.min_x <= s[i][j].x < b.max_x,
        b.min_y <= s[i][j].y < b.max_y,
{
    assert(drawn(s, i, j));
}

/// A bounding box is valid: it is not empty, and its edges are coordinates
/// of points, or one more.
pub proof fn lemma_bounding_box_valid(s: Seq<Seq<Point>>, b: Bounds)
    requires
        is_bounding_box(b, s),
    ensures
        b.valid(),
{
}

/// A sample without strokes, or with strokes of fewer than two points only,
/// has no ink.
pub proof fn lemma_short_strokes_have_no_ink(s: Seq<Seq<Point>>)
    requires
        forall|i: int| 0 <= i < s.len() ==> (#[trigger] s[i]).len() < 2,
    ensures
        !has_ink(s),
{
}

/// The box with `p` added to it; without a box, the box of `p` alone.
pub open spec fn widened(found: Option<Bounds>, p: Point) -> Bounds {
    match found {
        None => Bounds {
            min_x: p.x as i64,
            min_y: p.y as i64,
            max_x: (p.x + 1) as i64,
            max_y: (p.y + 1) as i64,
        },
        Some(b) => Bounds {
            min_x: if p.x < b.min_x { p.x as i64 } else { b.min_x },
            min_y: if p.y < b.min_y { p.y as i64 } else { b.min_y },
            max_x: if p.x + 1 > b.max_x { (p.x + 1) as i64 } else { b.max_x },
            max_y: if p.y + 1 > b.max_y { (p.y + 1) as i64 } else { b.max_y },
        },
    }
}

/// `widened` on machine integers.
fn widen(found: Option<Bounds>, p: Point) -> (b: Bounds)
    requires
        found matches Some(old_b) ==> old_b.valid(),
    ensures
        b == widened(found, p),
        b.valid(),
{
    let x: i64 = p.x as i64;
    let y: i64 = p.y as i64;
    match found {
        None => Bounds { min_x: x, min_y: y, max_x: x + 1, max_y: y + 1 },
        Some(old_b) => Bounds {
            min_x: if x < old_b.min_x { x } else { old_b.min_x },
            min_y: if y < old_b.min_y { y } else { old_b.min_y },
            max_x: if x + 1 > old_b.max_x { x + 1 } else { old_b.max_x },
            max_y: if y + 1 > old_b.max_y { y + 1 } else { old_b.max_y },
        },
    }
}

/// Adding the next point to the box of the points before it gives the box of
/// the points up to it.
proof fn lemma_widen_scanned(found: Option<Bounds>, s: Seq<Seq<Point>>, i: int, j: int)
    requires
        drawn(s, i, j),
        scanned(found, s, i, j),
    ensures
        scanned(Some(widened(found, s[i][j])), s, i, j + 1),
{
    let wider = widened(found, s[i][j]);
    assert(boxes_prefix(wider, s, i, j + 1));
}

/// The box of the points that count and come before `(ui, uj)`, if there are
/// any.
proof fn lemma_scan(s: Seq<Seq<Point>>, ui: int, uj: int) -> (found: Option<Bounds>)
    requires
        0 <= ui <= s.len(),
        0 <= uj,
        ui < s.len() ==> uj <= s[ui].len(),
        ui == s.len() ==> uj == 0,
    ensures
        scanned(found, s, ui, uj),
    decreases ui, uj,
{
    if uj > 0 {
        let before = lemma_scan(s, ui, uj - 1);
        if s[ui].len() >= 2 {
            lemma_widen_scanned(before, s, ui, uj - 1);
            Some(widened(before, s[ui][uj - 1]))
        } else {
            before
        }
    } else if ui > 0 {
        lemma_scan(s, ui - 1, s[ui - 1].len() as int)
    } else {
        None
    }
}

/// A sample in which some stroke has two points has a bounding box.
pub proof fn lemma_ink_has_bounding_box(s: Seq<Seq<Point>>)
    requires
        has_ink(s),
    ensures
        exists|b: Bounds| is_bounding_box(b, s),
{
    let found = lemma_scan(s, s.len() as int, 0);
    let (i, j) = choose|i: int, j: int| drawn(s, i, j);
    assert(earlier(i, j, s.len() as int, 0));
    assert(is_bounding_box(found->0, s));
}

/// The bounding box of a sample: over the strokes of at least two points, the
/// smallest `x` and `y`, and the largest ones plus one. `None` when no stroke
/// has two points.
pub fn bounding_box(sample: &Sample) -> (r: Option<Bounds>)
    ensures
        r is None <==> !has_ink(sample_view(sample)),
        r matches Some(b) ==> b.valid() && is_bounding_box(b, sample_view(sample)),
{
    let ghost s = sample_view(sample);
    let mut found: Option<Bounds> = None;
    let mut i: usize = 0;
    while i < sample.len()
        invariant
            i <= sample.len(),
            s == sample_view(sample),
            scanned(found, s, i as int, 0),
        decreases sample.len() - i,
    {
        let stroke = &sample[i];
        assert(stroke@ == s[i as int]);
        if stroke.len() >= 2 {
            let mut j: usize = 0;
            while j < stroke.len()
                invariant
                    i < sample.len(),
                    j <= stroke.len(),
                    stroke.len() >= 2,
                    stroke@ == s[i as int],
                    s == sample_view(sample),
                    scanned(found, s, i as int, j as int),
                decreases stroke.len() - j,
            {
                let p = stroke[j];
                proof {
                    assert(s[i as int][j as int] == p);
                    lemma_widen_scanned(found, s, i as int, j as int);
                }
                found = Some(widen(found, p));
                j += 1;
            }
        }
        i += 1;
    }
    proof {
        match found {
            None => {
                assert forall|a: int, c: int| !drawn(s, a, c) by {
                    if drawn(s, a, c) {
                        assert(earlier(a, c, s.len() as int, 0));
                    }
                }
            },
            Some(b) => {
                assert(is_bounding_box(b, s));
                let (a, c) = choose|a: int, c: int| #[trigger] drawn(s, a, c) && s[a][c].x == b.min_x;
                assert(drawn(s, a, c));
            },
        }
    }
    found
}

} // verus!
