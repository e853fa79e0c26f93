use vstd::prelude::*;
use crate::point::{Point, Sample, sample_view};

verus! {

/// The strokes of a collector that holds nothing: one open, empty stroke.
pub open spec fn fresh() -> Seq<Seq<Point>> {
    seq![Seq::<Point>::empty()]
}

/// A pointer position `p` is new to the open stroke: the stroke is empty, or
/// its last point is another one.
pub open spec fn appends(s: Seq<Seq<Point>>, p: Point) -> bool {
    s.last().len() == 0 || s.last().last() != p
}

/// The strokes after a pointer position `p`: it joins the open stroke, which is
/// the last one, unless it repeats that stroke's last point.
pub open spec fn after_point(s: Seq<Seq<Point>>, p: Point) -> Seq<Seq<Point>> {
    if appends(s, p) {
        s.update(s.len() - 1, s.last().push(p))
    } else {
        s
    }
}

/// The strokes after the pointer is released: an open stroke that holds points
/// is sealed, and a new empty one follows it.
pub open spec fn after_release(s: Seq<Seq<Point>>) -> Seq<Seq<Point>> {
    if s.last().len() > 0 {
        s.push(Seq::<Point>::empty())
    } else {
        s
    }
}

/// Collects pointer positions into the strokes of one drawing. One stroke is
/// the open one, which takes the next position: it is the last one, and it
/// is empty while no drag is under way.
pub struct StrokeCollector {
    strokes: Sample,
    /// The index of the open stroke.
    open: usize,
}

impl View for StrokeCollector {
    type V = Seq<Seq<Point>>;

    closed spec fn view(&self) -> Seq<Seq<Point>> {
        sample_view(&self.strokes)
    }
}

impl StrokeCollector {
    /// The index of the open stroke.
    pub closed spec fn open_index(&self) -> int {
        self.open as int
    }

    /// There is an open stroke, and it is the last one.
    pub open spec fn wf(&self) -> bool {
        self@.len() >= 1 && self.open_index() == self@.len() - 1
    }

    /// A drag is under way: the open stroke holds a point.
    pub open spec fn dragging(&self) -> bool {
        self@[self.open_index()].len() > 0
    }

    /// A collector that holds one open, empty stroke.
    pub fn new() -> (c: StrokeCollector)
        ensures
            c.wf(),
            !c.dragging(),
            c@ == fresh(),
    {
        let mut strokes: Sample = Vec::new();
        strokes.push(Vec::new());
        let c = StrokeCollector { strokes, open: 0 };
        assert(c@ =~= fresh());
        c
    }

    /// Takes a pointer position during a drag, and says whether the open
    /// stroke grew by it. A position equal to the last one is dropped.
    pub fn begin_or_continue(&mut self, p: Point) -> (appended: bool)
        requires
            old(self).wf(),
        ensures
            final(self).wf(),
            final(self).dragging(),
            appended == appends(old(self)@, p),
            final(self)@ == after_point(old(self)@, p),
    {
        let open = &self.strokes[self.open];
        let appended = open.len() == 0 || open[open.len() - 1] != p;
        if appended {
            let mut open = self.strokes.pop().unwrap();
            open.push(p);
            self.strokes.push(open);
        }
        assert(self@ =~= after_point(old(self)@, p));
        appended
    }

    /// Ends the drag. An open stroke that holds points is kept as it is and an
    /// empty one is opened after it; an empty open stroke stays the open one.
    pub fn end_stroke(&mut self)
        requires
            old(self).wf(),
        ensures
            final(self).wf(),
            !final(self).dragging(),
            final(self)@ == after_release(old(self)@),
    {
        if self.strokes[self.open].len() > 0 {
            self.strokes.push(Vec::new());
            self.open = self.strokes.len() - 1;
        }
        assert(self@ =~= after_release(old(self)@));
    }

    /// Drops every stroke and leaves one open, empty stroke.
    pub fn clear(&mut self)
        ensures
            final(self).wf(),
            !final(self).dragging(),
            final(self)@ == fresh(),
            final(self)@.len() == 1 && final(self)@[0].len() == 0,
    {
        self.strokes.clear();
        self.strokes.push(Vec::new());
        self.open = 0;
        assert(self@ =~= fresh());
    }

    /// All strokes, the open one last. Strokes of fewer than two points are
    /// among them.
    pub fn snapshot(&self) -> (strokes: &Sample)
        ensures
            sample_view(strokes) == self@,
    {
        &self.strokes
    }

    /// Whether a drag is under way.
    pub fn is_dragging(&self) -> (d: bool)
        requires
            self.wf(),
        ensures
            d == self.dragging(),
    {
        self.strokes[self.open].len() > 0
    }
}

impl Default for StrokeCollector {
    fn default() -> (c: StrokeCollector)
        ensures
            c.wf(),
            c@ == fresh(),
    {
        StrokeCollector::new()
    }
}

/// A position given twice in a row is appended once: the second time the
/// strokes stay as they are.
pub proof fn lemma_repeated_point_appended_once(s: Seq<Seq<Point>>, p: Point)
    requires
        s.len() >= 1,
    ensures
        !appends(after_point(s, p), p),
        after_point(after_point(s, p), p) == after_point(s, p),
{
}

/// Releasing twice in a row is releasing once: the second release adds no
/// stroke.
pub proof fn lemma_release_twice(s: Seq<Seq<Point>>)
    requires
        s.len() >= 1,
    ensures
        after_release(after_release(s)) == after_release(s),
        after_release(after_release(s)).len() == after_release(s).len(),
{
}

/// A position or a release leaves every sealed stroke as it was, and takes
/// nothing from the open one.
pub proof fn lemma_strokes_only_grow(s: Seq<Seq<Point>>, p: Point)
    requires
        s.len() >= 1,
    ensures
        after_point(s, p).len() == s.len(),
        forall|i: int| 0 <= i < s.len() - 1 ==> after_point(s, p)[i] == s[i],
        s.last().is_prefix_of(after_point(s, p).last()),
        s.is_prefix_of(after_release(s)),
{
}

} // verus!
