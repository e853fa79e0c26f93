use vstd::prelude::*;
use crate::bounds::{
    Bounds, bounding_box, drawn, has_ink, is_bounding_box, lemma_bounding_box_holds_points,
    lemma_bounding_box_unique, lemma_bounding_box_valid,
};
use crate::canvas::{Canvas, canvas_get, canvas_new, canvas_pixels, canvas_put, grid};
use crate::point::{Point, Sample, sample_view};

verus! {

/// The dimensions of an image, in pixels.
#[derive(Clone, Copy, Debug, PartialEq, Eq, Structural)]
pub struct RasterSize {
    pub width: u32,
    pub height: u32,
}

impl RasterSize {
    /// Both dimensions are positive, and a buffer of three channels per pixel
    /// can be addressed.
    pub open spec fn valid(self) -> bool {
        &&& self.width >= 1
        &&& self.height >= 1
        &&& 3 * self.width * self.height <= usize::MAX
    }

    /// Position `(x, y)` is a pixel of an image of this size.
    pub open spec fn has(self, x: int, y: int) -> bool {
        0 <= x < self.width && 0 <= y < self.height
    }

    /// The size `width` by `height`, if it is valid.
    pub fn new(width: u32, height: u32) -> (r: Option<RasterSize>)
        ensures
            r == if (RasterSize { width, height }).valid() {
                Some(RasterSize { width, height })
            } else {
                None
            },
    {
        if width == 0 || height == 0 {
            return None;
        }
        assert(3 * width * height <= 3 * 0xffff_ffff * 0xffff_ffff) by (nonlinear_arith)
            requires
                width <= 0xffff_ffff,
                height <= 0xffff_ffff,
        ;
        let channels: u128 = 3 * (width as u128) * (height as u128);
        if channels <= usize::MAX as u128 {
            Some(RasterSize { width, height })
        } else {
            None
        }
    }
}

/// White, the colour of a stroke.
pub open spec fn foreground() -> (u8, u8, u8) {
    (255u8, 255u8, 255u8)
}

/// Black, the colour of an untouched pixel.
pub open spec fn background() -> (u8, u8, u8) {
    (0u8, 0u8, 0u8)
}

/// A grid of pixels, each black or white.
pub struct Image {
    width: u32,
    height: u32,
    canvas: Canvas,
}

impl Image {
    /// The number of pixel columns.
    pub closed spec fn spec_width(&self) -> u32 {
        self.width
    }

    /// The number of pixel rows.
    pub closed spec fn spec_height(&self) -> u32 {
        self.height
    }

    /// The channels of each pixel, by position.
    pub closed spec fn pixels(self) -> Map<(int, int), (u8, u8, u8)> {
        canvas_pixels(self.canvas)
    }

    /// The pixel at `(x, y)` is white.
    pub open spec fn lit(self, x: int, y: int) -> bool {
        self.pixels()[(x, y)] == foreground()
    }

    /// The image has a pixel at each position of its grid and nowhere else,
    /// and each is black or white. This holds of every image.
    #[verifier::type_invariant]
    pub open spec fn wf(self) -> bool {
        &&& self.pixels().dom() == grid(self.spec_width() as int, self.spec_height() as int)
        &&& forall|x: int, y: int|
            0 <= x < self.spec_width() && 0 <= y < self.spec_height() ==> {
                ||| #[trigger] self.pixels()[(x, y)] == foreground()
                ||| self.pixels()[(x, y)] == background()
            }
    }

    #[verifier::when_used_as_spec(spec_width)]
    pub fn width(&self) -> (w: u32)
        ensures
            w == self.spec_width(),
    {
        self.width
    }

    #[verifier::when_used_as_spec(spec_height)]
    pub fn height(&self) -> (h: u32)
        ensures
            h == self.spec_height(),
    {
        self.height
    }

    /// The channels (red, green, blue) of the pixel at `(x, y)`.
    pub fn rgb(&self, x: u32, y: u32) -> (c: (u8, u8, u8))
        requires
            x < self.spec_width(),
            y < self.spec_height(),
        ensures
            c == self.pixels()[(x as int, y as int)],
            c == if self.lit(x as int, y as int) { foreground() } else { background() },
    {
        proof {
            use_type_invariant(self);
        }
        assert(grid(self.width as int, self.height as int).contains((x as int, y as int)));
        canvas_get(&self.canvas, x, y)
    }

    /// Whether a stroke passed through the pixel at `(x, y)`.
    pub fn is_foreground(&self, x: u32, y: u32) -> (f: bool)
        requires
            x < self.spec_width(),
            y < self.spec_height(),
        ensures
            f == self.lit(x as int, y as int),
    {
        let c = self.rgb(x, y);
        c.0 == 255 && c.1 == 255 && c.2 == 255
    }
}

/// The number of steps taken along the segment from `a` to `c`: the larger
/// of its extents along the two axes, in surface units.
pub open spec fn step_count(a: Point, c: Point) -> int {
    let dx = if c.x >= a.x { c.x - a.x } else { a.x - c.x };
    let dy = if c.y >= a.y { c.y - a.y } else { a.y - c.y };
    if dx >= dy { dx } else { dy }
}

/// The pixel index, along an axis `extent` pixels long, of the fraction
/// `num / den` of that axis: `num * extent / den` rounded down, and kept
/// inside `0 .. extent`.
pub open spec fn axis_index(num: int, den: int, extent: int) -> int {
    if num <= 0 {
        0
    } else if (num * extent) / den >= extent {
        extent - 1
    } else {
        (num * extent) / den
    }
}

/// The pixel column of step `k` of the segment from `a` to `c`. The step
/// lies at `a.x + (c.x - a.x) * k / n`, where `n` is the step count; the box
/// maps `min_x` to the left edge and `max_x` to the right one.
pub open spec fn plot_x(b: Bounds, size: RasterSize, a: Point, c: Point, k: int) -> int {
    let n = step_count(a, c);
    axis_index((a.x - b.min_x) * n + (c.x - a.x) * k, n * (b.max_x - b.min_x), size.width as int)
}

/// The pixel row of step `k` of the segment from `a` to `c`.
pub open spec fn plot_y(b: Bounds, size: RasterSize, a: Point, c: Point, k: int) -> int {
    let n = step_count(a, c);
    axis_index((a.y - b.min_y) * n + (c.y - a.y) * k, n * (b.max_y - b.min_y), size.height as int)
}

/// The step count of a segment.
pub fn steps(a: Point, c: Point) -> (n: u32)
    ensures
        n == step_count(a, c),
{
    let ax: i64 = a.x as i64;
    let ay: i64 = a.y as i64;
    let cx: i64 = c.x as i64;
    let cy: i64 = c.y as i64;
    let dx: i64 = if cx >= ax { cx - ax } else { ax - cx };
    let dy: i64 = if cy >= ay { cy - ay } else { ay - cy };
    if dx >= dy { dx as u32 } else { dy as u32 }
}

/// `axis_index` on machine integers.
fn axis_pixel(num: i128, den: i128, extent: u32) -> (r: u32)
    requires
        num <= 0x2_0000_0000_0000_0000,
        den >= 1,
        extent >= 1,
    ensures
        r == axis_index(num as int, den as int, extent as int),
        r < extent,
{
    if num <= 0 {
        return 0;
    }
    assert(0 <= num * extent <= 0x2_0000_0000_0000_0000 * 0xffff_ffff) by (nonlinear_arith)
        requires
            0 < num <= 0x2_0000_0000_0000_0000,
            0 < extent <= 0xffff_ffff,
    ;
    let scaled: u128 = (num as u128) * (extent as u128);
    let q: u128 = scaled / (den as u128);
    if q >= extent as u128 {
        extent - 1
    } else {
        q as u32
    }
}

/// One axis of `plot`: the pixel index of step `k` of `n` between the
/// coordinates `from` and `to`, in a box from `min` to `max`.
fn axis_plot(min: i64, max: i64, from: i32, to: i32, n: u32, k: u32, extent: u32) -> (r: u32)
    requires
        i32::MIN <= min < max <= i32::MAX + 1,
        k < n,
        extent >= 1,
    ensures
        r == axis_index((from - min) * n + (to - from) * k, n * (max - min), extent as int),
        r < extent,
{
    let offset: i128 = from as i128 - min as i128;
    let delta: i128 = to as i128 - from as i128;
    let span: i128 = max as i128 - min as i128;
    assert(-0x1_0000_0000_0000_0000 <= offset * n <= 0x1_0000_0000_0000_0000) by (nonlinear_arith)
        requires
            -0x1_0000_0000 <= offset <= 0x1_0000_0000,
            0 <= n <= 0x1_0000_0000,
    ;
    assert(-0x1_0000_0000_0000_0000 <= delta * k <= 0x1_0000_0000_0000_0000) by (nonlinear_arith)
        requires
            -0x1_0000_0000 <= delta <= 0x1_0000_0000,
            0 <= k <= 0x1_0000_0000,
    ;
    assert(1 <= n * span <= 0x1_0000_0000_0000_0000) by (nonlinear_arith)
        requires
            1 <= span <= 0x1_0000_0000,
            1 <= n <= 0x1_0000_0000,
    ;
    let num: i128 = offset * (n as i128) + delta * (k as i128);
    let den: i128 = (n as i128) * span;
    axis_pixel(num, den, extent)
}

/// The pixel that step `k` of the segment from `a` to `c` falls on, in an
/// image of the given size that shows the box `b`. It is a pixel of the image
/// wherever the points lie.
pub fn plot(b: Bounds, size: RasterSize, a: Point, c: Point, k: u32) -> (p: (u32, u32))
    requires
        b.valid(),
        size.width >= 1,
        size.height >= 1,
        k < step_count(a, c),
    ensures
        p.0 == plot_x(b, size, a, c, k as int),
        p.1 == plot_y(b, size, a, c, k as int),
        size.has(p.0 as int, p.1 as int),
{
    let n = steps(a, c);
    let x = axis_plot(b.min_x, b.max_x, a.x, c.x, n, k, size.width);
    let y = axis_plot(b.min_y, b.max_y, a.y, c.y, n, k, size.height);
    (x, y)
}

/// An axis index is an index of the axis, whatever the fraction.
pub proof fn lemma_axis_index_in_range(num: int, den: int, extent: int)
    requires
        den >= 1,
        extent >= 1,
    ensures
        0 <= axis_index(num, den, extent) < extent,
{
    if num > 0 {
        assert(num * extent >= 0) by (nonlinear_arith)
            requires
                num > 0,
                extent >= 1,
        ;
        assert((num * extent) / den >= 0) by (nonlinear_arith)
            requires
                num * extent >= 0,
                den >= 1,
        ;
    }
}

/// Between two coordinates inside `min .. max`, step `k` of `n` lies inside
/// too: its fraction of the axis is at least 0 and less than 1, and its pixel
/// index is that fraction of `extent` rounded down, with nothing cut off.
pub proof fn lemma_axis_step_inside(
    min: int,
    max: int,
    from: int,
    to: int,
    n: int,
    k: int,
    extent: int,
)
    requires
        min <= from < max,
        min <= to < max,
        0 <= k < n,
        extent >= 1,
    ensures
        ({
            let num = (from - min) * n + (to - from) * k;
            let den = n * (max - min);
            &&& 0 <= num < den
            &&& axis_index(num, den, extent) == (num * extent) / den
        }),
{
    let num = (from - min) * n + (to - from) * k;
    let den = n * (max - min);
    assert(0 <= num < den) by (nonlinear_arith)
        requires
            num == (from - min) * n + (to - from) * k,
            den == n * (max - min),
            min <= from < max,
            min <= to < max,
            0 <= k < n,
    {
        assert(num == (from - min) * (n - k) + (to - min) * k);
        assert((from - min) * (n - k) <= (max - min - 1) * (n - k));
        assert((to - min) * k <= (max - min - 1) * k);
        assert((max - min - 1) * (n - k) + (max - min - 1) * k == (max - min - 1) * n);
    }
    assert(0 <= num * extent < den * extent) by (nonlinear_arith)
        requires
            0 <= num < den,
            extent >= 1,
    ;
    assert(0 <= (num * extent) / den < extent) by (nonlinear_arith)
        requires
            0 <= num * extent < den * extent,
            den >= 1,
            extent >= 1,
    ;
    if num == 0 {
        assert((num * extent) / den == 0) by (nonlinear_arith)
            requires
                num == 0,
                den >= 1,
        ;
    }
}

/// Every step of a segment falls on a pixel of the image, wherever the
/// segment lies.
pub proof fn lemma_plot_on_grid(b: Bounds, size: RasterSize, a: Point, c: Point, k: int)
    requires
        b.valid(),
        size.width >= 1,
        size.height >= 1,
        0 <= k < step_count(a, c),
    ensures
        size.has(plot_x(b, size, a, c, k), plot_y(b, size, a, c, k)),
{
    let n = step_count(a, c);
    assert(n * (b.max_x - b.min_x) >= 1 && n * (b.max_y - b.min_y) >= 1) by (nonlinear_arith)
        requires
            n >= 1,
            b.max_x - b.min_x >= 1,
            b.max_y - b.min_y >= 1,
    ;
    lemma_axis_index_in_range(
        (a.x - b.min_x) * n + (c.x - a.x) * k,
        n * (b.max_x - b.min_x),
        size.width as int,
    );
    lemma_axis_index_in_range(
        (a.y - b.min_y) * n + (c.y - a.y) * k,
        n * (b.max_y - b.min_y),
        size.height as int,
    );
}

/// Where the box holds both ends of a segment, it holds every step of it:
/// the step's pixel is its place in the box scaled to the image and rounded
/// down, with nothing cut off.
pub proof fn lemma_plot_inside_box(b: Bounds, size: RasterSize, a: Point, c: Point, k: int)
    requires
        b.holds(a),
        b.holds(c),
        size.width >= 1,
        size.height >= 1,
        0 <= k < step_count(a, c),
    ensures
        ({
            let n = step_count(a, c);
            let num_x = (a.x - b.min_x) * n + (c.x - a.x) * k;
            let num_y = (a.y - b.min_y) * n + (c.y - a.y) * k;
            &&& 0 <= num_x < n * (b.max_x - b.min_x)
            &&& 0 <= num_y < n * (b.max_y - b.min_y)
            &&& plot_x(b, size, a, c, k) == (num_x * size.width) / (n * (b.max_x - b.min_x))
            &&& plot_y(b, size, a, c, k) == (num_y * size.height) / (n * (b.max_y - b.min_y))
        }),
{
    let n = step_count(a, c);
    lemma_axis_step_inside(b.min_x as int, b.max_x as int, a.x as int, c.x as int, n, k, size.width as int);
    lemma_axis_step_inside(b.min_y as int, b.max_y as int, a.y as int, c.y as int, n, k, size.height as int);
}

/// Step `k` of segment `j` of stroke `i` exists and falls on pixel `(x, y)`.
pub open spec fn hit(
    s: Seq<Seq<Point>>,
    b: Bounds,
    size: RasterSize,
    i: int,
    j: int,
    k: int,
    x: int,
    y: int,
) -> bool {
    &&& 0 <= i < s.len()
    &&& 0 <= j && j + 1 < s[i].len()
    &&& 0 <= k < step_count(s[i][j], s[i][j + 1])
    &&& plot_x(b, size, s[i][j], s[i][j + 1], k) == x
    &&& plot_y(b, size, s[i][j], s[i][j + 1], k) == y
}

/// Some step of some segment of the drawing falls on pixel `(x, y)`.
pub open spec fn inked(s: Seq<Seq<Point>>, b: Bounds, size: RasterSize, x: int, y: int) -> bool {
    exists|i: int, j: int, k: int| hit(s, b, size, i, j, k, x, y)
}

/// The drawing of a sample on an image of the given size lights pixel
/// `(x, y)`: the sample has a bounding box, and some step of a segment,
/// scaled by that box, falls on the pixel.
pub open spec fn drawing_lights(s: Seq<Seq<Point>>, size: RasterSize, x: int, y: int) -> bool {
    exists|b: Bounds| is_bounding_box(b, s) && #[trigger] inked(s, b, size, x, y)
}

/// The drawing is made with the one bounding box that the sample has.
pub proof fn lemma_drawing_uses_the_box(
    s: Seq<Seq<Point>>,
    b: Bounds,
    size: RasterSize,
    x: int,
    y: int,
)
    requires
        is_bounding_box(b, s),
    ensures
        drawing_lights(s, size, x, y) <==> inked(s, b, size, x, y),
{
    if drawing_lights(s, size, x, y) {
        let b2 = choose|b2: Bounds| is_bounding_box(b2, s) && #[trigger] inked(s, b2, size, x, y);
        lemma_bounding_box_unique(s, b, b2);
    }
}

/// A sample without a stroke of two points lights no pixel.
pub proof fn lemma_no_ink_lights_nothing(s: Seq<Seq<Point>>, size: RasterSize, x: int, y: int)
    requires
        !has_ink(s),
    ensures
        !drawing_lights(s, size, x, y),
{
    if drawing_lights(s, size, x, y) {
        let b = choose|b: Bounds| is_bounding_box(b, s) && #[trigger] inked(s, b, size, x, y);
        let (i, j) = choose|i: int, j: int| #[trigger] drawn(s, i, j) && s[i][j].x == b.min_x;
        assert(drawn(s, i, j));
    }
}

/// Every step of every segment of a drawing lies inside the drawing's
/// bounding box, and falls on a pixel of the image: its place in the box,
/// scaled to the image and rounded down.
pub proof fn lemma_steps_fall_on_the_image(
    s: Seq<Seq<Point>>,
    b: Bounds,
    size: RasterSize,
    i: int,
    j: int,
    k: int,
)
    requires
        is_bounding_box(b, s),
        size.width >= 1,
        size.height >= 1,
        0 <= i < s.len(),
        0 <= j,
        j + 1 < s[i].len(),
        0 <= k < step_count(s[i][j], s[i][j + 1]),
    ensures
        b.holds(s[i][j]),
        b.holds(s[i][j + 1]),
        size.has(plot_x(b, size, s[i][j], s[i][j + 1], k), plot_y(b, size, s[i][j], s[i][j + 1], k)),
        ({
            let a = s[i][j];
            let c = s[i][j + 1];
            let n = step_count(a, c);
            let num_x = (a.x - b.min_x) * n + (c.x - a.x) * k;
            let num_y = (a.y - b.min_y) * n + (c.y - a.y) * k;
            &&& 0 <= num_x < n * (b.max_x - b.min_x)
            &&& 0 <= num_y < n * (b.max_y - b.min_y)
            &&& plot_x(b, size, a, c, k) == (num_x * size.width) / (n * (b.max_x - b.min_x))
            &&& plot_y(b, size, a, c, k) == (num_y * size.height) / (n * (b.max_y - b.min_y))
        }),
{
    lemma_bounding_box_holds_points(s, b, i, j);
    lemma_bounding_box_holds_points(s, b, i, j + 1);
    lemma_bounding_box_valid(s, b);
    lemma_plot_on_grid(b, size, s[i][j], s[i][j + 1], k);
    lemma_plot_inside_box(b, size, s[i][j], s[i][j + 1], k);
}

/// Step `(i, j, k)` comes before step `(ui, uj, uk)` in drawing order.
spec fn sooner(i: int, j: int, k: int, ui: int, uj: int, uk: int) -> bool {
    i < ui || (i == ui && (j < uj || (j == uj && k < uk)))
}

/// The canvas shows the steps before `(ui, uj, uk)`, white on black.
spec fn shows_prefix(
    canvas: Canvas,
    s: Seq<Seq<Point>>,
    b: Bounds,
    size: RasterSize,
    ui: int,
    uj: int,
    uk: int,
) -> bool {
    &&& canvas_pixels(canvas).dom() == grid(size.width as int, size.height as int)
    &&& forall|x: int, y: int| #[trigger]
        size.has(x, y) ==> canvas_pixels(canvas)[(x, y)] == if exists|i: int, j: int, k: int|
            #[trigger] hit(s, b, size, i, j, k, x, y) && sooner(i, j, k, ui, uj, uk) {
            foreground()
        } else {
            background()
        }
}

/// Turns the strokes of a sample into an image.
pub struct Rasterizer;

impl Rasterizer {
    /// Draws the strokes of `sample`, white on black, on an image of the given
    /// size. The drawing's bounding box fills the image; each segment is walked
    /// in steps of one surface unit of its larger extent, and each step lights
    /// the pixel it falls on. A sample without a stroke of two points gives a black
    /// image.
    pub fn rasterize(sample: &Sample, size: RasterSize) -> (img: Image)
        requires
            size.valid(),
        ensures
            img.wf(),
            img.spec_width() == size.width,
            img.spec_height() == size.height,
            forall|x: int, y: int|
                size.has(x, y) ==> (#[trigger] img.lit(x, y) <==> drawing_lights(
                    sample_view(sample),
                    size,
                    x,
                    y,
                )),
            !has_ink(sample_view(sample)) ==> forall|x: int, y: int|
                size.has(x, y) ==> !#[trigger] img.lit(x, y),
    {
        let ghost s = sample_view(sample);
        assert(3 * size.width <= 3 * size.width * size.height) by (nonlinear_arith)
            requires
                size.height >= 1,
        ;
        let mut canvas = canvas_new(size.width, size.height);
        match bounding_box(sample) {
            None => {
                assert forall|x: int, y: int| size.has(x, y) implies canvas_pixels(canvas)[(x, y)]
                    == background() && !drawing_lights(s, size, x, y) by {
                    assert(grid(size.width as int, size.height as int).contains((x, y)));
                    lemma_no_ink_lights_nothing(s, size, x, y);
                }
                proof {
                    assert forall|x: int, y: int| 0 <= x < size.width && 0 <= y < size.height implies {
                        ||| #[trigger] canvas_pixels(canvas)[(x, y)] == foreground()
                        ||| canvas_pixels(canvas)[(x, y)] == background()
                    } by {
                        assert(size.has(x, y));
                    }
                }
                Image { width: size.width, height: size.height, canvas }
            },
            Some(b) => {
                assert forall|x: int, y: int| size.has(x, y) implies canvas_pixels(canvas)[(x, y)]
                    == background() by {
                    assert(grid(size.width as int, size.height as int).contains((x, y)));
                }
                let mut i: usize = 0;
                while i < sample.len()
                    invariant
                        i <= sample.len(),
                        s == sample_view(sample),
                        b.valid(),
                        size.valid(),
                        shows_prefix(canvas, s, b, size, i as int, 0, 0),
                    decreases sample.len() - i,
                {
                    let stroke = &sample[i];
                    assert(stroke@ == s[i as int]);
                    if stroke.len() >= 2 {
                        let mut j: usize = 0;
                        while j < stroke.len() - 1
                            invariant
                                i < sample.len(),
                                stroke.len() >= 2,
                                j <= stroke.len() - 1,
                                stroke@ == s[i as int],
                                s == sample_view(sample),
                                b.valid(),
                                size.valid(),
                                shows_prefix(canvas, s, b, size, i as int, j as int, 0),
                            decreases stroke.len() - j,
                        {
                            let a = stroke[j];
                            let c = stroke[j + 1];
                            let n = steps(a, c);
                            let mut k: u32 = 0;
                            while k < n
                                invariant
                                    i < sample.len(),
                                    j < stroke.len() - 1,
                                    k <= n,
                                    n == step_count(a, c),
                                    a == s[i as int][j as int],
                                    c == s[i as int][j + 1],
                                    stroke@ == s[i as int],
                                    s == sample_view(sample),
                                    b.valid(),
                                    size.valid(),
                                    shows_prefix(canvas, s, b, size, i as int, j as int, k as int),
                                decreases n - k,
                            {
                                let p = plot(b, size, a, c, k);
                                let ghost before = canvas;
                                assert(grid(size.width as int, size.height as int).contains(
                                    (p.0 as int, p.1 as int),
                                ));
                                canvas_put(&mut canvas, p.0, p.1, 255, 255, 255);
                                proof {
                                    assert(hit(s, b, size, i as int, j as int, k as int, p.0 as int, p.1 as int));
                                    assert(canvas_pixels(canvas).dom() =~= canvas_pixels(before).dom());
                                }
                                k += 1;
                            }
                            j += 1;
                        }
                    }
                    i += 1;
                }
                proof {
                    assert forall|x: int, y: int| size.has(x, y) implies (canvas_pixels(canvas)[(x, y)]
                        == foreground() <==> drawing_lights(s, size, x, y)) by {
                        lemma_drawing_uses_the_box(s, b, size, x, y);
                    }
                }
                proof {
                    assert forall|x: int, y: int| 0 <= x < size.width && 0 <= y < size.height implies {
                        ||| #[trigger] canvas_pixels(canvas)[(x, y)] == foreground()
                        ||| canvas_pixels(canvas)[(x, y)] == background()
                    } by {
                        assert(size.has(x, y));
                    }
                }
                Image { width: size.width, height: size.height, canvas }
            },
        }
    }
}

} // verus!
