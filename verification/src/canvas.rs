use vstd::prelude::*;

verus! {

/// An RGB pixel buffer of the `image` crate (`image::RgbImage`). Its contents
/// are hidden from the verifier and spoken of through [`canvas_pixels`].
#[verifier::external_body]
pub struct Canvas {
    buf: image::RgbImage,
}

/// What a canvas holds: the channels of the pixel at each position
/// `(x, y)` inside it. The positions of the map are exactly those of the buffer.
pub uninterp spec fn canvas_pixels(canvas: Canvas) -> Map<(int, int), (u8, u8, u8)>;

/// The positions of a grid `width` wide and `height` high.
pub open spec fn grid(width: int, height: int) -> Set<(int, int)> {
    Set::new(|p: (int, int)| 0 <= p.0 < width && 0 <= p.1 < height)
}

/// Calls `image::ImageBuffer::new`. The buffer it returns has the given
/// dimensions and every channel zero. The call works out the buffer's length
/// as three times `width`, and that times `height`, and panics when either
/// product does not fit a `usize`; `requires` leaves both out.
#[verifier::external_body]
pub(crate) fn canvas_new(width: u32, height: u32) -> (img: Canvas)
    requires
        3 * width <= usize::MAX,
        3 * width * height <= usize::MAX,
    ensures
        canvas_pixels(img).dom() == grid(width as int, height as int),
        forall|p: (int, int)| #[trigger] canvas_pixels(img).dom().contains(p)
            ==> canvas_pixels(img)[p] == (0u8, 0u8, 0u8),
{
    Canvas { buf: image::RgbImage::new(width, height) }
}

/// Calls `image::ImageBuffer::put_pixel`, which overwrites the pixel at
/// `(x, y)` and leaves the others; it panics outside the buffer, which
/// `requires` leaves out.
#[verifier::external_body]
pub(crate) fn canvas_put(img: &mut Canvas, x: u32, y: u32, r: u8, g: u8, b: u8)
    requires
        canvas_pixels(*old(img)).dom().contains((x as int, y as int)),
    ensures
        canvas_pixels(*final(img)) == canvas_pixels(*old(img)).insert((x as int, y as int), (r, g, b)),
{
    img.buf.put_pixel(x, y, image::Rgb([r, g, b]));
}

/// Calls `image::ImageBuffer::get_pixel`, which reads the pixel at `(x, y)`;
/// it panics outside the buffer, which `requires` leaves out.
#[verifier::external_body]
pub(crate) fn canvas_get(img: &Canvas, x: u32, y: u32) -> (rgb: (u8, u8, u8))
    requires
        canvas_pixels(*img).dom().contains((x as int, y as int)),
    ensures
        rgb == canvas_pixels(*img)[(x as int, y as int)],
{
    let px = img.buf.get_pixel(x, y);
    (px.0[0], px.0[1], px.0[2])
}

} // verus!
