use gesture_raster::bounds::{bounding_box, Bounds};
use gesture_raster::collector::StrokeCollector;
use gesture_raster::point::{Point, Sample};
use gesture_raster::raster::{plot, steps, Image, RasterSize, Rasterizer};

fn stroke(raw: &[(i32, i32)]) -> Vec<Point> {
    raw.iter().map(|&(x, y)| Point::new(x, y)).collect()
}

fn lit_pixels(img: &Image) -> Vec<(u32, u32)> {
    let mut lit = Vec::new();
    for y in 0..img.height() {
        for x in 0..img.width() {
            if img.is_foreground(x, y) {
                lit.push((x, y));
            }
        }
    }
    lit
}

fn size(w: u32, h: u32) -> RasterSize {
    RasterSize::new(w, h).unwrap()
}

#[test]
fn raster_size_needs_positive_dimensions() {
    assert_eq!(RasterSize::new(0, 5), None);
    assert_eq!(RasterSize::new(5, 0), None);
    assert_eq!(RasterSize::new(0, 0), None);
    assert_eq!(RasterSize::new(1, 1), Some(RasterSize { width: 1, height: 1 }));
    assert_eq!(RasterSize::new(32, 256), Some(RasterSize { width: 32, height: 256 }));
}

#[test]
fn raster_size_must_be_addressable() {
    let three_channels_fit = 3u128 * (u32::MAX as u128) * (u32::MAX as u128) <= usize::MAX as u128;
    assert_eq!(RasterSize::new(u32::MAX, u32::MAX).is_some(), three_channels_fit);
}

#[test]
fn bounding_box_of_nothing_is_none() {
    let empty: Sample = vec![];
    assert_eq!(bounding_box(&empty), None);
    assert_eq!(bounding_box(&vec![vec![], stroke(&[(3, 3)]), vec![]]), None);
}

#[test]
fn bounding_box_adds_one_to_the_maximum() {
    let sample = vec![stroke(&[(0, 0), (10, 0)])];
    assert_eq!(bounding_box(&sample), Some(Bounds { min_x: 0, min_y: 0, max_x: 11, max_y: 1 }));
}

#[test]
fn bounding_box_skips_short_strokes() {
    let sample = vec![stroke(&[(-100, 900)]), stroke(&[(4, -7), (2, 5), (9, 1)]), stroke(&[(-3, 2), (0, 0)])];
    assert_eq!(bounding_box(&sample), Some(Bounds { min_x: -3, min_y: -7, max_x: 10, max_y: 6 }));
}

#[test]
fn bounding_box_holds_every_drawn_point() {
    let sample = vec![stroke(&[(4, -7), (2, 5), (9, 1)]), stroke(&[(-3, 2), (0, 0)])];
    let b = bounding_box(&sample).unwrap();
    for s in &sample {
        for p in s {
            assert!(b.min_x <= p.x as i64 && (p.x as i64) < b.max_x);
            assert!(b.min_y <= p.y as i64 && (p.y as i64) < b.max_y);
        }
    }
}

#[test]
fn bounding_box_at_the_coordinate_limits() {
    let sample = vec![stroke(&[(i32::MIN, i32::MAX), (i32::MAX, i32::MIN)])];
    assert_eq!(
        bounding_box(&sample),
        Some(Bounds {
            min_x: i32::MIN as i64,
            min_y: i32::MIN as i64,
            max_x: i32::MAX as i64 + 1,
            max_y: i32::MAX as i64 + 1,
        })
    );
}

#[test]
fn steps_is_the_larger_extent() {
    assert_eq!(steps(Point::new(0, 0), Point::new(10, 0)), 10);
    assert_eq!(steps(Point::new(1, 1), Point::new(5, 5)), 4);
    assert_eq!(steps(Point::new(3, -2), Point::new(1, 7)), 9);
    assert_eq!(steps(Point::new(3, 3), Point::new(3, 3)), 0);
    assert_eq!(steps(Point::new(i32::MIN, 0), Point::new(i32::MAX, 0)), u32::MAX);
}

#[test]
fn plot_scales_and_rounds_down() {
    let b = Bounds { min_x: 0, min_y: 0, max_x: 11, max_y: 1 };
    let s = size(10, 10);
    let a = Point::new(0, 0);
    let c = Point::new(10, 0);
    assert_eq!(plot(b, s, a, c, 0), (0, 0));
    assert_eq!(plot(b, s, a, c, 1), (0, 0));
    assert_eq!(plot(b, s, a, c, 2), (1, 0));
    assert_eq!(plot(b, s, a, c, 6), (5, 0));
    assert_eq!(plot(b, s, a, c, 9), (8, 0));
}

#[test]
fn plot_interpolates_between_the_ends() {
    let b = Bounds { min_x: 0, min_y: 0, max_x: 8, max_y: 8 };
    let s = size(16, 8);
    let a = Point::new(1, 7);
    let c = Point::new(3, 1);
    // six steps; sample 3 lies at (2, 4)
    assert_eq!(plot(b, s, a, c, 3), (4, 4));
    // sample 1 lies at (1 + 1/3, 6): column floor(16 * 4 / 24) = 2
    assert_eq!(plot(b, s, a, c, 1), (2, 6));
}

#[test]
fn plot_keeps_outside_points_on_the_grid() {
    let b = Bounds { min_x: 0, min_y: 0, max_x: 4, max_y: 4 };
    let s = size(4, 4);
    assert_eq!(plot(b, s, Point::new(100, -100), Point::new(104, -100), 0), (3, 0));
    assert_eq!(plot(b, s, Point::new(-50, 50), Point::new(-50, 60), 2), (0, 3));
    assert_eq!(plot(b, s, Point::new(4, 4), Point::new(5, 4), 0), (3, 3));
}

#[test]
fn plot_at_the_coordinate_limits() {
    let b = Bounds {
        min_x: i32::MIN as i64,
        min_y: i32::MIN as i64,
        max_x: i32::MAX as i64 + 1,
        max_y: i32::MAX as i64 + 1,
    };
    let s = size(u32::MAX, 1);
    let a = Point::new(i32::MIN, i32::MIN);
    let c = Point::new(i32::MAX, i32::MAX);
    assert_eq!(plot(b, s, a, c, 0), (0, 0));
    let p = plot(b, s, a, c, u32::MAX - 1);
    assert!(p.0 < u32::MAX);
    assert_eq!(p.1, 0);
    assert_eq!(p.0, ((u32::MAX as u128 - 1) * (u32::MAX as u128) / (1u128 << 32)) as u32);
}

#[test]
fn horizontal_stroke_fills_one_row() {
    let sample = vec![stroke(&[(0, 0), (10, 0)])];
    let img = Rasterizer::rasterize(&sample, size(10, 10));
    assert_eq!(img.width(), 10);
    assert_eq!(img.height(), 10);
    let expected: Vec<(u32, u32)> = (0..9).map(|x| (x, 0)).collect();
    assert_eq!(lit_pixels(&img), expected);
}

#[test]
fn empty_sample_is_all_background() {
    let empty: Sample = vec![];
    for (w, h) in [(1, 1), (4, 4), (7, 3), (32, 32), (1, 256)] {
        let img = Rasterizer::rasterize(&empty, size(w, h));
        assert_eq!(img.width(), w);
        assert_eq!(img.height(), h);
        assert!(lit_pixels(&img).is_empty());
        for y in 0..h {
            for x in 0..w {
                assert_eq!(img.rgb(x, y), (0, 0, 0));
            }
        }
    }
}

#[test]
fn short_strokes_draw_nothing() {
    let sample = vec![vec![], stroke(&[(5, 5)]), stroke(&[(9, 2)])];
    let img = Rasterizer::rasterize(&sample, size(8, 8));
    assert!(lit_pixels(&img).is_empty());
}

#[test]
fn collected_diagonal_round_trip() {
    let mut c = StrokeCollector::new();
    assert!(c.begin_or_continue(Point::new(1, 1)));
    assert!(!c.begin_or_continue(Point::new(1, 1)));
    assert!(c.begin_or_continue(Point::new(5, 5)));
    c.end_stroke();
    assert_eq!(c.snapshot(), &vec![stroke(&[(1, 1), (5, 5)]), vec![]]);
    let img = Rasterizer::rasterize(c.snapshot(), size(4, 4));
    assert_eq!(lit_pixels(&img), vec![(0, 0), (1, 1), (2, 2)]);
}

#[test]
fn lit_pixels_are_white_and_the_rest_black() {
    let sample = vec![stroke(&[(1, 1), (5, 5)])];
    let img = Rasterizer::rasterize(&sample, size(4, 4));
    for y in 0..4 {
        for x in 0..4 {
            let on_diagonal = x == y && x < 3;
            assert_eq!(img.is_foreground(x, y), on_diagonal);
            assert_eq!(img.rgb(x, y), if on_diagonal { (255, 255, 255) } else { (0, 0, 0) });
        }
    }
}

#[test]
fn vertical_stroke_has_unit_width_box() {
    let sample = vec![stroke(&[(5, 0), (5, 3)])];
    assert_eq!(bounding_box(&sample), Some(Bounds { min_x: 5, min_y: 0, max_x: 6, max_y: 4 }));
    let img = Rasterizer::rasterize(&sample, size(4, 4));
    assert_eq!(lit_pixels(&img), vec![(0, 0), (0, 1), (0, 2)]);
}

#[test]
fn repeated_point_stroke_draws_nothing() {
    let sample = vec![stroke(&[(2, 2), (2, 2)])];
    assert_eq!(bounding_box(&sample), Some(Bounds { min_x: 2, min_y: 2, max_x: 3, max_y: 3 }));
    let img = Rasterizer::rasterize(&sample, size(5, 5));
    assert!(lit_pixels(&img).is_empty());
}

#[test]
fn last_point_of_a_stroke_is_not_sampled() {
    let sample = vec![stroke(&[(0, 0), (3, 0)]), stroke(&[(0, 3), (0, 0)])];
    let img = Rasterizer::rasterize(&sample, size(4, 4));
    // box 0..4 on both axes maps each unit to one pixel
    assert_eq!(lit_pixels(&img), vec![(0, 0), (1, 0), (2, 0), (0, 1), (0, 2), (0, 3)]);
}

#[test]
fn strokes_share_one_box() {
    let sample = vec![stroke(&[(0, 0), (2, 0)]), stroke(&[(6, 7), (8, 7)])];
    let img = Rasterizer::rasterize(&sample, size(9, 8));
    // box 0..9 by 0..8
    assert_eq!(lit_pixels(&img), vec![(0, 0), (1, 0), (6, 7), (7, 7)]);
}

#[test]
fn drawing_is_scaled_up_to_a_larger_image() {
    let sample = vec![stroke(&[(0, 0), (1, 1)])];
    let img = Rasterizer::rasterize(&sample, size(8, 8));
    // one step only: the first point, in the top left corner
    assert_eq!(lit_pixels(&img), vec![(0, 0)]);
    let sample = vec![stroke(&[(0, 0), (3, 3)])];
    let img = Rasterizer::rasterize(&sample, size(8, 8));
    assert_eq!(lit_pixels(&img), vec![(0, 0), (2, 2), (4, 4)]);
}

#[test]
fn every_pixel_index_is_on_the_image() {
    let sample = vec![stroke(&[(-40, 13), (25, -8), (0, 0), (25, 13)])];
    let b = bounding_box(&sample).unwrap();
    let s = size(3, 5);
    for pair in sample[0].windows(2) {
        for k in 0..steps(pair[0], pair[1]) {
            let (x, y) = plot(b, s, pair[0], pair[1], k);
            assert!(x < 3 && y < 5);
        }
    }
}
