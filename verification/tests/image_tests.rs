use rasterizer::color::Color;
use rasterizer::image::Image;

fn count_pixels_with(img: &Image, w: usize, h: usize, c: Color) -> usize {
    let mut n = 0;
    for y in 0..h {
        for x in 0..w {
            if img.get_pixel(x, y) == c {
                n += 1;
            }
        }
    }
    n
}

#[test]
fn new_image_is_black() {
    let img = Image::new(4, 3);
    assert_eq!(img.w(), 4);
    assert_eq!(img.h(), 3);
    for y in 0..3 {
        for x in 0..4 {
            assert_eq!(img.get_pixel(x, y), Color::new(0, 0, 0));
        }
    }
}

#[test]
fn draw_point_sets_single_pixel() {
    let mut img = Image::new(4, 4);
    let c = Color::new(10, 20, 30);
    img.draw_point(2, 1, &c);
    assert_eq!(img.get_pixel(2, 1), c);
    assert_eq!(count_pixels_with(&img, 4, 4, c), 1);
}

#[test]
fn draw_point_outside_leaves_framebuffer_unchanged() {
    let mut img = Image::new(4, 4);
    let c = Color::new(10, 20, 30);
    img.draw_point(-1, 2, &c);
    img.draw_point(2, -1, &c);
    img.draw_point(4, 2, &c);
    img.draw_point(2, 4, &c);
    img.draw_point(i32::MIN, i32::MAX, &c);
    for y in 0..4 {
        for x in 0..4 {
            assert_eq!(img.get_pixel(x, y), Color::new(0, 0, 0));
        }
    }
}

#[test]
fn draw_line_horizontal_sets_exactly_six_pixels() {
    let mut img = Image::new(8, 8);
    let c = Color::new(255, 255, 255);
    img.draw_line(0, 0, 5, 0, &c);
    for x in 0..6 {
        assert_eq!(img.get_pixel(x, 0), c);
    }
    assert_eq!(count_pixels_with(&img, 8, 8, c), 6);
}

#[test]
fn draw_line_diagonal() {
    let mut img = Image::new(8, 8);
    let c = Color::new(1, 2, 3);
    img.draw_line(0, 0, 3, 3, &c);
    for k in 0..4 {
        assert_eq!(img.get_pixel(k, k), c);
    }
    assert_eq!(count_pixels_with(&img, 8, 8, c), 4);
}

#[test]
fn draw_line_steep_visits_one_point_per_row() {
    let mut img = Image::new(8, 8);
    let c = Color::new(9, 9, 9);
    img.draw_line(0, 0, 1, 4, &c);
    assert_eq!(img.get_pixel(0, 0), c);
    assert_eq!(img.get_pixel(0, 1), c);
    assert_eq!(img.get_pixel(0, 2), c);
    assert_eq!(img.get_pixel(1, 3), c);
    assert_eq!(img.get_pixel(1, 4), c);
    assert_eq!(count_pixels_with(&img, 8, 8, c), 5);
}

#[test]
fn draw_line_reversed_endpoints_same_pixel_count() {
    let c = Color::new(7, 7, 7);
    let mut img = Image::new(8, 8);
    img.draw_line(5, 0, 0, 0, &c);
    for x in 0..6 {
        assert_eq!(img.get_pixel(x, 0), c);
    }
    assert_eq!(count_pixels_with(&img, 8, 8, c), 6);
}

#[test]
fn draw_line_single_point() {
    let mut img = Image::new(4, 4);
    let c = Color::new(5, 5, 5);
    img.draw_line(2, 2, 2, 2, &c);
    assert_eq!(img.get_pixel(2, 2), c);
    assert_eq!(count_pixels_with(&img, 4, 4, c), 1);
}

#[test]
fn draw_line_is_clipped_to_the_grid() {
    let mut img = Image::new(3, 3);
    let c = Color::new(4, 4, 4);
    img.draw_line(-2, 0, 2, 0, &c);
    assert_eq!(img.get_pixel(0, 0), c);
    assert_eq!(img.get_pixel(1, 0), c);
    assert_eq!(img.get_pixel(2, 0), c);
    assert_eq!(count_pixels_with(&img, 3, 3, c), 3);
}

#[test]
fn inside_triangle_strictly_inside_and_outside() {
    assert!(Image::is_inside_triangle(2, 2, 0, 0, 10, 0, 0, 10));
    assert!(!Image::is_inside_triangle(20, 20, 0, 0, 10, 0, 0, 10));
}

#[test]
fn inside_triangle_edge_point_fails_sign_test() {
    // A point on an edge has one zero area against two non-zero ones; the
    // fill leaves it to the outline pass.
    assert!(!Image::is_inside_triangle(5, 0, 0, 0, 10, 0, 0, 10));
}

#[test]
fn inside_triangle_degenerate_all_zero_counts_as_inside() {
    assert!(Image::is_inside_triangle(3, 3, 3, 3, 3, 3, 3, 3));
}

#[test]
fn fill_triangle_fills_interior_and_outlines_edges() {
    let mut img = Image::new(8, 8);
    let c = Color::new(200, 100, 50);
    img.fill_triangle(1, 1, 6, 1, 1, 6, &c);
    // strictly interior pixel
    assert_eq!(img.get_pixel(2, 2), c);
    // the corners lie on the outline even though the scan is half-open
    assert_eq!(img.get_pixel(1, 1), c);
    assert_eq!(img.get_pixel(6, 1), c);
    assert_eq!(img.get_pixel(1, 6), c);
    // a pixel outside the triangle stays black
    assert_eq!(img.get_pixel(6, 6), Color::new(0, 0, 0));
    assert_eq!(img.get_pixel(7, 7), Color::new(0, 0, 0));
}

#[test]
fn fill_triangle_outside_the_grid_changes_nothing() {
    let mut img = Image::new(4, 4);
    let c = Color::new(1, 1, 1);
    img.fill_triangle(-10, -10, -5, -10, -10, -5, &c);
    assert_eq!(count_pixels_with(&img, 4, 4, c), 0);
}

#[test]
fn draw_line_vertical() {
    let mut img = Image::new(8, 8);
    let c = Color::new(3, 3, 3);
    img.draw_line(2, 6, 2, 1, &c);
    for y in 1..7 {
        assert_eq!(img.get_pixel(2, y), c);
    }
    assert_eq!(count_pixels_with(&img, 8, 8, c), 6);
}

#[test]
fn fill_triangle_degenerate_point() {
    let mut img = Image::new(4, 4);
    let c = Color::new(8, 8, 8);
    img.fill_triangle(2, 2, 2, 2, 2, 2, &c);
    assert_eq!(img.get_pixel(2, 2), c);
    assert_eq!(count_pixels_with(&img, 4, 4, c), 1);
}

#[test]
fn color_new_keeps_channels() {
    let c = Color::new(102, 153, 255);
    assert_eq!(c.r, 102);
    assert_eq!(c.g, 153);
    assert_eq!(c.b, 255);
}
