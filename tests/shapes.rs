use geometrical_shapes::{
    circle_pixels, draw_with, line_pixels, paint_pixels, random_color, write_pixel, Circle,
    Drawable, Line, Point, Polygon, Rectangle, Rgb, Shape, ShapeError, Triangle,
};
use raster::Image;
use std::collections::HashSet;

fn pixel(img: &Image, x: i32, y: i32) -> [u8; 4] {
    let s = (4 * (y * img.width + x)) as usize;
    [img.bytes[s], img.bytes[s + 1], img.bytes[s + 2], img.bytes[s + 3]]
}

fn adjacent(p: (i64, i64), q: (i64, i64)) -> bool {
    (p.0 - q.0).abs() <= 1 && (p.1 - q.1).abs() <= 1
}

fn as_set(v: &[(i64, i64)]) -> HashSet<(i64, i64)> {
    v.iter().cloned().collect()
}

#[test]
fn line_count_ends_and_connectivity() {
    let cases = [((0, 0), (7, 3)), ((5, -2), (-4, 9)), ((3, 3), (3, -6)), ((-10, 4), (12, 4))];
    for ((ax, ay), (bx, by)) in cases {
        let v = line_pixels(Point::new(ax, ay), Point::new(bx, by));
        let n = ((ax - bx).abs()).max((ay - by).abs()) as usize;
        assert_eq!(v.len(), n + 1);
        assert_eq!(v[0], (ax as i64, ay as i64));
        assert_eq!(v[n], (bx as i64, by as i64));
        for i in 0..n {
            assert!(adjacent(v[i], v[i + 1]));
        }
    }
}

#[test]
fn line_reversed_covers_same_pixels() {
    let a = Point::new(2, 1);
    let b = Point::new(9, 6);
    let fwd = line_pixels(a, b);
    let mut back = line_pixels(b, a);
    assert_eq!(as_set(&fwd), as_set(&back));
    back.reverse();
    assert_eq!(fwd, back);
}

#[test]
fn line_exact_pixels() {
    let v = line_pixels(Point::new(0, 0), Point::new(4, 2));
    assert_eq!(v, vec![(0, 0), (1, 0), (2, 1), (3, 1), (4, 2)]);
}

#[test]
fn degenerate_line_is_one_pixel() {
    let v = line_pixels(Point::new(-3, 8), Point::new(-3, 8));
    assert_eq!(v, vec![(-3, 8)]);
}

#[test]
fn diagonal_line_on_square_canvas() {
    let line = Line::new(&Point::new(0, 0), &Point::new(99, 99));
    let v = line.pixels();
    assert_eq!(v.len(), 100);
    assert!(v.iter().all(|p| p.0 == p.1));
    let mut img = Image::blank(100, 100);
    let c = Rgb::new(10, 20, 30);
    draw_with(&line, &mut img, c);
    for x in 0..100 {
        for y in 0..100 {
            let expected = if x == y { [10, 20, 30, 255] } else { [0, 0, 0, 255] };
            assert_eq!(pixel(&img, x, y), expected);
        }
    }
}

#[test]
fn rectangle_corner_order_does_not_matter() {
    let p = Point::new(3, 8);
    let q = Point::new(10, 2);
    let a = as_set(&Rectangle::new(&p, &q).pixels());
    let b = as_set(&Rectangle::new(&q, &p).pixels());
    let c = as_set(&Rectangle::new(&Point::new(3, 2), &Point::new(10, 8)).pixels());
    assert_eq!(a, b);
    assert_eq!(a, c);
    let mut border = HashSet::new();
    for x in 3..=10i64 {
        for y in 2..=8i64 {
            if x == 3 || x == 10 || y == 2 || y == 8 {
                border.insert((x, y));
            }
        }
    }
    assert_eq!(a, border);
}

#[test]
fn rectangle_clipped_to_canvas() {
    let r = Rectangle::new(&Point::new(80, 80), &Point::new(20, 20));
    let mut img = Image::blank(50, 50);
    draw_with(&r, &mut img, Rgb::new(1, 2, 3));
    assert_eq!(img.bytes.len(), 50 * 50 * 4);
    for x in 0..50 {
        for y in 0..50 {
            let on = (x >= 20 && y == 20) || (y >= 20 && x == 20);
            let expected = if on { [1, 2, 3, 255] } else { [0, 0, 0, 255] };
            assert_eq!(pixel(&img, x, y), expected);
        }
    }
}

#[test]
fn triangle_is_three_edges() {
    let a = Point::new(0, 0);
    let b = Point::new(6, 0);
    let c = Point::new(0, 4);
    let t = Triangle::new(&a, &b, &c);
    let mut expected = line_pixels(a, b);
    expected.extend(line_pixels(b, c));
    expected.extend(line_pixels(c, a));
    assert_eq!(t.pixels(), expected);
}

#[test]
fn circle_samples_near_radius_and_connected() {
    for r in [1, 2, 5, 30, 31, 100, 249] {
        let v = circle_pixels(Point::new(7, -3), r);
        assert!(v.len() >= 8);
        for &(x, y) in &v {
            let d2 = (x - 7) * (x - 7) + (y + 3) * (y + 3);
            let r = r as i64;
            assert!((r - 1) * (r - 1) <= d2 && d2 <= r * r);
        }
        for i in 0..v.len() - 1 {
            assert!(adjacent(v[i], v[i + 1]));
        }
        assert!(adjacent(v[v.len() - 1], v[0]));
        assert_eq!(v[0], (7 + r as i64, -3));
    }
}

#[test]
fn circle_small_radius_exact() {
    let v = circle_pixels(Point::new(0, 0), 1);
    assert_eq!(v, vec![(1, 0), (0, 1), (0, 1), (-1, 0), (-1, 0), (0, -1), (0, -1), (1, 0)]);
}

#[test]
fn circle_rejects_non_positive_radius() {
    assert_eq!(Circle::new(&Point::new(1, 1), 0).unwrap_err(), ShapeError::InvalidParameter);
    assert_eq!(Circle::new(&Point::new(1, 1), -5).unwrap_err(), ShapeError::InvalidParameter);
    let c = Circle::new(&Point::new(1, 1), 5).unwrap();
    assert_eq!(c.radius, 5);
    assert_eq!(c.center, Point::new(1, 1));
}

#[test]
fn circle_clipped_to_canvas() {
    let c = Circle::new(&Point::new(0, 0), 45).unwrap();
    let mut img = Image::blank(30, 30);
    draw_with(&c, &mut img, Rgb::new(9, 9, 9));
    let mut painted = 0;
    for x in 0..30 {
        for y in 0..30 {
            if pixel(&img, x, y) == [9, 9, 9, 255] {
                painted += 1;
            }
        }
    }
    assert_eq!(painted, 0);
    let mut img = Image::blank(50, 50);
    draw_with(&c, &mut img, Rgb::new(9, 9, 9));
    assert_eq!(pixel(&img, 45, 0), [9, 9, 9, 255]);
    assert_eq!(pixel(&img, 0, 45), [9, 9, 9, 255]);
}

#[test]
fn polygon_edges_close_the_loop() {
    let vs = vec![Point::new(0, 0), Point::new(10, 0), Point::new(12, 8), Point::new(5, 12), Point::new(-2, 8)];
    let p = Polygon::new(vs.clone()).unwrap();
    let e = p.edges();
    assert_eq!(e.len(), 5);
    for i in 0..5 {
        assert_eq!(e[i].0, vs[i]);
        assert_eq!(e[i].1, vs[(i + 1) % 5]);
    }
    let mut expected = Vec::new();
    for (a, b) in &e {
        expected.extend(line_pixels(*a, *b));
    }
    assert_eq!(p.pixels(), expected);
}

#[test]
fn polygon_rejects_too_few_vertices() {
    let r = Polygon::new(vec![Point::new(0, 0), Point::new(1, 1)]);
    assert_eq!(r.unwrap_err(), ShapeError::InvalidParameter);
}

#[test]
fn random_shapes_stay_in_bounds() {
    for _ in 0..200 {
        let p = Point::random(17, 5);
        assert!(p.x >= 0 && p.x < 17 && p.y >= 0 && p.y < 5);
        let l = Line::random(3, 40);
        for q in [l.p1, l.p2] {
            assert!(q.x >= 0 && q.x < 3 && q.y >= 0 && q.y < 40);
        }
        let c = Circle::random(20, 30);
        assert!(c.center.x >= 0 && c.center.x < 20 && c.center.y >= 0 && c.center.y < 30);
        assert!(c.radius >= 30 && c.radius < 250);
        let r = Rectangle::random(8, 9);
        for q in [r.x, r.y] {
            assert!(q.x >= 0 && q.x < 8 && q.y >= 0 && q.y < 9);
        }
        let t = Triangle::random(4, 4);
        for q in [t.a, t.b, t.c] {
            assert!(q.x >= 0 && q.x < 4 && q.y >= 0 && q.y < 4);
        }
    }
}

#[test]
fn random_points_vary() {
    let first = Point::random(1000, 1000);
    let differs = (0..50).any(|_| Point::random(1000, 1000) != first);
    assert!(differs);
}

#[test]
fn draw_uses_one_color_per_call() {
    let t = Triangle::new(&Point::new(1, 1), &Point::new(18, 3), &Point::new(6, 15));
    let mut img = Image::blank(20, 20);
    t.draw(&mut img);
    let mut colors = HashSet::new();
    for (x, y) in t.pixels() {
        colors.insert(pixel(&img, x as i32, y as i32));
    }
    assert_eq!(colors.len(), 1);
    let _ = random_color();
}

#[test]
fn write_pixel_skips_out_of_bounds() {
    let mut img = Image::blank(4, 3);
    let before = img.bytes.clone();
    write_pixel(&mut img, 4, 0, Rgb::new(5, 6, 7));
    write_pixel(&mut img, -1, 1, Rgb::new(5, 6, 7));
    write_pixel(&mut img, 0, 3, Rgb::new(5, 6, 7));
    assert_eq!(img.bytes, before);
    write_pixel(&mut img, 3, 2, Rgb::new(5, 6, 7));
    assert_eq!(pixel(&img, 3, 2), [5, 6, 7, 255]);
}

#[test]
fn later_writes_replace_earlier_ones() {
    let mut img = Image::blank(5, 5);
    paint_pixels(&mut img, &vec![(1, 1), (2, 2)], Rgb::new(1, 1, 1));
    paint_pixels(&mut img, &vec![(2, 2), (9, 9)], Rgb::new(2, 2, 2));
    assert_eq!(pixel(&img, 1, 1), [1, 1, 1, 255]);
    assert_eq!(pixel(&img, 2, 2), [2, 2, 2, 255]);
}

#[test]
fn point_draws_single_pixel() {
    let p = Point::new(2, 3);
    assert_eq!(p.pixels(), vec![(2, 3)]);
    let mut img = Image::blank(4, 4);
    draw_with(&p, &mut img, Rgb::new(4, 5, 6));
    assert_eq!(pixel(&img, 2, 3), [4, 5, 6, 255]);
    assert_eq!(pixel(&img, 3, 3), [0, 0, 0, 255]);
}

#[test]
fn shape_dispatches_on_variant() {
    let r = Rectangle::new(&Point::new(1, 1), &Point::new(4, 3));
    let c = Circle::new(&Point::new(10, 10), 3).unwrap();
    assert_eq!(Shape::Rectangle(r).pixels(), r.pixels());
    assert_eq!(Shape::Circle(c).pixels(), c.pixels());
    assert_eq!(Shape::Point(Point::new(5, 6)).pixels(), vec![(5, 6)]);
    let mut img = Image::blank(12, 12);
    draw_with(&Shape::Line(Line::new(&Point::new(0, 11), &Point::new(11, 0))), &mut img, Rgb::new(7, 7, 7));
    for x in 0..12 {
        assert_eq!(pixel(&img, x, 11 - x), [7, 7, 7, 255]);
    }
}
