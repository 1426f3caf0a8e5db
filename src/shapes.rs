use vstd::prelude::*;

use crate::circle::{circle_pixels, circle_seq};
use crate::canvas::{canvas_ok, paint, paint_pixels, Rgb};
use crate::line::{
    lemma_line_horizontal, lemma_line_vertical, line_pixels, line_seq, max, min, pixels_view, Point,
};

verus! {

/// Relies on rand's `Rng::random_range` over the thread-local generator
/// (`rand::rng()`): a value in `[lo, hi)`; it panics on an empty range.
#[verifier::external_body]
fn random_in(lo: i32, hi: i32) -> (r: i32)
    requires
        lo < hi,
    ensures
        lo <= r < hi,
{
    rand::Rng::random_range(&mut rand::rng(), lo..hi)
}

/// A fresh random color, each channel drawn from `[0, 255]`.
pub fn random_color() -> (r: Rgb) {
    let red = random_in(0, 256) as u8;
    let green = random_in(0, 256) as u8;
    let blue = random_in(0, 256) as u8;
    Rgb::new(red, green, blue)
}

/// Joins two pixel sequences, `a` first.
fn concat(a: Vec<(i64, i64)>, b: Vec<(i64, i64)>) -> (r: Vec<(i64, i64)>)
    ensures
        pixels_view(r@) == pixels_view(a@) + pixels_view(b@),
{
    let ghost a0 = a@;
    let ghost b0 = b@;
    let mut out = a;
    let mut rest = b;
    out.append(&mut rest);
    proof {
        assert(pixels_view(out@) =~= pixels_view(a0) + pixels_view(b0));
    }
    out
}

/// A shape that can be rasterized and drawn onto a canvas.
pub trait Drawable {
    /// The pixels of the shape, in the order they are drawn.
    spec fn outline(&self) -> Seq<(int, int)>;

    fn pixels(&self) -> (r: Vec<(i64, i64)>)
        ensures
            pixels_view(r@) == self.outline(),
    ;

    /// The color for one draw call, chosen afresh each time.
    fn color(&self) -> (r: Rgb);

    /// Writes every in-bounds pixel of the outline onto the canvas, in order,
    /// all in one color chosen for this call.
    fn draw(&self, img: &mut raster::Image)
        requires
            canvas_ok(*old(img)),
        ensures
            final(img).width == old(img).width,
            final(img).height == old(img).height,
            canvas_ok(*final(img)),
            exists|c: Rgb|
                final(img).bytes@ == paint(
                    old(img).bytes@,
                    old(img).width as int,
                    old(img).height as int,
                    self.outline(),
                    c,
                ),
    ;
}

/// Writes the in-bounds pixels of `shape` onto the canvas in color `c`.
pub fn draw_with<S: Drawable>(shape: &S, img: &mut raster::Image, c: Rgb)
    requires
        canvas_ok(*old(img)),
    ensures
        final(img).width == old(img).width,
        final(img).height == old(img).height,
        canvas_ok(*final(img)),
        final(img).bytes@ == paint(
            old(img).bytes@,
            old(img).width as int,
            old(img).height as int,
            shape.outline(),
            c,
        ),
{
    paint_pixels(img, &shape.pixels(), c);
}

impl Point {
    /// A point drawn uniformly from `[0, width) x [0, height)`.
    pub fn random(width: i32, height: i32) -> (r: Point)
        requires
            width > 0,
            height > 0,
        ensures
            0 <= r.x < width,
            0 <= r.y < height,
    {
        Point { x: random_in(0, width), y: random_in(0, height) }
    }

}

impl Drawable for Point {
    open spec fn outline(&self) -> Seq<(int, int)> {
        seq![self@]
    }

    fn pixels(&self) -> (r: Vec<(i64, i64)>) {
        let mut v: Vec<(i64, i64)> = Vec::new();
        v.push((self.x as i64, self.y as i64));
        proof {
            assert(pixels_view(v@) =~= self.outline());
        }
        v
    }

    fn color(&self) -> (r: Rgb) {
        random_color()
    }

    fn draw(&self, img: &mut raster::Image) {
        let c = self.color();
        paint_pixels(img, &self.pixels(), c);
    }
}

/// An axis-aligned rectangle given by two opposite corners, in any order.
#[derive(Debug, Clone, Copy)]
pub struct Rectangle {
    pub x: Point,
    pub y: Point,
}

/// The four sides of the box `[x0, x1] x [y0, y1]`: top, bottom, left, right.
pub open spec fn box_outline(x0: int, y0: int, x1: int, y1: int) -> Seq<(int, int)> {
    line_seq((x0, y0), (x1, y0)) + line_seq((x0, y1), (x1, y1)) + line_seq((x0, y0), (x0, y1))
        + line_seq((x1, y0), (x1, y1))
}

/// The border pixels of the box `[x0, x1] x [y0, y1]`.
pub open spec fn box_border(x0: int, y0: int, x1: int, y1: int) -> Set<(int, int)> {
    Set::new(
        |p: (int, int)|
            x0 <= p.0 <= x1 && y0 <= p.1 <= y1 && (p.0 == x0 || p.0 == x1 || p.1 == y0 || p.1
                == y1),
    )
}

impl Rectangle {
    pub fn new(x: &Point, y: &Point) -> (r: Rectangle)
        ensures
            r.x == *x,
            r.y == *y,
    {
        Rectangle { x: *x, y: *y }
    }

    /// A rectangle whose corners are drawn from `[0, width) x [0, height)`.
    pub fn random(width: i32, height: i32) -> (r: Rectangle)
        requires
            width > 0,
            height > 0,
        ensures
            0 <= r.x.x < width,
            0 <= r.x.y < height,
            0 <= r.y.x < width,
            0 <= r.y.y < height,
    {
        Rectangle { x: Point::random(width, height), y: Point::random(width, height) }
    }

}

impl Drawable for Rectangle {
    /// The four sides of the box spanned by the corners, after ordering each axis.
    open spec fn outline(&self) -> Seq<(int, int)> {
        box_outline(
            min(self.x.x as int, self.y.x as int),
            min(self.x.y as int, self.y.y as int),
            max(self.x.x as int, self.y.x as int),
            max(self.x.y as int, self.y.y as int),
        )
    }

    fn pixels(&self) -> (r: Vec<(i64, i64)>) {
        let x0 = if self.x.x <= self.y.x { self.x.x } else { self.y.x };
        let x1 = if self.x.x <= self.y.x { self.y.x } else { self.x.x };
        let y0 = if self.x.y <= self.y.y { self.x.y } else { self.y.y };
        let y1 = if self.x.y <= self.y.y { self.y.y } else { self.x.y };
        let top = line_pixels(Point::new(x0, y0), Point::new(x1, y0));
        let bottom = line_pixels(Point::new(x0, y1), Point::new(x1, y1));
        let left = line_pixels(Point::new(x0, y0), Point::new(x0, y1));
        let right = line_pixels(Point::new(x1, y0), Point::new(x1, y1));
        concat(concat(concat(top, bottom), left), right)
    }

    fn color(&self) -> (r: Rgb) {
        random_color()
    }

    fn draw(&self, img: &mut raster::Image) {
        let c = self.color();
        paint_pixels(img, &self.pixels(), c);
    }
}

/// The outline of a rectangle is exactly the border of the box spanned by its
/// corners, whichever order the corners are given in.
pub proof fn lemma_rectangle_border(r: Rectangle)
    ensures
        r.outline().to_set() == box_border(
            min(r.x.x as int, r.y.x as int),
            min(r.x.y as int, r.y.y as int),
            max(r.x.x as int, r.y.x as int),
            max(r.x.y as int, r.y.y as int),
        ),
        (Rectangle { x: r.y, y: r.x }).outline() == r.outline(),
        (Rectangle { x: Point { x: r.x.x, y: r.y.y }, y: Point { x: r.y.x, y: r.x.y } }).outline()
            == r.outline(),
{
    let x0 = min(r.x.x as int, r.y.x as int);
    let y0 = min(r.x.y as int, r.y.y as int);
    let x1 = max(r.x.x as int, r.y.x as int);
    let y1 = max(r.x.y as int, r.y.y as int);
    let top = line_seq((x0, y0), (x1, y0));
    let bottom = line_seq((x0, y1), (x1, y1));
    let left = line_seq((x0, y0), (x0, y1));
    let right = line_seq((x1, y0), (x1, y1));
    lemma_line_horizontal(x0, x1, y0);
    lemma_line_horizontal(x0, x1, y1);
    lemma_line_vertical(x0, y0, y1);
    lemma_line_vertical(x1, y0, y1);
    let s = r.outline();
    let b = box_border(x0, y0, x1, y1);
    assert(s == top + bottom + left + right);
    let nt = top.len();
    let nb = bottom.len();
    let nl = left.len();
    assert forall|p: (int, int)| s.contains(p) implies b.contains(p) by {
        let i = choose|i: int| 0 <= i < s.len() && s[i] == p;
        if i < nt {
            assert(top[i] == p);
        } else if i < nt + nb {
            assert(bottom[i - nt] == p);
        } else if i < nt + nb + nl {
            assert(left[i - nt - nb] == p);
        } else {
            assert(right[i - nt - nb - nl] == p);
        }
    }
    assert forall|p: (int, int)| b.contains(p) implies s.contains(p) by {
        if p.1 == y0 {
            assert(s[p.0 - x0] == p);
        } else if p.1 == y1 {
            assert(s[nt + p.0 - x0] == p);
        } else if p.0 == x0 {
            assert(s[nt + nb + p.1 - y0] == p);
        } else {
            assert(s[nt + nb + nl + p.1 - y0] == p);
        }
    }
    assert(s.to_set() =~= b);
}

/// A triangle, drawn as the closed edge list `a -> b -> c -> a`.
#[derive(Debug, Clone, Copy)]
pub struct Triangle {
    pub a: Point,
    pub b: Point,
    pub c: Point,
}

impl Triangle {
    pub fn new(a: &Point, b: &Point, c: &Point) -> (r: Triangle)
        ensures
            r.a == *a,
            r.b == *b,
            r.c == *c,
    {
        Triangle { a: *a, b: *b, c: *c }
    }

    /// A triangle whose vertices are drawn from `[0, width) x [0, height)`.
    pub fn random(width: i32, height: i32) -> (r: Triangle)
        requires
            width > 0,
            height > 0,
        ensures
            0 <= r.a.x < width,
            0 <= r.a.y < height,
            0 <= r.b.x < width,
            0 <= r.b.y < height,
            0 <= r.c.x < width,
            0 <= r.c.y < height,
    {
        Triangle {
            a: Point::random(width, height),
            b: Point::random(width, height),
            c: Point::random(width, height),
        }
    }

}

impl Drawable for Triangle {
    open spec fn outline(&self) -> Seq<(int, int)> {
        line_seq(self.a@, self.b@) + line_seq(self.b@, self.c@) + line_seq(self.c@, self.a@)
    }

    fn pixels(&self) -> (r: Vec<(i64, i64)>) {
        let ab = line_pixels(self.a, self.b);
        let bc = line_pixels(self.b, self.c);
        let ca = line_pixels(self.c, self.a);
        concat(concat(ab, bc), ca)
    }

    fn color(&self) -> (r: Rgb) {
        random_color()
    }

    fn draw(&self, img: &mut raster::Image) {
        let c = self.color();
        paint_pixels(img, &self.pixels(), c);
    }
}

/// A segment between two points.
#[derive(Debug, Clone, Copy)]
pub struct Line {
    pub p1: Point,
    pub p2: Point,
}

impl Line {
    pub fn new(p1: &Point, p2: &Point) -> (r: Line)
        ensures
            r.p1 == *p1,
            r.p2 == *p2,
    {
        Line { p1: *p1, p2: *p2 }
    }

    /// A segment whose endpoints are drawn uniformly from `[0, width) x [0, height)`.
    pub fn random(width: i32, height: i32) -> (r: Line)
        requires
            width > 0,
            height > 0,
        ensures
            0 <= r.p1.x < width,
            0 <= r.p1.y < height,
            0 <= r.p2.x < width,
            0 <= r.p2.y < height,
    {
        Line { p1: Point::random(width, height), p2: Point::random(width, height) }
    }

}

impl Drawable for Line {
    open spec fn outline(&self) -> Seq<(int, int)> {
        line_seq(self.p1@, self.p2@)
    }

    fn pixels(&self) -> (r: Vec<(i64, i64)>) {
        line_pixels(self.p1, self.p2)
    }

    fn color(&self) -> (r: Rgb) {
        random_color()
    }

    fn draw(&self, img: &mut raster::Image) {
        let c = self.color();
        paint_pixels(img, &self.pixels(), c);
    }
}


/// Why a shape could not be built.
#[derive(Debug, Clone, Copy, PartialEq, Eq, Structural)]
pub enum ShapeError {
    /// A radius that is not positive, or fewer than three vertices.
    InvalidParameter,
}

/// A circle given by its center and radius; `new` accepts only a positive radius.
#[derive(Debug, Clone, Copy)]
pub struct Circle {
    pub center: Point,
    pub radius: i32,
}

impl Circle {
    /// A circle around `center`; a radius that is not positive is rejected.
    pub fn new(center: &Point, radius: i32) -> (r: Result<Circle, ShapeError>)
        ensures
            radius <= 0 <==> r is Err,
            r is Err ==> r == Err::<Circle, ShapeError>(ShapeError::InvalidParameter),
            r is Ok ==> r->Ok_0.center == *center && r->Ok_0.radius == radius,
    {
        if radius <= 0 {
            Err(ShapeError::InvalidParameter)
        } else {
            Ok(Circle { center: Point::new(center.x, center.y), radius })
        }
    }

    /// A circle whose center is drawn from `[0, width) x [0, height)` and whose
    /// radius is drawn from `[30, 250)`, whatever the canvas size.
    pub fn random(width: i32, height: i32) -> (r: Circle)
        requires
            width > 0,
            height > 0,
        ensures
            0 <= r.center.x < width,
            0 <= r.center.y < height,
            30 <= r.radius < 250,
    {
        Circle { center: Point::random(width, height), radius: random_in(30, 250) }
    }
}

impl Drawable for Circle {
    /// The boundary samples; a circle without a positive radius has none.
    open spec fn outline(&self) -> Seq<(int, int)> {
        circle_seq(self.center@, self.radius as int)
    }

    fn pixels(&self) -> (r: Vec<(i64, i64)>) {
        if self.radius < 1 {
            let v: Vec<(i64, i64)> = Vec::new();
            proof {
                assert(pixels_view(v@) =~= self.outline());
            }
            v
        } else {
            circle_pixels(self.center, self.radius)
        }
    }

    fn color(&self) -> (r: Rgb) {
        random_color()
    }

    fn draw(&self, img: &mut raster::Image) {
        let c = self.color();
        paint_pixels(img, &self.pixels(), c);
    }
}

/// A closed polygon through its vertices, in order; the last vertex joins the first.
#[derive(Debug)]
pub struct Polygon {
    pub vertices: Vec<Point>,
}

/// Edge `i` of the closed polygon through `vs`: from vertex `i` to vertex `i + 1`, wrapping.
pub open spec fn edge(vs: Seq<Point>, i: int) -> (Point, Point) {
    (vs[i], vs[(i + 1) % vs.len() as int])
}

/// The pixels of the first `k` edges of the closed polygon through `vs`, edge after edge.
pub open spec fn edges_outline(vs: Seq<Point>, k: int) -> Seq<(int, int)>
    decreases k,
{
    if k <= 0 {
        Seq::empty()
    } else {
        edges_outline(vs, k - 1) + line_seq(edge(vs, k - 1).0@, edge(vs, k - 1).1@)
    }
}

impl Polygon {
    /// A polygon through `vertices`; fewer than three vertices are rejected.
    pub fn new(vertices: Vec<Point>) -> (r: Result<Polygon, ShapeError>)
        ensures
            vertices@.len() < 3 <==> r is Err,
            r is Err ==> r == Err::<Polygon, ShapeError>(ShapeError::InvalidParameter),
            r is Ok ==> r->Ok_0.vertices@ == vertices@,
    {
        if vertices.len() < 3 {
            Err(ShapeError::InvalidParameter)
        } else {
            Ok(Polygon { vertices })
        }
    }

    /// The edges of the polygon: vertex `i` to vertex `(i + 1) mod n`, for each `i`.
    pub fn edges(&self) -> (r: Vec<(Point, Point)>)
        ensures
            r@.len() == self.vertices@.len(),
            forall|i: int| 0 <= i < r@.len() ==> #[trigger] r@[i] == edge(self.vertices@, i),
    {
        let n = self.vertices.len();
        let mut out: Vec<(Point, Point)> = Vec::new();
        let mut i: usize = 0;
        while i < n
            invariant
                n == self.vertices@.len(),
                i <= n,
                out@.len() == i,
                forall|t: int| 0 <= t < i ==> #[trigger] out@[t] == edge(self.vertices@, t),
            decreases n - i,
        {
            let j: usize = if i + 1 == n { 0 } else { i + 1 };
            proof {
                if i + 1 == n {
                    vstd::arithmetic::div_mod::lemma_mod_self_0(n as int);
                } else {
                    vstd::arithmetic::div_mod::lemma_small_mod((i + 1) as nat, n as nat);
                }
            }
            out.push((self.vertices[i], self.vertices[j]));
            i = i + 1;
        }
        out
    }
}

impl Drawable for Polygon {
    open spec fn outline(&self) -> Seq<(int, int)> {
        edges_outline(self.vertices@, self.vertices@.len() as int)
    }

    fn pixels(&self) -> (r: Vec<(i64, i64)>) {
        let edges = self.edges();
        let mut out: Vec<(i64, i64)> = Vec::new();
        let mut i: usize = 0;
        while i < edges.len()
            invariant
                i <= edges@.len(),
                edges@.len() == self.vertices@.len(),
                forall|t: int| 0 <= t < edges@.len() ==> #[trigger] edges@[t] == edge(self.vertices@, t),
                pixels_view(out@) == edges_outline(self.vertices@, i as int),
            decreases edges@.len() - i,
        {
            let (p, q) = edges[i];
            out = concat(out, line_pixels(p, q));
            i = i + 1;
        }
        out
    }

    fn color(&self) -> (r: Rgb) {
        random_color()
    }

    fn draw(&self, img: &mut raster::Image) {
        let c = self.color();
        paint_pixels(img, &self.pixels(), c);
    }
}

/// Any one of the drawable shapes; drawing dispatches on the variant.
#[derive(Debug)]
pub enum Shape {
    Point(Point),
    Line(Line),
    Rectangle(Rectangle),
    Triangle(Triangle),
    Circle(Circle),
    Polygon(Polygon),
}

impl Drawable for Shape {
    open spec fn outline(&self) -> Seq<(int, int)> {
        match self {
            Shape::Point(p) => p.outline(),
            Shape::Line(l) => l.outline(),
            Shape::Rectangle(r) => r.outline(),
            Shape::Triangle(t) => t.outline(),
            Shape::Circle(c) => c.outline(),
            Shape::Polygon(p) => p.outline(),
        }
    }

    fn pixels(&self) -> (r: Vec<(i64, i64)>) {
        match self {
            Shape::Point(p) => p.pixels(),
            Shape::Line(l) => l.pixels(),
            Shape::Rectangle(r) => r.pixels(),
            Shape::Triangle(t) => t.pixels(),
            Shape::Circle(c) => c.pixels(),
            Shape::Polygon(p) => p.pixels(),
        }
    }

    fn color(&self) -> (r: Rgb) {
        random_color()
    }

    fn draw(&self, img: &mut raster::Image) {
        let c = self.color();
        paint_pixels(img, &self.pixels(), c);
    }
}

/// The edges of a polygon with `n` vertices form one closed loop of `n` edges:
/// each edge ends where the next one starts, and the last edge ends at the first vertex.
pub proof fn lemma_polygon_closed(p: Polygon)
    requires
        p.vertices@.len() >= 3,
    ensures
        forall|i: int|
            0 <= i < p.vertices@.len() ==> (#[trigger] edge(p.vertices@, i)).1 == edge(
                p.vertices@,
                (i + 1) % p.vertices@.len() as int,
            ).0,
        edge(p.vertices@, p.vertices@.len() - 1).1 == p.vertices@[0],
        forall|i: int| 0 <= i < p.vertices@.len() ==> (#[trigger] edge(p.vertices@, i)).0 == p.vertices@[i],
{
    let n = p.vertices@.len() as int;
    assert forall|i: int| 0 <= i < n implies (#[trigger] edge(p.vertices@, i)).1 == edge(
        p.vertices@,
        (i + 1) % n,
    ).0 by {
        vstd::arithmetic::div_mod::lemma_mod_bound(i + 1, n);
    }
    vstd::arithmetic::div_mod::lemma_mod_self_0(n);
}

} // verus!
