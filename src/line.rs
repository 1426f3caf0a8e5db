use vstd::prelude::*;

verus! {

/// A point with signed integer coordinates; it may lie outside any canvas.
#[derive(Debug, Clone, Copy, PartialEq, Eq, Structural)]
pub struct Point {
    pub x: i32,
    pub y: i32,
}

impl Point {
    pub open spec fn view(&self) -> (int, int) {
        (self.x as int, self.y as int)
    }

    pub fn new(x: i32, y: i32) -> (r: Point)
        ensures
            r.x == x,
            r.y == y,
    {
        Point { x, y }
    }
}

pub open spec fn abs(v: int) -> int {
    if v < 0 {
        -v
    } else {
        v
    }
}

pub open spec fn min(a: int, b: int) -> int {
    if a <= b {
        a
    } else {
        b
    }
}

pub open spec fn max(a: int, b: int) -> int {
    if a >= b {
        a
    } else {
        b
    }
}

/// Direction of travel along one axis (a zero delta counts as forward).
pub open spec fn dir(v: int) -> int {
    if v < 0 {
        -1
    } else {
        1
    }
}

/// Number of steps of the segment from `a` to `b`: the larger coordinate delta.
pub open spec fn steps(a: (int, int), b: (int, int)) -> int {
    max(abs(b.0 - a.0), abs(b.1 - a.1))
}

/// How far the minor coordinate has moved after `i` steps along the major axis,
/// when the minor delta is `d` over `n` major steps: the `k` for which the
/// error term `n / 2 - i * d + k * n` lies in `[0, n)`.
pub open spec fn minor_offset(i: int, d: int, n: int) -> int {
    if n <= 0 {
        0
    } else {
        (i * d + n - 1 - n / 2) / n
    }
}

/// The `i`-th pixel of the segment walked from `a` towards `b`.
pub open spec fn walk_pixel(a: (int, int), b: (int, int), i: int) -> (int, int) {
    let dx = abs(b.0 - a.0);
    let dy = abs(b.1 - a.1);
    if dx > dy {
        (a.0 + dir(b.0 - a.0) * i, a.1 + dir(b.1 - a.1) * minor_offset(i, dy, dx))
    } else {
        (a.0 + dir(b.0 - a.0) * minor_offset(i, dx, dy), a.1 + dir(b.1 - a.1) * i)
    }
}

/// The segment walked from `a` towards `b`, both ends included.
pub open spec fn walk(a: (int, int), b: (int, int)) -> Seq<(int, int)> {
    Seq::new((steps(a, b) + 1) as nat, |i: int| walk_pixel(a, b, i))
}

/// Lexicographic order on points, used to walk every segment in one direction.
pub open spec fn before(a: (int, int), b: (int, int)) -> bool {
    a.0 < b.0 || (a.0 == b.0 && a.1 <= b.1)
}

pub open spec fn reversed<A>(s: Seq<A>) -> Seq<A> {
    Seq::new(s.len(), |i: int| s[s.len() - 1 - i])
}

/// The pixels of the segment from `a` to `b`, in order from `a` to `b`.
pub open spec fn line_seq(a: (int, int), b: (int, int)) -> Seq<(int, int)> {
    if before(a, b) {
        walk(a, b)
    } else {
        reversed(walk(b, a))
    }
}

pub open spec fn pixels_view(v: Seq<(i64, i64)>) -> Seq<(int, int)> {
    v.map_values(|p: (i64, i64)| (p.0 as int, p.1 as int))
}

/// Two pixels are 8-connected neighbours (or equal).
pub open spec fn adjacent(p: (int, int), q: (int, int)) -> bool {
    abs(p.0 - q.0) <= 1 && abs(p.1 - q.1) <= 1
}

pub open spec fn connected(s: Seq<(int, int)>) -> bool {
    forall|i: int| 0 <= i < s.len() - 1 ==> #[trigger] adjacent(s[i], s[i + 1])
}

proof fn lemma_offset_bounds(i: int, d: int, n: int)
    requires
        n > 0,
    ensures
        0 <= n / 2 - i * d + minor_offset(i, d, n) * n < n,
{
    let x = i * d + n - 1 - n / 2;
    vstd::arithmetic::div_mod::lemma_fundamental_div_mod(x, n);
    assert(0 <= x % n < n) by {
        vstd::arithmetic::div_mod::lemma_mod_bound(x, n);
    }
    assert(minor_offset(i, d, n) * n == (x / n) * n);
    assert((x / n) * n == n * (x / n)) by (nonlinear_arith);
}

proof fn lemma_offset_unique(i: int, d: int, n: int, k: int)
    requires
        n > 0,
        0 <= n / 2 - i * d + k * n < n,
    ensures
        k == minor_offset(i, d, n),
{
    lemma_offset_bounds(i, d, n);
    let q = minor_offset(i, d, n);
    let e = n / 2 - i * d;
    assert(k == q) by (nonlinear_arith)
        requires
            n > 0,
            0 <= e + k * n < n,
            0 <= e + q * n < n,
    ;
}


proof fn lemma_offset_step(i: int, d: int, n: int)
    requires
        n > 0,
        0 <= d <= n,
    ensures
        0 <= minor_offset(i + 1, d, n) - minor_offset(i, d, n) <= 1,
{
    lemma_offset_bounds(i, d, n);
    lemma_offset_bounds(i + 1, d, n);
    let k0 = minor_offset(i, d, n);
    let k1 = minor_offset(i + 1, d, n);
    let e = n / 2 - i * d;
    assert((i + 1) * d == i * d + d) by (nonlinear_arith);
    assert(0 <= k1 - k0 <= 1) by (nonlinear_arith)
        requires
            n > 0,
            0 <= d <= n,
            0 <= e + k0 * n < n,
            0 <= e - d + k1 * n < n,
    ;
}

proof fn lemma_offset_ends(d: int, n: int)
    requires
        n > 0,
    ensures
        minor_offset(0, d, n) == 0,
        minor_offset(n, d, n) == d,
{
    lemma_offset_unique(0, d, n, 0);
    assert(n / 2 - n * d + d * n == n / 2) by (nonlinear_arith);
    lemma_offset_unique(n, d, n, d);
}

/// Walks from `a` towards `b` with Bresenham's integer error accumulation.
fn walk_exec(a: Point, b: Point) -> (r: Vec<(i64, i64)>)
    ensures
        pixels_view(r@) == walk(a@, b@),
{
    let ax = a.x as i64;
    let ay = a.y as i64;
    let ddx = b.x as i64 - ax;
    let ddy = b.y as i64 - ay;
    let dx: i64 = if ddx < 0 { -ddx } else { ddx };
    let dy: i64 = if ddy < 0 { -ddy } else { ddy };
    let sx: i64 = if ddx < 0 { -1 } else { 1 };
    let sy: i64 = if ddy < 0 { -1 } else { 1 };
    let x_major = dx > dy;
    let n: i64 = if x_major { dx } else { dy };
    let d: i64 = if x_major { dy } else { dx };
    let mut out: Vec<(i64, i64)> = Vec::new();
    let mut i: i64 = 0;
    let mut k: i64 = 0;
    let mut err: i64 = n / 2;
    proof {
        if n > 0 {
            lemma_offset_ends(d as int, n as int);
        }
    }
    while i <= n
        invariant
            n == steps(a@, b@),
            0 <= d <= n,
            n <= 0x1_0000_0000,
            0 <= k <= i <= n + 1,
            i <= n ==> k == minor_offset(i as int, d as int, n as int),
            n > 0 && i <= n ==> err == n / 2 - i * d + k * n && 0 <= err < n,
            dx == abs(b@.0 - a@.0),
            dy == abs(b@.1 - a@.1),
            sx == dir(b@.0 - a@.0),
            sy == dir(b@.1 - a@.1),
            x_major == (dx > dy),
            n == if x_major { dx } else { dy },
            d == if x_major { dy } else { dx },
            ax == a@.0,
            ay == a@.1,
            out@.len() == i,
            forall|j: int| 0 <= j < i ==> (#[trigger] out@[j].0 as int, out@[j].1 as int) == walk_pixel(a@, b@, j),
        decreases n + 1 - i,
    {
        let px: i64 = if x_major { ax + sx * i } else { ax + sx * k };
        let py: i64 = if x_major { ay + sy * k } else { ay + sy * i };
        proof {
            assert((px as int, py as int) == walk_pixel(a@, b@, i as int));
        }
        out.push((px, py));
        if i < n {
            proof {
                lemma_offset_step(i as int, d as int, n as int);
                lemma_offset_bounds(i as int, d as int, n as int);
                lemma_offset_bounds(i as int + 1, d as int, n as int);
            }
            let ghost k0 = k;
            let ghost e0 = err;
            err = err - d;
            if err < 0 {
                k = k + 1;
                err = err + n;
                assert(err == n / 2 - (i + 1) * d + k * n) by (nonlinear_arith)
                    requires
                        e0 == n / 2 - i * d + k0 * n,
                        err == e0 - d + n,
                        k == k0 + 1,
                ;
            } else {
                assert(err == n / 2 - (i + 1) * d + k * n) by (nonlinear_arith)
                    requires
                        e0 == n / 2 - i * d + k0 * n,
                        err == e0 - d,
                        k == k0,
                ;
            }
            proof {
                lemma_offset_unique(i as int + 1, d as int, n as int, k as int);
            }
        } else {
            k = k + 1;
        }
        i = i + 1;
    }
    proof {
        assert(pixels_view(out@) =~= walk(a@, b@));
    }
    out
}


/// Rasterizes the segment from `a` to `b`: the pixels in order from `a` to `b`,
/// both included.
pub fn line_pixels(a: Point, b: Point) -> (r: Vec<(i64, i64)>)
    ensures
        pixels_view(r@) == line_seq(a@, b@),
{
    let forward = a.x < b.x || (a.x == b.x && a.y <= b.y);
    if forward {
        walk_exec(a, b)
    } else {
        let w = walk_exec(b, a);
        let mut out: Vec<(i64, i64)> = Vec::new();
        let mut j: usize = w.len();
        while j > 0
            invariant
                j <= w@.len(),
                out@.len() == w@.len() - j,
                forall|t: int| 0 <= t < out@.len() ==> #[trigger] out@[t] == w@[w@.len() - 1 - t],
            decreases j,
        {
            j = j - 1;
            out.push(w[j]);
        }
        proof {
            assert(pixels_view(out@) =~= reversed(pixels_view(w@)));
        }
        out
    }
}

proof fn lemma_dir_mul(v: int, t: int)
    ensures
        dir(v) * abs(v) == v,
        dir(v) * (t + 1) == dir(v) * t + dir(v),
        abs(dir(v)) == 1,
{
    if v < 0 {
        assert(dir(v) * (t + 1) == dir(v) * t + dir(v)) by (nonlinear_arith)
            requires
                dir(v) == -1,
        ;
    } else {
        assert(dir(v) * (t + 1) == dir(v) * t + dir(v)) by (nonlinear_arith)
            requires
                dir(v) == 1,
        ;
    }
}

proof fn lemma_dir_step(v: int, k0: int, k1: int)
    requires
        0 <= k1 - k0 <= 1,
    ensures
        abs(dir(v) * k1 - dir(v) * k0) <= 1,
{
    if v < 0 {
        assert(abs(dir(v) * k1 - dir(v) * k0) <= 1) by (nonlinear_arith)
            requires
                dir(v) == -1,
                0 <= k1 - k0 <= 1,
        ;
    } else {
        assert(abs(dir(v) * k1 - dir(v) * k0) <= 1) by (nonlinear_arith)
            requires
                dir(v) == 1,
                0 <= k1 - k0 <= 1,
        ;
    }
}

proof fn lemma_walk_shape(a: (int, int), b: (int, int))
    ensures
        walk(a, b).len() == steps(a, b) + 1,
        walk(a, b)[0] == a,
        walk(a, b)[steps(a, b)] == b,
        connected(walk(a, b)),
{
    let n = steps(a, b);
    let dx = abs(b.0 - a.0);
    let dy = abs(b.1 - a.1);
    lemma_dir_mul(b.0 - a.0, 0);
    lemma_dir_mul(b.1 - a.1, 0);
    if n > 0 {
        if dx > dy {
            lemma_offset_ends(dy, dx);
        } else {
            lemma_offset_ends(dx, dy);
        }
    } else {
        assert(minor_offset(0, 0, 0) == 0);
    }
    assert(walk(a, b)[0] == a);
    assert(walk(a, b)[n] == b);
    assert forall|i: int| 0 <= i < walk(a, b).len() - 1 implies #[trigger] adjacent(
        walk(a, b)[i],
        walk(a, b)[i + 1],
    ) by {
        lemma_dir_mul(b.0 - a.0, i);
        lemma_dir_mul(b.1 - a.1, i);
        if dx > dy {
            lemma_offset_step(i, dy, dx);
            lemma_dir_step(b.1 - a.1, minor_offset(i, dy, dx), minor_offset(i + 1, dy, dx));
        } else {
            lemma_offset_step(i, dx, dy);
            lemma_dir_step(b.0 - a.0, minor_offset(i, dx, dy), minor_offset(i + 1, dx, dy));
        }
    }
}

/// A segment covers `max(|dx|, |dy|) + 1` pixels, starts at `a`, ends at `b`,
/// and each pixel is an 8-connected neighbour of the one before it.
pub proof fn lemma_line_shape(a: (int, int), b: (int, int))
    ensures
        line_seq(a, b).len() == max(abs(a.0 - b.0), abs(a.1 - b.1)) + 1,
        line_seq(a, b)[0] == a,
        line_seq(a, b)[line_seq(a, b).len() - 1] == b,
        connected(line_seq(a, b)),
{
    lemma_walk_shape(a, b);
    lemma_walk_shape(b, a);
    if !before(a, b) {
        let w = walk(b, a);
        let s = line_seq(a, b);
        assert forall|i: int| 0 <= i < s.len() - 1 implies #[trigger] adjacent(s[i], s[i + 1]) by {
            assert(adjacent(w[w.len() - 2 - i], w[w.len() - 2 - i + 1]));
        }
    }
}

/// Rasterizing `b` to `a` gives the pixels of `a` to `b` in reverse order,
/// so both directions cover the same set of pixels.
pub proof fn lemma_line_reverse(a: (int, int), b: (int, int))
    ensures
        line_seq(b, a) == reversed(line_seq(a, b)),
        line_seq(b, a).to_set() == line_seq(a, b).to_set(),
{
    let s = line_seq(a, b);
    let t = line_seq(b, a);
    if before(a, b) && before(b, a) {
        assert(a == b);
    }
    assert(t =~= reversed(s));
    assert forall|p: (int, int)| t.contains(p) <==> s.contains(p) by {
        if t.contains(p) {
            let i = choose|i: int| 0 <= i < t.len() && t[i] == p;
            assert(s[s.len() - 1 - i] == p);
        }
        if s.contains(p) {
            let i = choose|i: int| 0 <= i < s.len() && s[i] == p;
            assert(t[t.len() - 1 - i] == p);
        }
    }
    assert(t.to_set() =~= s.to_set());
}

/// A degenerate segment is the single pixel of its endpoint.
pub proof fn lemma_line_point(a: (int, int))
    ensures
        line_seq(a, a) == seq![a],
{
    lemma_walk_shape(a, a);
    assert(line_seq(a, a) =~= seq![a]);
}


/// A horizontal segment walked left to right covers each column once.
pub proof fn lemma_line_horizontal(x0: int, x1: int, y: int)
    requires
        x0 <= x1,
    ensures
        line_seq((x0, y), (x1, y)).len() == x1 - x0 + 1,
        forall|i: int|
            0 <= i <= x1 - x0 ==> #[trigger] line_seq((x0, y), (x1, y))[i] == (x0 + i, y),
{
    let n = x1 - x0;
    assert forall|i: int| 0 <= i <= n implies #[trigger] line_seq((x0, y), (x1, y))[i] == (
        x0 + i,
        y,
    ) by {
        if n > 0 {
            lemma_offset_unique(i, 0, n, 0);
        }
    }
}

/// A vertical segment walked top to bottom covers each row once.
pub proof fn lemma_line_vertical(x: int, y0: int, y1: int)
    requires
        y0 <= y1,
    ensures
        line_seq((x, y0), (x, y1)).len() == y1 - y0 + 1,
        forall|i: int|
            0 <= i <= y1 - y0 ==> #[trigger] line_seq((x, y0), (x, y1))[i] == (x, y0 + i),
{
    let n = y1 - y0;
    assert forall|i: int| 0 <= i <= n implies #[trigger] line_seq((x, y0), (x, y1))[i] == (
        x,
        y0 + i,
    ) by {
        if n > 0 {
            lemma_offset_unique(i, 0, n, 0);
        }
    }
}

} // verus!
