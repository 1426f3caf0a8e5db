use vstd::prelude::*;

use crate::line::{abs, adjacent, connected, pixels_view, Point};

verus! {

/// The largest `v <= x` with `v * v <= t` (for `t >= 0` and `x >= 0`).
pub open spec fn root_below(t: int, x: int) -> int
    decreases x,
{
    if x <= 0 || x * x <= t {
        x
    } else {
        root_below(t, x - 1)
    }
}

/// The largest `x` in `[0, r]` with `x * x + y * y <= r * r`: the column of the
/// circle of radius `r` at row `y`, on the inside of the boundary.
pub open spec fn arc_x(r: int, y: int) -> int {
    root_below(r * r - y * y, r)
}

/// The last row of the first octant walked from row `y`: rows go on while the
/// row stays at or below the diagonal.
pub open spec fn octant_end(r: int, y: int) -> int
    decreases r - y,
{
    if y < r && y + 1 <= arc_x(r, y + 1) {
        octant_end(r, y + 1)
    } else {
        y
    }
}

/// Offset from the center of the `k`-th sample of the circle of radius `r`:
/// the first octant's pixels are reflected into the other seven, and the eight
/// arcs are laid end to end counterclockwise starting at `(r, 0)`.
pub open spec fn circle_offset(r: int, k: int) -> (int, int) {
    let l = octant_end(r, 0) + 1;
    if k < l {
        (arc_x(r, k), k)
    } else if k < 2 * l {
        let j = 2 * l - 1 - k;
        (j, arc_x(r, j))
    } else if k < 3 * l {
        let i = k - 2 * l;
        (-i, arc_x(r, i))
    } else if k < 4 * l {
        let j = 4 * l - 1 - k;
        (-arc_x(r, j), j)
    } else if k < 5 * l {
        let i = k - 4 * l;
        (-arc_x(r, i), -i)
    } else if k < 6 * l {
        let j = 6 * l - 1 - k;
        (-j, -arc_x(r, j))
    } else if k < 7 * l {
        let i = k - 6 * l;
        (i, -arc_x(r, i))
    } else {
        let j = 8 * l - 1 - k;
        (arc_x(r, j), -j)
    }
}

/// The boundary samples of the circle with center `c` and radius `r`, in angular order.
pub open spec fn circle_seq(c: (int, int), r: int) -> Seq<(int, int)> {
    if r <= 0 {
        Seq::empty()
    } else {
        Seq::new(
            (8 * (octant_end(r, 0) + 1)) as nat,
            |k: int| (c.0 + circle_offset(r, k).0, c.1 + circle_offset(r, k).1),
        )
    }
}

proof fn lemma_root(t: int, x: int)
    requires
        t >= 0,
        x >= 0,
    ensures
        0 <= root_below(t, x) <= x,
        root_below(t, x) * root_below(t, x) <= t,
        root_below(t, x) == x || (root_below(t, x) + 1) * (root_below(t, x) + 1) > t,
    decreases x,
{
    if x > 0 && x * x > t {
        lemma_root(t, x - 1);
    } else if x == 0 {
        assert(x * x == 0);
    }
}

proof fn lemma_root_max(t: int, x: int, w: int)
    requires
        t >= 0,
        0 <= w <= x,
        w * w <= t,
    ensures
        w <= root_below(t, x),
    decreases x,
{
    if x > 0 && x * x > t {
        if w == x {
            assert(false);
        }
        lemma_root_max(t, x - 1, w);
    }
}

/// A column that meets the defining bounds of `root_below` is that column.
proof fn lemma_root_unique(t: int, x: int, v: int)
    requires
        t >= 0,
        0 <= v <= x,
        v * v <= t,
        v == x || (v + 1) * (v + 1) > t,
    ensures
        v == root_below(t, x),
{
    lemma_root(t, x);
    lemma_root_max(t, x, v);
    let u = root_below(t, x);
    if v != x {
        assert(u <= v) by (nonlinear_arith)
            requires
                0 <= u,
                0 <= v,
                u * u <= t,
                (v + 1) * (v + 1) > t,
        ;
    }
}

/// Rows of the first octant move the column by at most one.
proof fn lemma_arc_step(r: int, y: int)
    requires
        0 <= y,
        y + 1 <= r,
    ensures
        arc_x(r, y + 1) <= arc_x(r, y),
        arc_x(r, y) >= y + 1 ==> arc_x(r, y) - 1 <= arc_x(r, y + 1),
{
    let t0 = r * r - y * y;
    let t1 = r * r - (y + 1) * (y + 1);
    assert(t1 >= 0 && t0 == t1 + 2 * y + 1) by (nonlinear_arith)
        requires
            0 <= y,
            y + 1 <= r,
            t0 == r * r - y * y,
            t1 == r * r - (y + 1) * (y + 1),
    ;
    lemma_root(t0, r);
    lemma_root(t1, r);
    let a0 = arc_x(r, y);
    let a1 = arc_x(r, y + 1);
    if a0 != r {
        assert(a1 <= a0) by (nonlinear_arith)
            requires
                0 <= a1,
                0 <= a0,
                a1 * a1 <= t1,
                t1 < t0,
                (a0 + 1) * (a0 + 1) > t0,
        ;
    }
    if a0 >= y + 1 {
        let w = a0 - 1;
        assert(w * w <= t1) by (nonlinear_arith)
            requires
                w == a0 - 1,
                a0 >= y + 1,
                a0 * a0 <= t0,
                t0 == t1 + 2 * y + 1,
        ;
        lemma_root_max(t1, r, w);
    }
}

proof fn lemma_octant(r: int, y: int)
    requires
        0 <= y <= r,
        y <= arc_x(r, y),
    ensures
        y <= octant_end(r, y) <= r,
        forall|i: int| y <= i <= octant_end(r, y) ==> i <= #[trigger] arc_x(r, i),
        octant_end(r, y) == r || octant_end(r, y) + 1 > arc_x(r, octant_end(r, y) + 1),
    decreases r - y,
{
    if y < r && y + 1 <= arc_x(r, y + 1) {
        lemma_octant(r, y + 1);
    }
}

/// Each sample lies between distance `r - 1` and `r` of the center.
proof fn lemma_arc_distance(r: int, y: int)
    requires
        0 <= y <= r,
        r >= 1,
    ensures
        (r - 1) * (r - 1) <= arc_x(r, y) * arc_x(r, y) + y * y <= r * r,
{
    let t = r * r - y * y;
    assert(t >= 0) by (nonlinear_arith)
        requires
            0 <= y <= r,
            t == r * r - y * y,
    ;
    lemma_root(t, r);
    let a = arc_x(r, y);
    if a == r {
        assert((r - 1) * (r - 1) <= a * a + y * y) by (nonlinear_arith)
            requires
                a == r,
                r >= 1,
                y * y >= 0,
        ;
    } else {
        assert((r - 1) * (r - 1) <= a * a + y * y) by (nonlinear_arith)
            requires
                0 <= a < r,
                (a + 1) * (a + 1) > t,
                t == r * r - y * y,
        ;
    }
}


proof fn lemma_arc_start(r: int)
    requires
        r >= 1,
    ensures
        arc_x(r, 0) == r,
        0 <= octant_end(r, 0) <= r,
        forall|i: int| 0 <= i <= octant_end(r, 0) ==> i <= #[trigger] arc_x(r, i),
        abs(arc_x(r, octant_end(r, 0)) - octant_end(r, 0)) <= 1,
        forall|i: int| 0 <= i <= octant_end(r, 0) ==> 0 <= #[trigger] arc_x(r, i) <= r,
{
    assert(r * r - 0 * 0 == r * r);
    let m = octant_end(r, 0);
    lemma_octant(r, 0);
    assert(r * r - m * m >= 0) by (nonlinear_arith)
        requires
            0 <= m <= r,
    ;
    lemma_root(r * r - m * m, r);
    if m < r {
        lemma_arc_step(r, m);
    }
    assert forall|i: int| 0 <= i <= m implies 0 <= #[trigger] arc_x(r, i) <= r by {
        assert(r * r - i * i >= 0) by (nonlinear_arith)
            requires
                0 <= i <= r,
        ;
        lemma_root(r * r - i * i, r);
    }
}

proof fn lemma_arc_adjacent(r: int, i: int)
    requires
        r >= 1,
        0 <= i < octant_end(r, 0),
    ensures
        abs(arc_x(r, i + 1) - arc_x(r, i)) <= 1,
{
    lemma_arc_start(r);
    assert(i + 1 <= arc_x(r, i + 1));
    lemma_arc_step(r, i);
}

/// The circle's samples all lie within one unit of distance `r` from the center
/// (between `r - 1` and `r`), each is an 8-connected neighbour of the next, and
/// the last sample closes the loop onto the first.
pub proof fn lemma_circle_shape(c: (int, int), r: int)
    requires
        r >= 1,
    ensures
        circle_seq(c, r).len() == 8 * (octant_end(r, 0) + 1),
        forall|k: int|
            0 <= k < circle_seq(c, r).len() ==> (r - 1) * (r - 1) <= (#[trigger] circle_seq(c, r)[k].0
                - c.0) * (circle_seq(c, r)[k].0 - c.0) + (circle_seq(c, r)[k].1 - c.1) * (circle_seq(
                c,
                r,
            )[k].1 - c.1) <= r * r,
        connected(circle_seq(c, r)),
        adjacent(circle_seq(c, r)[circle_seq(c, r).len() - 1], circle_seq(c, r)[0]),
{
    let s = circle_seq(c, r);
    let m = octant_end(r, 0);
    let l = m + 1;
    lemma_arc_start(r);
    assert forall|k: int| 0 <= k < s.len() implies (r - 1) * (r - 1) <= (#[trigger] s[k].0 - c.0)
        * (s[k].0 - c.0) + (s[k].1 - c.1) * (s[k].1 - c.1) <= r * r by {
        let o = circle_offset(r, k);
        let i = if k < l {
            k
        } else if k < 2 * l {
            2 * l - 1 - k
        } else if k < 3 * l {
            k - 2 * l
        } else if k < 4 * l {
            4 * l - 1 - k
        } else if k < 5 * l {
            k - 4 * l
        } else if k < 6 * l {
            6 * l - 1 - k
        } else if k < 7 * l {
            k - 6 * l
        } else {
            8 * l - 1 - k
        };
        lemma_arc_distance(r, i);
        let a = arc_x(r, i);
        assert(o.0 * o.0 + o.1 * o.1 == a * a + i * i) by (nonlinear_arith)
            requires
                o.0 == a || o.0 == -a || o.0 == i || o.0 == -i,
                o.1 == a || o.1 == -a || o.1 == i || o.1 == -i,
                (o.0 == a || o.0 == -a) <==> !(o.1 == a || o.1 == -a) || a == i || a == -i,
                (o.0 == a || o.0 == -a) ==> (o.1 == i || o.1 == -i),
                (o.0 == i || o.0 == -i) ==> (o.1 == a || o.1 == -a),
        ;
        assert(s[k].0 - c.0 == o.0);
        assert(s[k].1 - c.1 == o.1);
    }
    assert forall|k: int| 0 <= k < s.len() - 1 implies #[trigger] adjacent(s[k], s[k + 1]) by {
        if k + 1 < l {
            lemma_arc_adjacent(r, k);
        } else if k + 1 == l || k + 1 == 2 * l || k + 1 == 3 * l || k + 1 == 4 * l || k + 1 == 5
            * l || k + 1 == 6 * l || k + 1 == 7 * l {
        } else if k + 1 < 2 * l {
            lemma_arc_adjacent(r, 2 * l - 2 - k);
        } else if k + 1 < 3 * l {
            lemma_arc_adjacent(r, k - 2 * l);
        } else if k + 1 < 4 * l {
            lemma_arc_adjacent(r, 4 * l - 2 - k);
        } else if k + 1 < 5 * l {
            lemma_arc_adjacent(r, k - 4 * l);
        } else if k + 1 < 6 * l {
            lemma_arc_adjacent(r, 6 * l - 2 - k);
        } else if k + 1 < 7 * l {
            lemma_arc_adjacent(r, k - 6 * l);
        } else {
            lemma_arc_adjacent(r, 8 * l - 2 - k);
        }
    }
}


/// The columns of the first octant of the circle of radius `r`, row by row from
/// row 0 down to the diagonal, found by stepping inwards from `r`.
fn octant_columns(r: i64) -> (xs: Vec<i64>)
    requires
        1 <= r <= i32::MAX,
    ensures
        xs@.len() == octant_end(r as int, 0) + 1,
        forall|i: int| 0 <= i < xs@.len() ==> #[trigger] xs@[i] == arc_x(r as int, i),
{
    proof {
        lemma_arc_start(r as int);
    }
    let mut xs: Vec<i64> = Vec::new();
    let mut y: i64 = 0;
    let mut x: i64 = r;
    xs.push(r);
    let mut going = true;
    while going
        invariant
            1 <= r <= i32::MAX,
            0 <= y <= r,
            x == arc_x(r as int, y as int),
            y <= x <= r,
            going ==> octant_end(r as int, 0) == octant_end(r as int, y as int),
            !going ==> octant_end(r as int, 0) == y,
            xs@.len() == y + 1,
            forall|i: int| 0 <= i <= y ==> #[trigger] xs@[i] == arc_x(r as int, i),
        decreases r - y + if going { 1int } else { 0int },
    {
        if y >= r {
            going = false;
        } else {
            let ghost ty = r * r - y * y;
            proof {
                assert(r * r <= 0x4000_0000_0000_0000 && (y + 1) * (y + 1) <= r * r) by (
                nonlinear_arith)
                    requires
                        1 <= r <= i32::MAX,
                        0 <= y < r,
                ;
                assert(x * x <= r * r) by (nonlinear_arith)
                    requires
                        0 <= x <= r,
                ;
            }
            let t: i64 = r * r - (y + 1) * (y + 1);
            proof {
                assert(0 <= t < ty && ty == r * r - y * y) by (nonlinear_arith)
                    requires
                        0 <= y < r,
                        t == r * r - (y + 1) * (y + 1),
                        ty == r * r - y * y,
                ;
                lemma_root(ty, r as int);
            }
            let mut nx: i64 = x;
            while nx * nx > t
                invariant
                    1 <= r <= i32::MAX,
                    0 <= t,
                    0 <= nx <= r,
                    nx == r || (nx + 1) * (nx + 1) > t,
                    r * r <= 0x4000_0000_0000_0000,
                    nx * nx <= r * r,
                decreases nx,
            {
                proof {
                    assert(nx > 0) by (nonlinear_arith)
                        requires
                            nx * nx > t,
                            t >= 0,
                            nx >= 0,
                    ;
                }
                nx = nx - 1;
                proof {
                    assert(nx * nx <= r * r) by (nonlinear_arith)
                        requires
                            0 <= nx <= r,
                    ;
                }
            }
            proof {
                lemma_root_unique(t as int, r as int, nx as int);
            }
            if y + 1 <= nx {
                y = y + 1;
                x = nx;
                xs.push(nx);
            } else {
                going = false;
            }
        }
    }
    xs
}

/// Samples the boundary of the circle with center `c` and radius `r`, in angular order.
pub fn circle_pixels(c: Point, r: i32) -> (v: Vec<(i64, i64)>)
    requires
        r >= 1,
    ensures
        pixels_view(v@) == circle_seq(c@, r as int),
{
    let xs = octant_columns(r as i64);
    proof {
        lemma_arc_start(r as int);
    }
    let l: i64 = xs.len() as i64;
    let cx = c.x as i64;
    let cy = c.y as i64;
    let mut out: Vec<(i64, i64)> = Vec::new();
    let mut k: i64 = 0;
    while k < 8 * l
        invariant
            l == xs@.len(),
            l == octant_end(r as int, 0) + 1,
            1 <= l <= r + 1,
            r <= i32::MAX,
            forall|i: int| 0 <= i < l ==> #[trigger] xs@[i] == arc_x(r as int, i),
            forall|i: int| 0 <= i < l ==> 0 <= #[trigger] arc_x(r as int, i) <= r,
            cx == c.x,
            cy == c.y,
            0 <= k <= 8 * l,
            out@.len() == k,
            forall|t: int|
                0 <= t < k ==> (#[trigger] out@[t].0 as int, out@[t].1 as int) == (c@.0
                    + circle_offset(r as int, t).0, c@.1 + circle_offset(r as int, t).1),
        decreases 8 * l - k,
    {
        let (ox, oy): (i64, i64) = if k < l {
            (xs[k as usize], k)
        } else if k < 2 * l {
            let j = 2 * l - 1 - k;
            (j, xs[j as usize])
        } else if k < 3 * l {
            let i = k - 2 * l;
            (-i, xs[i as usize])
        } else if k < 4 * l {
            let j = 4 * l - 1 - k;
            (-xs[j as usize], j)
        } else if k < 5 * l {
            let i = k - 4 * l;
            (-xs[i as usize], -i)
        } else if k < 6 * l {
            let j = 6 * l - 1 - k;
            (-j, -xs[j as usize])
        } else if k < 7 * l {
            let i = k - 6 * l;
            (i, -xs[i as usize])
        } else {
            let j = 8 * l - 1 - k;
            (xs[j as usize], -j)
        };
        out.push((cx + ox, cy + oy));
        k = k + 1;
    }
    proof {
        assert(pixels_view(out@) =~= circle_seq(c@, r as int));
    }
    out
}

} // verus!
