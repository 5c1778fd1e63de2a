use vstd::prelude::*;

use crate::color::Color;

verus! {

use vstd::math::abs;
use vstd::math::max;
use vstd::math::min;

/// The framebuffer: a grid of colors stored row by row, with pixel (0, 0) at
/// the top-left corner. Draw operations overwrite pixels in place; writes
/// outside the grid are silently discarded.
pub struct Image(pub Vec<Vec<Color>>);

/// The sign of an integer: 1, -1 or 0.
pub open spec fn signum(v: int) -> int {
    if v > 0 {
        1
    } else if v < 0 {
        -1
    } else {
        0
    }
}

/// The inside test used by the rasterizer: the point (x0, y0) is inside the
/// triangle (x1, y1), (x2, y2), (x3, y3) when the three signed areas of the
/// point against the directed edges all share the same sign. A zero area
/// matches only another zero: a point on an edge of a proper triangle fails
/// the test and is left to the outline pass, while a fully degenerate
/// triangle, where every area is zero, accepts.
pub open spec fn inside_triangle(
    x0: int,
    y0: int,
    x1: int,
    y1: int,
    x2: int,
    y2: int,
    x3: int,
    y3: int,
) -> bool {
    let a = (x1 - x0) * (y2 - y1) - (x2 - x1) * (y1 - y0);
    let b = (x2 - x0) * (y3 - y2) - (x3 - x2) * (y2 - y0);
    let c = (x3 - x0) * (y1 - y3) - (x1 - x3) * (y3 - y0);
    signum(a) == signum(b) && signum(a) == signum(c)
}

/// The stepping parameters of a digital line, fixed by its two endpoints:
/// `el` is the extent along the dominant axis, `es` along the minor axis,
/// (`sx`, `sy`) the unit step taken when the error term wraps (a step on both
/// axes), and (`px`, `py`) the unit step along the dominant axis alone.
pub struct LineDir {
    pub sx: int,
    pub sy: int,
    pub px: int,
    pub py: int,
    pub es: int,
    pub el: int,
}

pub open spec fn line_dir(x0: int, y0: int, x1: int, y1: int) -> LineDir {
    let dx = abs(x1 - x0) as int;
    let dy = abs(y1 - y0) as int;
    let sx = signum(x1 - x0);
    let sy = signum(y1 - y0);
    if dx > dy {
        LineDir { sx, sy, px: sx, py: 0, es: dy, el: dx }
    } else {
        LineDir { sx, sy, px: 0, py: sy, es: dx, el: dy }
    }
}

/// One iteration of the symmetric line-stepping recurrence: subtract the
/// minor extent from the error term; on underflow wrap it by the dominant
/// extent and step on both axes, otherwise step on the dominant axis alone.
pub open spec fn line_step(x: int, y: int, e: int, d: LineDir) -> (int, int, int) {
    let e2 = e - d.es;
    if e2 < 0 {
        (x + d.sx, y + d.sy, e2 + d.el)
    } else {
        (x + d.px, y + d.py, e2)
    }
}

/// The points visited from state (x, y, e) in the given number of further
/// steps: the current point followed by the trace of the stepped state.
pub open spec fn trace(x: int, y: int, e: int, steps: nat, d: LineDir) -> Seq<(int, int)>
    decreases steps,
{
    if steps == 0 {
        seq![(x, y)]
    } else {
        let s = line_step(x, y, e, d);
        seq![(x, y)] + trace(s.0, s.1, s.2, (steps - 1) as nat, d)
    }
}

/// All points of the digital line from (x0, y0) to (x1, y1): the stepping
/// recurrence run from the first endpoint, with the error term seeded at
/// half the dominant extent, for one step per unit of the dominant extent.
pub open spec fn line_points(x0: int, y0: int, x1: int, y1: int) -> Seq<(int, int)> {
    let d = line_dir(x0, y0, x1, y1);
    trace(x0, y0, d.el / 2, d.el as nat, d)
}

proof fn lemma_trace_len(x: int, y: int, e: int, steps: nat, d: LineDir)
    ensures
        trace(x, y, e, steps, d).len() == steps + 1,
    decreases steps,
{
    if steps > 0 {
        let s = line_step(x, y, e, d);
        lemma_trace_len(s.0, s.1, s.2, (steps - 1) as nat, d);
    }
}

/// The product of two bounded factors is bounded by the product of the
/// bounds.
proof fn lemma_mul_bound(a: int, b: int, m: int, n: int)
    by (nonlinear_arith)
    requires
        -m <= a <= m,
        -n <= b <= n,
        0 <= m,
        0 <= n,
    ensures
        -(m * n) <= a * b <= m * n,
{
}

/// The pixels filled by the bounding-box scan of a triangle with the given
/// integer corners: the scan walks the half-open bounding box of the three
/// corners and keeps the pixels that pass the inside test.
pub open spec fn scan_covered(
    i: int,
    j: int,
    x1: int,
    y1: int,
    x2: int,
    y2: int,
    x3: int,
    y3: int,
) -> bool {
    &&& min(min(x1, x2), x3) <= i < max(max(x1, x2), x3)
    &&& min(min(y1, y2), y3) <= j < max(max(y1, y2), y3)
    &&& inside_triangle(i, j, x1, y1, x2, y2, x3, y3)
}

/// The pixels written when a triangle with the given integer corners is
/// drawn: the bounding-box scan's fill together with the digital lines along
/// the three edges.
pub open spec fn triangle_covered(
    i: int,
    j: int,
    x1: int,
    y1: int,
    x2: int,
    y2: int,
    x3: int,
    y3: int,
) -> bool {
    ||| scan_covered(i, j, x1, y1, x2, y2, x3, y3)
    ||| line_points(x1, y1, x2, y2).contains((i, j))
    ||| line_points(x2, y2, x3, y3).contains((i, j))
    ||| line_points(x3, y3, x1, y1).contains((i, j))
}

/// The stepping invariant of the line recurrence: at step t, with m minor
/// steps taken so far, the error term and the current point are determined,
/// and running the remaining steps ends exactly at (x1, y1).
proof fn lemma_trace_reaches(
    x0: int,
    y0: int,
    x1: int,
    y1: int,
    d: LineDir,
    x: int,
    y: int,
    e: int,
    t: int,
    m: int,
)
    requires
        d == line_dir(x0, y0, x1, y1),
        0 <= t <= d.el,
        0 <= m <= d.es,
        d.el > 0 ==> 0 <= e < d.el,
        d.el == 0 ==> e == 0,
        e == d.el / 2 - d.es * t + d.el * m,
        if abs(x1 - x0) > abs(y1 - y0) {
            x == x0 + d.sx * t && y == y0 + d.sy * m
        } else {
            x == x0 + d.sx * m && y == y0 + d.sy * t
        },
    ensures
        trace(x, y, e, (d.el - t) as nat, d).last() == (x1, y1),
    decreases d.el - t,
{
    let xmajor = abs(x1 - x0) > abs(y1 - y0);
    if t == d.el {
        if d.el == 0 {
            assert(abs(x1 - x0) == 0 && abs(y1 - y0) == 0);
            assert(x == x0 && y == y0);
        } else {
            assert(d.el * (m - d.es) == e - d.el / 2) by (nonlinear_arith)
                requires
                    e == d.el / 2 - d.es * t + d.el * m,
                    t == d.el,
            ;
            assert(0 <= d.el / 2 < d.el);
            assert(m == d.es) by (nonlinear_arith)
                requires
                    d.el * (m - d.es) == e - d.el / 2,
                    0 <= e < d.el,
                    0 <= d.el / 2 < d.el,
                    d.el > 0,
            ;
            if xmajor {
                assert(d.sx * d.el == x1 - x0) by (nonlinear_arith)
                    requires
                        d.sx == signum(x1 - x0),
                        d.el == abs(x1 - x0),
                ;
                assert(d.sy * d.es == y1 - y0) by (nonlinear_arith)
                    requires
                        d.sy == signum(y1 - y0),
                        d.es == abs(y1 - y0),
                ;
            } else {
                assert(d.sy * d.el == y1 - y0) by (nonlinear_arith)
                    requires
                        d.sy == signum(y1 - y0),
                        d.el == abs(y1 - y0),
                ;
                assert(d.sx * d.es == x1 - x0) by (nonlinear_arith)
                    requires
                        d.sx == signum(x1 - x0),
                        d.es == abs(x1 - x0),
                ;
            }
        }
        assert(x == x1 && y == y1);
    } else {
        assert(0 <= d.es <= d.el);
        let steps = (d.el - t) as nat;
        let s = line_step(x, y, e, d);
        assert(trace(x, y, e, steps, d) == seq![(x, y)] + trace(s.0, s.1, s.2, (steps - 1) as nat, d));
        let e2 = e - d.es;
        if e2 < 0 {
            assert(m < d.es) by (nonlinear_arith)
                requires
                    e - d.es < 0,
                    e == d.el / 2 - d.es * t + d.el * m,
                    0 <= t < d.el,
                    0 <= m <= d.es,
                    0 <= d.es <= d.el,
                    0 <= d.el / 2,
            ;
            assert(e2 + d.el == d.el / 2 - d.es * (t + 1) + d.el * (m + 1)) by (nonlinear_arith)
                requires
                    e2 == e - d.es,
                    e == d.el / 2 - d.es * t + d.el * m,
            ;
            if xmajor {
                assert(s.0 == x0 + d.sx * (t + 1) && s.1 == y0 + d.sy * (m + 1)) by (nonlinear_arith)
                    requires
                        s.0 == x + d.sx && s.1 == y + d.sy,
                        x == x0 + d.sx * t && y == y0 + d.sy * m,
                ;
            } else {
                assert(s.0 == x0 + d.sx * (m + 1) && s.1 == y0 + d.sy * (t + 1)) by (nonlinear_arith)
                    requires
                        s.0 == x + d.sx && s.1 == y + d.sy,
                        x == x0 + d.sx * m && y == y0 + d.sy * t,
                ;
            }
            lemma_trace_reaches(x0, y0, x1, y1, d, s.0, s.1, s.2, t + 1, m + 1);
        } else {
            assert(e2 == d.el / 2 - d.es * (t + 1) + d.el * m) by (nonlinear_arith)
                requires
                    e2 == e - d.es,
                    e == d.el / 2 - d.es * t + d.el * m,
            ;
            if xmajor {
                assert(d.px == d.sx && d.py == 0);
                assert(s.0 == x0 + d.sx * (t + 1) && s.1 == y0 + d.sy * m) by (nonlinear_arith)
                    requires
                        s.0 == x + d.sx && s.1 == y,
                        x == x0 + d.sx * t && y == y0 + d.sy * m,
                ;
            } else {
                assert(d.px == 0 && d.py == d.sy);
                assert(s.0 == x0 + d.sx * m && s.1 == y0 + d.sy * (t + 1)) by (nonlinear_arith)
                    requires
                        s.0 == x && s.1 == y + d.sy,
                        x == x0 + d.sx * m && y == y0 + d.sy * t,
                ;
            }
            lemma_trace_reaches(x0, y0, x1, y1, d, s.0, s.1, s.2, t + 1, m);
        }
        lemma_trace_len(s.0, s.1, s.2, (steps - 1) as nat, d);
        assert(trace(x, y, e, steps, d).last() == trace(s.0, s.1, s.2, (steps - 1) as nat, d).last());
    }
}

/// The shape of a digital line: it visits exactly one point more than its
/// dominant extent, starting at its first endpoint and ending at its second.
pub proof fn lemma_line_points_ends(x0: int, y0: int, x1: int, y1: int)
    ensures
        line_points(x0, y0, x1, y1).len() == max(abs(x1 - x0) as int, abs(y1 - y0) as int) + 1,
        line_points(x0, y0, x1, y1).first() == (x0, y0),
        line_points(x0, y0, x1, y1).last() == (x1, y1),
{
    let d = line_dir(x0, y0, x1, y1);
    lemma_trace_len(x0, y0, d.el / 2, d.el as nat, d);
    assert(0 <= d.el / 2 && (d.el > 0 ==> d.el / 2 < d.el));
    lemma_trace_reaches(x0, y0, x1, y1, d, x0, y0, d.el / 2, 0, 0);
}

/// When the minor extent is zero the error term never wraps, so every step
/// moves along the dominant axis alone.
proof fn lemma_trace_flat(x: int, y: int, e: int, steps: nat, d: LineDir)
    requires
        d.es == 0,
        0 <= e,
    ensures
        forall|k: int|
            0 <= k < steps + 1 ==> #[trigger] trace(x, y, e, steps, d)[k] == (x + d.px * k, y
                + d.py * k),
    decreases steps,
{
    lemma_trace_len(x, y, e, steps, d);
    if steps > 0 {
        let s = line_step(x, y, e, d);
        assert(s == (x + d.px, y + d.py, e));
        lemma_trace_flat(x + d.px, y + d.py, e, (steps - 1) as nat, d);
        lemma_trace_len(x + d.px, y + d.py, e, (steps - 1) as nat, d);
        assert forall|k: int| 0 <= k < steps + 1 implies #[trigger] trace(x, y, e, steps, d)[k]
            == (x + d.px * k, y + d.py * k) by {
            if k == 0 {
                assert(d.px * 0 == 0 && d.py * 0 == 0);
            } else {
                assert(trace(x, y, e, steps, d)[k] == trace(x + d.px, y + d.py, e, (steps - 1) as nat, d)[k - 1]);
                assert(d.px + d.px * (k - 1) == d.px * k && d.py + d.py * (k - 1) == d.py * k)
                    by (nonlinear_arith);
            }
        }
    }
}

/// When the two extents are equal and the error term starts below them,
/// every step wraps the error term, so every step moves on both axes.
proof fn lemma_trace_even(x: int, y: int, e: int, steps: nat, d: LineDir)
    requires
        d.es == d.el,
        0 <= e < d.es || (d.es == 0 && e == 0 && steps == 0),
    ensures
        forall|k: int|
            0 <= k < steps + 1 ==> #[trigger] trace(x, y, e, steps, d)[k] == (x + d.sx * k, y
                + d.sy * k),
    decreases steps,
{
    lemma_trace_len(x, y, e, steps, d);
    if steps > 0 {
        let s = line_step(x, y, e, d);
        assert(s == (x + d.sx, y + d.sy, e));
        lemma_trace_even(x + d.sx, y + d.sy, e, (steps - 1) as nat, d);
        lemma_trace_len(x + d.sx, y + d.sy, e, (steps - 1) as nat, d);
        assert forall|k: int| 0 <= k < steps + 1 implies #[trigger] trace(x, y, e, steps, d)[k]
            == (x + d.sx * k, y + d.sy * k) by {
            if k == 0 {
                assert(d.sx * 0 == 0 && d.sy * 0 == 0);
            } else {
                assert(trace(x, y, e, steps, d)[k] == trace(x + d.sx, y + d.sy, e, (steps - 1) as nat, d)[k - 1]);
                assert(d.sx + d.sx * (k - 1) == d.sx * k && d.sy + d.sy * (k - 1) == d.sy * k)
                    by (nonlinear_arith);
            }
        }
    }
}

/// A horizontal line: the digital line between two points of one row visits
/// exactly the pixels of that row between its endpoints, one per column.
pub proof fn lemma_line_points_horizontal(x0: int, y0: int, x1: int)
    ensures
        line_points(x0, y0, x1, y0).len() == abs(x1 - x0) + 1,
        forall|k: int|
            0 <= k <= abs(x1 - x0) ==> #[trigger] line_points(x0, y0, x1, y0)[k] == (x0 + signum(
                x1 - x0,
            ) * k, y0),
{
    let d = line_dir(x0, y0, x1, y0);
    lemma_line_points_ends(x0, y0, x1, y0);
    assert(d.es == 0 && d.py == 0 && d.px == signum(x1 - x0) && 0 <= d.el / 2);
    lemma_trace_flat(x0, y0, d.el / 2, d.el as nat, d);
    assert forall|k: int| 0 <= k <= abs(x1 - x0) implies #[trigger] line_points(x0, y0, x1, y0)[k]
        == (x0 + signum(x1 - x0) * k, y0) by {
        assert(d.py * k == 0) by (nonlinear_arith)
            requires
                d.py == 0,
        ;
    }
}

/// A vertical line: the digital line between two points of one column
/// visits exactly the pixels of that column between its endpoints, one per
/// row.
pub proof fn lemma_line_points_vertical(x0: int, y0: int, y1: int)
    ensures
        line_points(x0, y0, x0, y1).len() == abs(y1 - y0) + 1,
        forall|k: int|
            0 <= k <= abs(y1 - y0) ==> #[trigger] line_points(x0, y0, x0, y1)[k] == (x0, y0
                + signum(y1 - y0) * k),
{
    let d = line_dir(x0, y0, x0, y1);
    lemma_line_points_ends(x0, y0, x0, y1);
    assert(d.es == 0 && d.px == 0 && d.py == signum(y1 - y0) && 0 <= d.el / 2);
    lemma_trace_flat(x0, y0, d.el / 2, d.el as nat, d);
    assert forall|k: int| 0 <= k <= abs(y1 - y0) implies #[trigger] line_points(x0, y0, x0, y1)[k]
        == (x0, y0 + signum(y1 - y0) * k) by {
        assert(d.px * k == 0) by (nonlinear_arith)
            requires
                d.px == 0,
        ;
    }
}

/// A diagonal line: when the two extents agree the digital line steps on
/// both axes at once, visiting one pixel per step.
pub proof fn lemma_line_points_diagonal(x0: int, y0: int, x1: int, y1: int)
    requires
        abs(x1 - x0) == abs(y1 - y0),
    ensures
        line_points(x0, y0, x1, y1).len() == abs(x1 - x0) + 1,
        forall|k: int|
            0 <= k <= abs(x1 - x0) ==> #[trigger] line_points(x0, y0, x1, y1)[k] == (x0 + signum(
                x1 - x0,
            ) * k, y0 + signum(y1 - y0) * k),
{
    let d = line_dir(x0, y0, x1, y1);
    lemma_line_points_ends(x0, y0, x1, y1);
    assert(d.es == d.el && d.sx == signum(x1 - x0) && d.sy == signum(y1 - y0));
    assert(0 <= d.el / 2 && (d.el > 0 ==> d.el / 2 < d.el));
    lemma_trace_even(x0, y0, d.el / 2, d.el as nat, d);
}

impl Image {
    /// Well-formed: at least one row, all rows of one positive width, and
    /// both dimensions reportable as `i32`.
    pub open spec fn wf(&self) -> bool {
        &&& 0 < self.0@.len() <= i32::MAX as int
        &&& 0 < self.0@[0]@.len() <= i32::MAX as int
        &&& forall|j: int|
            0 <= j < self.0@.len() ==> (#[trigger] self.0@[j]@.len()) == self.0@[0]@.len()
    }

    pub open spec fn spec_h(&self) -> int {
        self.0@.len() as int
    }

    pub open spec fn spec_w(&self) -> int {
        self.0@[0]@.len() as int
    }

    pub open spec fn pixel(&self, x: int, y: int) -> Color {
        self.0@[y]@[x]
    }

    pub open spec fn in_bounds(&self, x: int, y: int) -> bool {
        0 <= x < self.spec_w() && 0 <= y < self.spec_h()
    }

    /// A fresh framebuffer of the given size with every pixel black.
    pub fn new(w: usize, h: usize) -> (img: Self)
        requires
            1 <= w <= i32::MAX as usize,
            1 <= h <= i32::MAX as usize,
        ensures
            img.wf(),
            img.spec_w() == w,
            img.spec_h() == h,
            forall|x: int, y: int|
                img.in_bounds(x, y) ==> img.pixel(x, y) == (Color { r: 0, g: 0, b: 0 }),
    {
        let mut rows: Vec<Vec<Color>> = Vec::new();
        while rows.len() < h
            invariant
                rows@.len() <= h,
                forall|j: int|
                    0 <= j < rows@.len() ==> (#[trigger] rows@[j]@.len()) == w,
                forall|j: int, i: int|
                    0 <= j < rows@.len() && 0 <= i < w ==> rows@[j]@[i] == (Color {
                        r: 0,
                        g: 0,
                        b: 0,
                    }),
            decreases h - rows@.len(),
        {
            let mut row: Vec<Color> = Vec::new();
            while row.len() < w
                invariant
                    row@.len() <= w,
                    forall|i: int|
                        0 <= i < row@.len() ==> row@[i] == (Color { r: 0, g: 0, b: 0 }),
                decreases w - row@.len(),
            {
                row.push(Color::new(0, 0, 0));
            }
            rows.push(row);
        }
        Image(rows)
    }

    pub fn h(&self) -> (r: i32)
        requires
            self.wf(),
        ensures
            r == self.spec_h(),
    {
        self.0.len() as i32
    }

    pub fn w(&self) -> (r: i32)
        requires
            self.wf(),
        ensures
            r == self.spec_w(),
    {
        self.0[0].len() as i32
    }

    /// Read one pixel back; the framebuffer's only observer.
    pub fn get_pixel(&self, x: usize, y: usize) -> (c: Color)
        requires
            self.wf(),
            x < self.spec_w(),
            y < self.spec_h(),
        ensures
            c == self.pixel(x as int, y as int),
    {
        self.0[y][x]
    }

    /// Bounds-checked pixel write: a coordinate outside the grid leaves the
    /// framebuffer unchanged, never an error.
    pub fn draw_point(&mut self, x: i32, y: i32, color: &Color)
        requires
            old(self).wf(),
        ensures
            final(self).wf(),
            final(self).spec_w() == old(self).spec_w(),
            final(self).spec_h() == old(self).spec_h(),
            forall|i: int, j: int|
                old(self).in_bounds(i, j) ==> #[trigger] final(self).pixel(i, j) == (if i == x
                    as int && j == y as int {
                    *color
                } else {
                    old(self).pixel(i, j)
                }),
            !old(self).in_bounds(x as int, y as int) ==> *final(self) == *old(self),
    {
        if x < 0 || x >= self.w() {
            return ;
        }
        if y < 0 || y >= self.h() {
            return ;
        }
        let xu = x as usize;
        let yu = y as usize;
        self.0[yu][xu] = Color { r: color.r, g: color.g, b: color.b };
    }

    /// Draw the digital line between two endpoints: every point of
    /// `line_points` is written (clipped to the grid like any pixel write),
    /// and no other pixel changes.
    pub fn draw_line(&mut self, x0: i32, y0: i32, x1: i32, y1: i32, color: &Color)
        requires
            old(self).wf(),
        ensures
            final(self).wf(),
            final(self).spec_w() == old(self).spec_w(),
            final(self).spec_h() == old(self).spec_h(),
            forall|i: int, j: int|
                old(self).in_bounds(i, j) ==> #[trigger] final(self).pixel(i, j) == (if line_points(
                    x0 as int,
                    y0 as int,
                    x1 as int,
                    y1 as int,
                ).contains((i, j)) {
                    *color
                } else {
                    old(self).pixel(i, j)
                }),
    {
        let ghost orig: Image = *self;
        let ghost d = line_dir(x0 as int, y0 as int, x1 as int, y1 as int);
        let ghost pts = line_points(x0 as int, y0 as int, x1 as int, y1 as int);

        let mut dx: i64 = x1 as i64 - x0 as i64;
        let mut dy: i64 = y1 as i64 - y0 as i64;

        let sign_x: i64 = if dx > 0 {
            1
        } else if dx < 0 {
            -1
        } else {
            0
        };
        let sign_y: i64 = if dy > 0 {
            1
        } else if dy < 0 {
            -1
        } else {
            0
        };

        if dx < 0 {
            dx = -dx;
        }
        if dy < 0 {
            dy = -dy;
        }

        let pdx: i64;
        let pdy: i64;
        let es: i64;
        let el: i64;

        if dx > dy {
            pdx = sign_x;
            pdy = 0;
            es = dy;
            el = dx;
        } else {
            pdx = 0;
            pdy = sign_y;
            es = dx;
            el = dy;
        }

        let mut x: i64 = x0 as i64;
        let mut y: i64 = y0 as i64;
        let mut e: i64 = el / 2;
        let mut t: i64 = 0;
        let ghost mut m: int = 0;

        proof {
            assert(el as int == d.el && es as int == d.es && sign_x as int == d.sx && sign_y as int
                == d.sy && pdx as int == d.px && pdy as int == d.py);
            lemma_trace_len(x0 as int, y0 as int, d.el / 2, d.el as nat, d);
            assert(pts.skip(0) =~= pts);
        }

        self.draw_point(x as i32, y as i32, color);

        proof {
            assert(pts[0] == (x0 as int, y0 as int));
            assert forall|i: int, j: int| orig.in_bounds(i, j) implies #[trigger] self.pixel(i, j)
                == (if exists|k: int| 0 <= k <= t && pts[k] == (i, j) {
                *color
            } else {
                orig.pixel(i, j)
            }) by {
                if i == x0 as int && j == y0 as int {
                    assert(pts[0] == (i, j));
                }
            }
        }

        while t < el
            invariant
                self.wf(),
                orig.wf(),
                self.spec_w() == orig.spec_w(),
                self.spec_h() == orig.spec_h(),
                d == line_dir(x0 as int, y0 as int, x1 as int, y1 as int),
                pts == line_points(x0 as int, y0 as int, x1 as int, y1 as int),
                el as int == d.el,
                es as int == d.es,
                sign_x as int == d.sx,
                sign_y as int == d.sy,
                pdx as int == d.px,
                pdy as int == d.py,
                0 <= t <= el,
                0 <= m <= d.es,
                el > 0 ==> 0 <= e < el,
                el == 0 ==> e == 0,
                e as int == d.el / 2 - d.es * (t as int) + d.el * m,
                if abs(x1 as int - x0 as int) > abs(y1 as int - y0 as int) {
                    x as int == x0 as int + d.sx * (t as int) && y as int == y0 as int + d.sy * m
                } else {
                    x as int == x0 as int + d.sx * m && y as int == y0 as int + d.sy * (t as int)
                },
                min(x0 as int, x1 as int) <= x as int <= max(x0 as int, x1 as int),
                min(y0 as int, y1 as int) <= y as int <= max(y0 as int, y1 as int),
                pts.len() == el + 1,
                pts.skip(t as int) == trace(x as int, y as int, e as int, (el - t) as nat, d),
                forall|i: int, j: int|
                    orig.in_bounds(i, j) ==> #[trigger] self.pixel(i, j) == (if exists|k: int|
                        0 <= k <= t && pts[k] == (i, j) {
                        *color
                    } else {
                        orig.pixel(i, j)
                    }),
            decreases el - t,
        {
            let ghost gx = x as int;
            let ghost gy = y as int;
            let ghost ge = e as int;
            let ghost gt = t as int;

            e -= es;
            if e < 0 {
                e += el;
                x += sign_x;
                y += sign_y;
                proof {
                    assert(m < d.es) by (nonlinear_arith)
                        requires
                            ge - d.es < 0,
                            ge == d.el / 2 - d.es * gt + d.el * m,
                            0 <= gt < d.el,
                            0 <= m <= d.es,
                            0 <= d.es <= d.el,
                            0 <= d.el / 2,
                    ;
                    m = m + 1;
                }
            } else {
                x += pdx;
                y += pdy;
            }
            t += 1;

            proof {
                let s = line_step(gx, gy, ge, d);
                assert(s.0 == x as int && s.1 == y as int && s.2 == e as int);
                assert(e as int == d.el / 2 - d.es * (t as int) + d.el * m) by (nonlinear_arith)
                    requires
                        t as int == gt + 1,
                        ge == d.el / 2 - d.es * gt + d.el * (if ge - d.es < 0 {
                            m - 1
                        } else {
                            m
                        }),
                        e as int == (if ge - d.es < 0 {
                            ge - d.es + d.el
                        } else {
                            ge - d.es
                        }),
                ;
                if abs(x1 as int - x0 as int) > abs(y1 as int - y0 as int) {
                    assert(x as int == x0 as int + d.sx * (t as int) && y as int == y0 as int
                        + d.sy * m) by (nonlinear_arith)
                        requires
                            t as int == gt + 1,
                            d.px == d.sx && d.py == 0,
                            gx == x0 as int + d.sx * gt,
                            x as int == gx + d.sx,
                            if ge - d.es < 0 {
                                gy == y0 as int + d.sy * (m - 1) && y as int == gy + d.sy
                            } else {
                                gy == y0 as int + d.sy * m && y as int == gy
                            },
                    ;
                    assert(d.sx * d.el == x1 as int - x0 as int && d.sy * d.es == y1 as int - y0
                        as int) by (nonlinear_arith)
                        requires
                            d.sx == signum(x1 as int - x0 as int),
                            d.el == abs(x1 as int - x0 as int),
                            d.sy == signum(y1 as int - y0 as int),
                            d.es == abs(y1 as int - y0 as int),
                    ;
                    assert(min(x0 as int, x1 as int) <= x as int <= max(x0 as int, x1 as int))
                        by (nonlinear_arith)
                        requires
                            x as int == x0 as int + d.sx * (t as int),
                            0 <= t as int <= d.el,
                            d.sx * d.el == x1 as int - x0 as int,
                            d.sx == signum(x1 as int - x0 as int),
                    ;
                    assert(min(y0 as int, y1 as int) <= y as int <= max(y0 as int, y1 as int))
                        by (nonlinear_arith)
                        requires
                            y as int == y0 as int + d.sy * m,
                            0 <= m <= d.es,
                            d.sy * d.es == y1 as int - y0 as int,
                            d.sy == signum(y1 as int - y0 as int),
                    ;
                } else {
                    assert(x as int == x0 as int + d.sx * m && y as int == y0 as int + d.sy * (
                    t as int)) by (nonlinear_arith)
                        requires
                            t as int == gt + 1,
                            d.px == 0 && d.py == d.sy,
                            gy == y0 as int + d.sy * gt,
                            y as int == gy + d.sy,
                            if ge - d.es < 0 {
                                gx == x0 as int + d.sx * (m - 1) && x as int == gx + d.sx
                            } else {
                                gx == x0 as int + d.sx * m && x as int == gx
                            },
                    ;
                    assert(d.sy * d.el == y1 as int - y0 as int && d.sx * d.es == x1 as int - x0
                        as int) by (nonlinear_arith)
                        requires
                            d.sx == signum(x1 as int - x0 as int),
                            d.es == abs(x1 as int - x0 as int),
                            d.sy == signum(y1 as int - y0 as int),
                            d.el == abs(y1 as int - y0 as int),
                    ;
                    assert(min(x0 as int, x1 as int) <= x as int <= max(x0 as int, x1 as int))
                        by (nonlinear_arith)
                        requires
                            x as int == x0 as int + d.sx * m,
                            0 <= m <= d.es,
                            d.sx * d.es == x1 as int - x0 as int,
                            d.sx == signum(x1 as int - x0 as int),
                    ;
                    assert(min(y0 as int, y1 as int) <= y as int <= max(y0 as int, y1 as int))
                        by (nonlinear_arith)
                        requires
                            y as int == y0 as int + d.sy * (t as int),
                            0 <= t as int <= d.el,
                            d.sy * d.el == y1 as int - y0 as int,
                            d.sy == signum(y1 as int - y0 as int),
                    ;
                }
                let steps = (el as int - gt) as nat;
                assert(trace(gx, gy, ge, steps, d) == seq![(gx, gy)] + trace(
                    s.0,
                    s.1,
                    s.2,
                    (steps - 1) as nat,
                    d,
                ));
                assert(pts.skip(t as int) =~= pts.skip(gt).skip(1));
                assert(pts.skip(gt).skip(1) =~= (seq![(gx, gy)] + trace(
                    s.0,
                    s.1,
                    s.2,
                    (steps - 1) as nat,
                    d,
                )).skip(1));
                assert((seq![(gx, gy)] + trace(s.0, s.1, s.2, (steps - 1) as nat, d)).skip(1)
                    =~= trace(s.0, s.1, s.2, (steps - 1) as nat, d));
            }

            let ghost before: Image = *self;
            self.draw_point(x as i32, y as i32, color);

            proof {
                assert(pts.skip(t as int)[0] == pts[t as int]);
                assert(pts[t as int] == (x as int, y as int));
                assert(x as i32 as int == x as int && y as i32 as int == y as int);
                assert forall|i: int, j: int| orig.in_bounds(i, j) implies #[trigger] self.pixel(
                    i,
                    j,
                ) == (if exists|k: int| 0 <= k <= t as int && pts[k] == (i, j) {
                    *color
                } else {
                    orig.pixel(i, j)
                }) by {
                    if i == x as int && j == y as int {
                        assert(pts[t as int] == (i, j));
                    } else {
                        assert(self.pixel(i, j) == before.pixel(i, j));
                        if exists|k: int| 0 <= k <= t as int && pts[k] == (i, j) {
                            let k = choose|k: int| 0 <= k <= t as int && pts[k] == (i, j);
                            assert(k != t as int);
                            assert(0 <= k <= gt && pts[k] == (i, j));
                        }
                    }
                }
            }
        }

        proof {
            assert forall|i: int, j: int| orig.in_bounds(i, j) implies #[trigger] self.pixel(i, j)
                == (if pts.contains((i, j)) {
                *color
            } else {
                orig.pixel(i, j)
            }) by {
                if pts.contains((i, j)) {
                    let k = choose|k: int| 0 <= k < pts.len() && pts[k] == (i, j);
                    assert(0 <= k <= t as int && pts[k] == (i, j));
                } else {
                    if exists|k: int| 0 <= k <= t as int && pts[k] == (i, j) {
                        let k = choose|k: int| 0 <= k <= t as int && pts[k] == (i, j);
                        assert(pts.contains((i, j)));
                    }
                }
            }
        }
    }

    /// Rasterize a triangle whose corners are already mapped to integer
    /// pixel coordinates: fill every pixel of the half-open bounding box
    /// that passes the inside test, then outline the three edges. Writes
    /// are clipped to the grid; no other pixel changes.
    pub fn fill_triangle(
        &mut self,
        x1: i32,
        y1: i32,
        x2: i32,
        y2: i32,
        x3: i32,
        y3: i32,
        color: &Color,
    )
        requires
            old(self).wf(),
        ensures
            final(self).wf(),
            final(self).spec_w() == old(self).spec_w(),
            final(self).spec_h() == old(self).spec_h(),
            forall|i: int, j: int|
                old(self).in_bounds(i, j) ==> #[trigger] final(self).pixel(i, j) == (if
                triangle_covered(
                    i,
                    j,
                    x1 as int,
                    y1 as int,
                    x2 as int,
                    y2 as int,
                    x3 as int,
                    y3 as int,
                ) {
                    *color
                } else {
                    old(self).pixel(i, j)
                }),
    {
        let ghost orig: Image = *self;

        let min_x: i32 = if x1 < x2 {
            x1
        } else {
            x2
        };
        let min_x: i32 = if x3 < min_x {
            x3
        } else {
            min_x
        };
        let max_x: i32 = if x1 > x2 {
            x1
        } else {
            x2
        };
        let max_x: i32 = if x3 > max_x {
            x3
        } else {
            max_x
        };
        let min_y: i32 = if y1 < y2 {
            y1
        } else {
            y2
        };
        let min_y: i32 = if y3 < min_y {
            y3
        } else {
            min_y
        };
        let max_y: i32 = if y1 > y2 {
            y1
        } else {
            y2
        };
        let max_y: i32 = if y3 > max_y {
            y3
        } else {
            max_y
        };

        let mut x: i32 = min_x;
        while x < max_x
            invariant
                self.wf(),
                orig.wf(),
                self.spec_w() == orig.spec_w(),
                self.spec_h() == orig.spec_h(),
                min_x as int == min(min(x1 as int, x2 as int), x3 as int),
                max_x as int == max(max(x1 as int, x2 as int), x3 as int),
                min_y as int == min(min(y1 as int, y2 as int), y3 as int),
                max_y as int == max(max(y1 as int, y2 as int), y3 as int),
                min_x <= x <= max_x,
                forall|i: int, j: int|
                    orig.in_bounds(i, j) ==> #[trigger] self.pixel(i, j) == (if (min_x as int <= i
                        < x as int && min_y as int <= j < max_y as int && inside_triangle(
                        i,
                        j,
                        x1 as int,
                        y1 as int,
                        x2 as int,
                        y2 as int,
                        x3 as int,
                        y3 as int,
                    )) {
                        *color
                    } else {
                        orig.pixel(i, j)
                    }),
            decreases max_x - x,
        {
            let mut y: i32 = min_y;
            while y < max_y
                invariant
                    self.wf(),
                    orig.wf(),
                    self.spec_w() == orig.spec_w(),
                    self.spec_h() == orig.spec_h(),
                    min_x as int == min(min(x1 as int, x2 as int), x3 as int),
                    max_x as int == max(max(x1 as int, x2 as int), x3 as int),
                    min_y as int == min(min(y1 as int, y2 as int), y3 as int),
                    max_y as int == max(max(y1 as int, y2 as int), y3 as int),
                    min_x <= x < max_x,
                    min_y <= y <= max_y,
                    forall|i: int, j: int|
                        orig.in_bounds(i, j) ==> #[trigger] self.pixel(i, j) == (if ((min_x as int
                            <= i < x as int && min_y as int <= j < max_y as int || i == x as int
                            && min_y as int <= j < y as int) && inside_triangle(
                            i,
                            j,
                            x1 as int,
                            y1 as int,
                            x2 as int,
                            y2 as int,
                            x3 as int,
                            y3 as int,
                        )) {
                            *color
                        } else {
                            orig.pixel(i, j)
                        }),
                decreases max_y - y,
            {
                if Image::is_inside_triangle(x, y, x1, y1, x2, y2, x3, y3) {
                    self.draw_point(x, y, color);
                }
                y += 1;
            }
            x += 1;
        }

        let ghost after_scan: Image = *self;
        self.draw_line(x1, y1, x2, y2, color);
        self.draw_line(x2, y2, x3, y3, color);
        self.draw_line(x3, y3, x1, y1, color);

        proof {
            assert forall|i: int, j: int| orig.in_bounds(i, j) implies #[trigger] self.pixel(i, j)
                == (if triangle_covered(
                i,
                j,
                x1 as int,
                y1 as int,
                x2 as int,
                y2 as int,
                x3 as int,
                y3 as int,
            ) {
                *color
            } else {
                orig.pixel(i, j)
            }) by {
                assert(after_scan.pixel(i, j) == (if scan_covered(
                    i,
                    j,
                    x1 as int,
                    y1 as int,
                    x2 as int,
                    y2 as int,
                    x3 as int,
                    y3 as int,
                ) {
                    *color
                } else {
                    orig.pixel(i, j)
                }));
            }
        }
    }

    /// The signed-area inside test on integer pixel coordinates, computed
    /// exactly: (x0, y0) is the point, the other three pairs the triangle.
    pub fn is_inside_triangle(
        x0: i32,
        y0: i32,
        x1: i32,
        y1: i32,
        x2: i32,
        y2: i32,
        x3: i32,
        y3: i32,
    ) -> (r: bool)
        ensures
            r == inside_triangle(
                x0 as int,
                y0 as int,
                x1 as int,
                y1 as int,
                x2 as int,
                y2 as int,
                x3 as int,
                y3 as int,
            ),
    {
        let d10x: i128 = x1 as i128 - x0 as i128;
        let d21y: i128 = y2 as i128 - y1 as i128;
        let d21x: i128 = x2 as i128 - x1 as i128;
        let d10y: i128 = y1 as i128 - y0 as i128;
        let d20x: i128 = x2 as i128 - x0 as i128;
        let d32y: i128 = y3 as i128 - y2 as i128;
        let d32x: i128 = x3 as i128 - x2 as i128;
        let d20y: i128 = y2 as i128 - y0 as i128;
        let d30x: i128 = x3 as i128 - x0 as i128;
        let d13y: i128 = y1 as i128 - y3 as i128;
        let d13x: i128 = x1 as i128 - x3 as i128;
        let d30y: i128 = y3 as i128 - y0 as i128;
        proof {
            let bound: int = 0x1_0000_0000;
            lemma_mul_bound(d10x as int, d21y as int, bound, bound);
            lemma_mul_bound(d21x as int, d10y as int, bound, bound);
            lemma_mul_bound(d20x as int, d32y as int, bound, bound);
            lemma_mul_bound(d32x as int, d20y as int, bound, bound);
            lemma_mul_bound(d30x as int, d13y as int, bound, bound);
            lemma_mul_bound(d13x as int, d30y as int, bound, bound);
        }
        let a: i128 = d10x * d21y - d21x * d10y;
        let b: i128 = d20x * d32y - d32x * d20y;
        let c: i128 = d30x * d13y - d13x * d30y;
        let sa: i32 = if a > 0 {
            1
        } else if a < 0 {
            -1
        } else {
            0
        };
        let sb: i32 = if b > 0 {
            1
        } else if b < 0 {
            -1
        } else {
            0
        };
        let sc: i32 = if c > 0 {
            1
        } else if c < 0 {
            -1
        } else {
            0
        };
        sa == sb && sa == sc
    }
}

} // verus!
