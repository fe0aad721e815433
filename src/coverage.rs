use vstd::prelude::*;
use crate::frame::FIXED_ONE;
use crate::math::Vec2;

verus! {

/// Largest magnitude of a line endpoint coordinate for which the exact
/// distance test fits in 128-bit arithmetic.
pub const COORD_LIMIT: i32 = 16777216;

pub open spec fn min3(a: int, b: int, c: int) -> int {
    if a <= b && a <= c {
        a
    } else if b <= c {
        b
    } else {
        c
    }
}

pub open spec fn max3(a: int, b: int, c: int) -> int {
    if a >= b && a >= c {
        a
    } else if b >= c {
        b
    } else {
        c
    }
}

pub proof fn lemma_mul_bound(a: int, b: int, ba: int, bb: int)
    requires
        -ba <= a <= ba,
        -bb <= b <= bb,
    ensures
        -(ba * bb) <= a * b <= ba * bb,
{
    assert(-(ba * bb) <= a * b <= ba * bb) by (nonlinear_arith)
        requires
            -ba <= a <= ba,
            -bb <= b <= bb,
    ;
}

// ---------------------------------------------------------------------------
// Triangles
// ---------------------------------------------------------------------------

/// The edge function `(c - a) x (b - a)`: twice the signed area of the
/// triangle (a, b, c); its sign tells on which side of the line a-b point c lies.
pub open spec fn edge_spec(a: Vec2, b: Vec2, c: Vec2) -> int {
    (c.x - a.x) * (b.y - a.y) - (c.y - a.y) * (b.x - a.x)
}

/// The edge function of a-b at a point given in eighths of a pixel; it is
/// eight times the edge function at that point, so it has the same sign.
pub open spec fn edge_at(a: Vec2, b: Vec2, px8: int, py8: int) -> int {
    (px8 - 8 * a.x) * (b.y - a.y) - (py8 - 8 * a.y) * (b.x - a.x)
}

/// Horizontal position, in eighths of a pixel, of sample `s` (0 to 15) of a
/// pixel in column x: the sample lies at x + (s % 4 + 1/2) / 4.
pub open spec fn sample_x8(x: int, s: int) -> int {
    8 * x + 2 * (s % 4) + 1
}

/// Vertical position, in eighths of a pixel, of sample `s` of a pixel in row
/// y: the sample lies at y + (s / 4 + 1/2) / 4.
pub open spec fn sample_y8(y: int, s: int) -> int {
    8 * y + 2 * (s / 4) + 1
}

/// Sample `s` of pixel (x, y) lies inside the triangle (or on its boundary):
/// the three edge functions have the sign of the triangle's signed area.
pub open spec fn sample_inside(v1: Vec2, v2: Vec2, v3: Vec2, x: int, y: int, s: int) -> bool {
    let px = sample_x8(x, s);
    let py = sample_y8(y, s);
    let w0 = edge_at(v2, v3, px, py);
    let w1 = edge_at(v3, v1, px, py);
    let w2 = edge_at(v1, v2, px, py);
    if edge_spec(v1, v2, v3) > 0 {
        w0 >= 0 && w1 >= 0 && w2 >= 0
    } else {
        w0 <= 0 && w1 <= 0 && w2 <= 0
    }
}

/// How many of the first `n` samples of pixel (x, y) lie inside the triangle.
pub open spec fn samples_inside(v1: Vec2, v2: Vec2, v3: Vec2, x: int, y: int, n: int) -> int
    decreases n,
{
    if n <= 0 {
        0
    } else {
        samples_inside(v1, v2, v3, x, y, n - 1) + if sample_inside(v1, v2, v3, x, y, n - 1) {
            1int
        } else {
            0int
        }
    }
}

/// Pixel (x, y) lies in the triangle's bounding box, padded by one pixel.
pub open spec fn in_triangle_box(v1: Vec2, v2: Vec2, v3: Vec2, x: int, y: int) -> bool {
    min3(v1.x as int, v2.x as int, v3.x as int) - 1 <= x <= max3(
        v1.x as int,
        v2.x as int,
        v3.x as int,
    ) + 1 && min3(v1.y as int, v2.y as int, v3.y as int) - 1 <= y <= max3(
        v1.y as int,
        v2.y as int,
        v3.y as int,
    ) + 1
}

/// Alpha (in units of `FIXED_ONE`) at which a filled triangle covers pixel
/// (x, y): the fraction of its 4 x 4 samples that lie inside. A degenerate
/// triangle (zero area) covers nothing.
pub open spec fn triangle_coverage(v1: Vec2, v2: Vec2, v3: Vec2, x: int, y: int) -> int {
    if edge_spec(v1, v2, v3) != 0 && in_triangle_box(v1, v2, v3, x, y) {
        16 * samples_inside(v1, v2, v3, x, y, 16)
    } else {
        0
    }
}

/// Edge function at a point in eighths of a pixel.
fn edge_at_exec(a: Vec2, b: Vec2, px8: i128, py8: i128) -> (r: i128)
    requires
        -0x1000_0000_0000 <= px8 <= 0x1000_0000_0000,
        -0x1000_0000_0000 <= py8 <= 0x1000_0000_0000,
    ensures
        r == edge_at(a, b, px8 as int, py8 as int),
{
    let ux = px8 - 8 * (a.x as i128);
    let uy = py8 - 8 * (a.y as i128);
    let dx = (b.x as i128) - (a.x as i128);
    let dy = (b.y as i128) - (a.y as i128);
    proof {
        lemma_mul_bound(ux as int, dy as int, 0x2000_0000_0000, 0x1_0000_0000);
        lemma_mul_bound(uy as int, dx as int, 0x2000_0000_0000, 0x1_0000_0000);
    }
    ux * dy - uy * dx
}

/// Counts the samples of pixel (x, y) that lie inside the triangle.
fn count_samples(v1: Vec2, v2: Vec2, v3: Vec2, positive: bool, x: i64, y: i64) -> (r: u32)
    requires
        positive == (edge_spec(v1, v2, v3) > 0),
        -0x1_0000_0000 <= x <= 0x1_0000_0000,
        -0x1_0000_0000 <= y <= 0x1_0000_0000,
    ensures
        r == samples_inside(v1, v2, v3, x as int, y as int, 16),
        r <= 16,
{
    let mut count: u32 = 0;
    let mut s: u32 = 0;
    while s < 16
        invariant
            0 <= s <= 16,
            -0x1_0000_0000 <= x <= 0x1_0000_0000,
            -0x1_0000_0000 <= y <= 0x1_0000_0000,
            positive == (edge_spec(v1, v2, v3) > 0),
            count == samples_inside(v1, v2, v3, x as int, y as int, s as int),
            count <= s,
        decreases 16 - s,
    {
        assert(0 <= s % 4 < 4 && 0 <= s / 4 < 4);
        let px = 8 * (x as i128) + 2 * ((s % 4) as i128) + 1;
        let py = 8 * (y as i128) + 2 * ((s / 4) as i128) + 1;
        let w0 = edge_at_exec(v2, v3, px, py);
        let w1 = edge_at_exec(v3, v1, px, py);
        let w2 = edge_at_exec(v1, v2, px, py);
        let inside = if positive {
            w0 >= 0 && w1 >= 0 && w2 >= 0
        } else {
            w0 <= 0 && w1 <= 0 && w2 <= 0
        };
        if inside {
            count += 1;
        }
        s += 1;
    }
    count
}

/// Alpha at which a non-degenerate triangle covers a pixel of its padded box.
pub(crate) fn triangle_alpha(v1: Vec2, v2: Vec2, v3: Vec2, positive: bool, x: i64, y: i64) -> (r: u32)
    requires
        edge_spec(v1, v2, v3) != 0,
        positive == (edge_spec(v1, v2, v3) > 0),
        in_triangle_box(v1, v2, v3, x as int, y as int),
    ensures
        r == triangle_coverage(v1, v2, v3, x as int, y as int),
{
    16 * count_samples(v1, v2, v3, positive, x, y)
}

} // verus!

verus! {

// ---------------------------------------------------------------------------
// Lines
// ---------------------------------------------------------------------------

/// A line endpoint whose coordinates lie within `COORD_LIMIT`.
pub open spec fn endpoint_fits(p: Vec2) -> bool {
    -COORD_LIMIT <= p.x <= COORD_LIMIT && -COORD_LIMIT <= p.y <= COORD_LIMIT
}

/// Four times the squared distance from the centre (x + 1/2, y + 1/2) of a
/// pixel to the segment a-b, as a fraction (numerator, denominator). The
/// nearest point of the segment is the projection onto the line a-b, its
/// parameter clamped to [0, 1]; below, all vectors are doubled so that the
/// pixel centre has integer coordinates.
pub open spec fn segment_distance4(a: Vec2, b: Vec2, x: int, y: int) -> (int, int) {
    let wx = 2 * (x - a.x) + 1;
    let wy = 2 * (y - a.y) + 1;
    let dx = b.x - a.x;
    let dy = b.y - a.y;
    let len2 = dx * dx + dy * dy;
    let dot = wx * dx + wy * dy;
    if dot <= 0 {
        (wx * wx + wy * wy, 1)
    } else if dot >= 2 * len2 {
        let ux = 2 * (x - b.x) + 1;
        let uy = 2 * (y - b.y) + 1;
        (ux * ux + uy * uy, 1)
    } else {
        let cross = wx * dy - wy * dx;
        (cross * cross, len2)
    }
}

/// Alpha `a` (in units of `FIXED_ONE`) lies under the stroke's falloff at the
/// distance `d` with `4 d^2 = num / den`: `a <= FIXED_ONE * (half + 1/2 - d)`,
/// where `half` is half the thickness and `k = thickness + FIXED_ONE`, both in
/// units of `FIXED_ONE`. Squared, that is `2a <= k` and `65536 * 4d^2 <= (k - 2a)^2`.
pub open spec fn alpha_fits(a: int, k: int, num: int, den: int) -> bool {
    2 * a <= k && 65536 * num <= den * ((k - 2 * a) * (k - 2 * a))
}

/// The largest alpha up to `n` that fits, or 0.
pub open spec fn largest_fit(n: int, k: int, num: int, den: int) -> int
    decreases n,
{
    if n <= 0 {
        0
    } else if alpha_fits(n, k, num, den) {
        n
    } else {
        largest_fit(n - 1, k, num, den)
    }
}

/// Margin of the box searched around a segment: at least half the thickness
/// plus one pixel.
pub open spec fn line_pad(thickness: int) -> int {
    thickness / 512 + 2
}

/// Pixel (x, y) lies in the segment's bounding box, widened by `line_pad`.
pub open spec fn in_line_box(a: Vec2, b: Vec2, thickness: int, x: int, y: int) -> bool {
    let pad = line_pad(thickness);
    let (lo_x, hi_x) = if a.x <= b.x {
        (a.x as int, b.x as int)
    } else {
        (b.x as int, a.x as int)
    };
    let (lo_y, hi_y) = if a.y <= b.y {
        (a.y as int, b.y as int)
    } else {
        (b.y as int, a.y as int)
    };
    lo_x - pad <= x <= hi_x + pad && lo_y - pad <= y <= hi_y + pad
}

/// Alpha (in units of `FIXED_ONE`) at which a stroke of the given thickness
/// (in units of `FIXED_ONE`) along the segment a-b covers pixel (x, y): its
/// pixel-centre distance `d` to the segment gives
/// `clamp(half + 1/2 - d, 0, 1)`, rounded down to a whole unit. A segment of
/// zero length covers nothing.
pub open spec fn line_coverage(a: Vec2, b: Vec2, thickness: int, x: int, y: int) -> int {
    if a != b && in_line_box(a, b, thickness, x, y) {
        let (num, den) = segment_distance4(a, b, x, y);
        largest_fit(FIXED_ONE as int, thickness + FIXED_ONE, num, den)
    } else {
        0
    }
}

pub proof fn lemma_fits_lower(a: int, c: int, k: int, num: int, den: int)
    requires
        alpha_fits(a, k, num, den),
        0 <= c <= a,
        den >= 0,
    ensures
        alpha_fits(c, k, num, den),
{
    assert(den * ((k - 2 * a) * (k - 2 * a)) <= den * ((k - 2 * c) * (k - 2 * c))) by (nonlinear_arith)
        requires
            2 * a <= k,
            0 <= c <= a,
            den >= 0,
    ;
}

pub proof fn lemma_largest_fit_range(n: int, k: int, num: int, den: int)
    ensures
        0 <= largest_fit(n, k, num, den),
        n >= 0 ==> largest_fit(n, k, num, den) <= n,
        largest_fit(n, k, num, den) > 0 ==> alpha_fits(largest_fit(n, k, num, den), k, num, den),
    decreases n,
{
    if n > 0 {
        lemma_largest_fit_range(n - 1, k, num, den);
    }
}

fn square_sum(p: i128, q: i128) -> (r: i128)
    requires
        -0x1000_0000 <= p <= 0x1000_0000,
        -0x1000_0000 <= q <= 0x1000_0000,
    ensures
        r == p * p + q * q,
        0 <= r <= 0x2_0000_0000_0000_00,
{
    proof {
        lemma_mul_bound(p as int, p as int, 0x1000_0000, 0x1000_0000);
        lemma_mul_bound(q as int, q as int, 0x1000_0000, 0x1000_0000);
        assert(p * p >= 0 && q * q >= 0) by (nonlinear_arith);
    }
    p * p + q * q
}

fn segment_distance4_exec(a: Vec2, b: Vec2, x: i64, y: i64) -> (r: (i128, i128))
    requires
        endpoint_fits(a),
        endpoint_fits(b),
        -0x200_0000 <= x <= 0x200_0000,
        -0x200_0000 <= y <= 0x200_0000,
    ensures
        r.0 == segment_distance4(a, b, x as int, y as int).0,
        r.1 == segment_distance4(a, b, x as int, y as int).1,
        0 <= r.0 <= 0x4000_0000_0000_0000_0000_0000_0000,
        1 <= r.1 <= 0x10_0000_0000_0000,
{
    let wx = 2 * ((x as i128) - (a.x as i128)) + 1;
    let wy = 2 * ((y as i128) - (a.y as i128)) + 1;
    let dx = (b.x as i128) - (a.x as i128);
    let dy = (b.y as i128) - (a.y as i128);
    let len2 = square_sum(dx, dy);
    proof {
        lemma_mul_bound(dx as int, dx as int, 0x200_0000, 0x200_0000);
        lemma_mul_bound(dy as int, dy as int, 0x200_0000, 0x200_0000);
        assert(len2 == 0 ==> dx == 0 && dy == 0) by (nonlinear_arith)
            requires
                len2 == dx * dx + dy * dy,
        ;
        lemma_mul_bound(wx as int, dx as int, 0x1000_0000, 0x400_0000);
        lemma_mul_bound(wy as int, dy as int, 0x1000_0000, 0x400_0000);
        lemma_mul_bound(wx as int, dy as int, 0x1000_0000, 0x400_0000);
        lemma_mul_bound(wy as int, dx as int, 0x1000_0000, 0x400_0000);
    }
    let dot = wx * dx + wy * dy;
    if dot <= 0 {
        (square_sum(wx, wy), 1)
    } else if dot >= 2 * len2 {
        let ux = 2 * ((x as i128) - (b.x as i128)) + 1;
        let uy = 2 * ((y as i128) - (b.y as i128)) + 1;
        (square_sum(ux, uy), 1)
    } else {
        let cross = wx * dy - wy * dx;
        proof {
            lemma_mul_bound(cross as int, cross as int, 0x80_0000_0000_0000, 0x80_0000_0000_0000);
            assert(cross * cross >= 0) by (nonlinear_arith);
        }
        (cross * cross, len2)
    }
}

fn alpha_fits_exec(a: u32, k: i128, num: i128, den: i128) -> (r: bool)
    requires
        a <= 256,
        256 <= k <= 0x2_0000_0000,
        0 <= num <= 0x4000_0000_0000_0000_0000_0000_0000,
        1 <= den <= 0x10_0000_0000_0000,
    ensures
        r == alpha_fits(a as int, k as int, num as int, den as int),
{
    let twice = 2 * (a as i128);
    if twice > k {
        return false;
    }
    let m = k - twice;
    proof {
        lemma_mul_bound(m as int, m as int, 0x2_0000_0000, 0x2_0000_0000);
        assert(m * m >= 0) by (nonlinear_arith);
        lemma_mul_bound(den as int, (m * m) as int, 0x10_0000_0000_0000, 0x4_0000_0000_0000_0000);
    }
    65536 * num <= den * (m * m)
}

/// Alpha at which a stroke along a segment of positive length covers a pixel
/// of its widened box.
pub(crate) fn line_alpha(a: Vec2, b: Vec2, thickness: u32, x: i64, y: i64) -> (r: u32)
    requires
        a != b,
        endpoint_fits(a),
        endpoint_fits(b),
        in_line_box(a, b, thickness as int, x as int, y as int),
    ensures
        r == line_coverage(a, b, thickness as int, x as int, y as int),
{
    let (num, den) = segment_distance4_exec(a, b, x, y);
    let k = (thickness as i128) + 256;
    let ghost goal = largest_fit(256, k as int, num as int, den as int);
    if !alpha_fits_exec(1, k, num, den) {
        proof {
            lemma_largest_fit_range(256, k as int, num as int, den as int);
            if goal > 0 {
                lemma_fits_lower(goal, 1, k as int, num as int, den as int);
            }
        }
        return 0;
    }
    let mut alpha: u32 = 256;
    let mut found = false;
    while alpha > 0 && !found
        invariant
            0 <= alpha <= 256,
            256 <= k <= 0x2_0000_0000,
            0 <= num <= 0x4000_0000_0000_0000_0000_0000_0000,
            1 <= den <= 0x10_0000_0000_0000,
            largest_fit(alpha as int, k as int, num as int, den as int) == goal,
            found ==> alpha_fits(alpha as int, k as int, num as int, den as int),
        decreases 2 * alpha + if found {
            0int
        } else {
            1int
        },
    {
        if alpha_fits_exec(alpha, k, num, den) {
            found = true;
        } else {
            alpha -= 1;
        }
    }
    alpha
}

} // verus!

verus! {

proof fn lemma_edge_at_swap(a: Vec2, b: Vec2, px8: int, py8: int)
    ensures
        edge_at(b, a, px8, py8) == -edge_at(a, b, px8, py8),
{
    let (ax, ay, bx, by) = (a.x as int, a.y as int, b.x as int, b.y as int);
    assert((px8 - 8 * bx) * (ay - by) - (py8 - 8 * by) * (ax - bx) == -((px8 - 8 * ax) * (by - ay)
        - (py8 - 8 * ay) * (bx - ax))) by (nonlinear_arith);
}

proof fn lemma_samples_winding(v1: Vec2, v2: Vec2, v3: Vec2, x: int, y: int, n: int)
    requires
        edge_spec(v1, v2, v3) != 0,
    ensures
        samples_inside(v1, v3, v2, x, y, n) == samples_inside(v1, v2, v3, x, y, n),
    decreases n,
{
    if n > 0 {
        lemma_samples_winding(v1, v2, v3, x, y, n - 1);
        let px = sample_x8(x, n - 1);
        let py = sample_y8(y, n - 1);
        lemma_edge_at_swap(v2, v3, px, py);
        lemma_edge_at_swap(v3, v1, px, py);
        lemma_edge_at_swap(v1, v2, px, py);
        assert(edge_spec(v1, v3, v2) == -edge_spec(v1, v2, v3)) by (nonlinear_arith);
        assert(sample_inside(v1, v3, v2, x, y, n - 1) == sample_inside(v1, v2, v3, x, y, n - 1));
    }
}

/// A filled triangle covers each pixel alike whichever winding its vertices
/// are listed in: reversing their order (which reverses the winding) changes
/// no coverage.
pub proof fn lemma_triangle_winding(v1: Vec2, v2: Vec2, v3: Vec2, x: int, y: int)
    ensures
        triangle_coverage(v1, v3, v2, x, y) == triangle_coverage(v1, v2, v3, x, y),
{
    assert(edge_spec(v1, v3, v2) == -edge_spec(v1, v2, v3)) by (nonlinear_arith);
    if edge_spec(v1, v2, v3) != 0 {
        lemma_samples_winding(v1, v2, v3, x, y, 16);
    }
}

proof fn lemma_fits_wider(a: int, k1: int, k2: int, num: int, den: int)
    requires
        alpha_fits(a, k1, num, den),
        k1 <= k2,
        den >= 0,
    ensures
        alpha_fits(a, k2, num, den),
{
    assert(den * ((k1 - 2 * a) * (k1 - 2 * a)) <= den * ((k2 - 2 * a) * (k2 - 2 * a))) by (nonlinear_arith)
        requires
            2 * a <= k1 <= k2,
            den >= 0,
    ;
}

proof fn lemma_largest_fit_wider(n: int, k1: int, k2: int, num: int, den: int)
    requires
        k1 <= k2,
        den >= 0,
    ensures
        largest_fit(n, k1, num, den) <= largest_fit(n, k2, num, den),
    decreases n,
{
    if n > 0 {
        if alpha_fits(n, k1, num, den) {
            lemma_fits_wider(n, k1, k2, num, den);
        } else {
            lemma_largest_fit_wider(n - 1, k1, k2, num, den);
            lemma_largest_fit_range(n - 1, k2, num, den);
        }
    }
}

/// A thicker stroke along the same segment covers every pixel at least as
/// much as a thinner one; so no pixel that the thinner stroke touches is left
/// untouched by the thicker.
pub proof fn lemma_thicker_line_covers_more(a: Vec2, b: Vec2, t1: int, t2: int, x: int, y: int)
    requires
        0 <= t1 <= t2,
    ensures
        line_coverage(a, b, t1, x, y) <= line_coverage(a, b, t2, x, y),
        line_coverage(a, b, t1, x, y) > 0 ==> line_coverage(a, b, t2, x, y) > 0,
{
    assert(t1 / 512 <= t2 / 512) by (nonlinear_arith)
        requires
            0 <= t1 <= t2,
    ;
    let (num, den) = segment_distance4(a, b, x, y);
    let dx = b.x - a.x;
    let dy = b.y - a.y;
    assert(dx * dx + dy * dy >= 0) by (nonlinear_arith);
    assert(den >= 0);
    lemma_largest_fit_wider(256, t1 + 256, t2 + 256, num, den);
    lemma_largest_fit_range(256, t2 + 256, num, den);
}

} // verus!
