use vstd::prelude::*;
use vstd::arithmetic::div_mod::{
    lemma_fundamental_div_mod,
    lemma_fundamental_div_mod_converse,
    lemma_mod_bound,
};

verus! {

/// Alpha and stroke thickness are fixed-point numbers: `FIXED_ONE` units are
/// full opacity, or one pixel.
pub const FIXED_ONE: u32 = 256;

/// Offset of the first byte (red) of pixel (x, y) in a row-major RGBA8 buffer.
pub open spec fn pixel_offset(width: int, x: int, y: int) -> int {
    (y * width + x) * 4
}

pub open spec fn in_bounds(width: int, height: int, x: int, y: int) -> bool {
    0 <= x < width && 0 <= y < height
}

/// Column of the pixel that byte `i` belongs to.
pub open spec fn column_of(width: int, i: int) -> int {
    (i / 4) % width
}

/// Row of the pixel that byte `i` belongs to.
pub open spec fn row_of(width: int, i: int) -> int {
    (i / 4) / width
}

/// Alpha clamped to the range [0, FIXED_ONE].
pub open spec fn clamp_alpha(alpha: int) -> int {
    if alpha < 0 {
        0
    } else if alpha > FIXED_ONE {
        FIXED_ONE as int
    } else {
        alpha
    }
}

/// One channel blended: `bg * (1 - a) + fg * a` with `a = alpha / FIXED_ONE`
/// clamped to [0, 1], rounded to the nearest integer (halves round up).
pub open spec fn blend_channel(bg: u8, fg: u8, alpha: int) -> u8 {
    let a = clamp_alpha(alpha);
    ((bg * (256 - a) + fg * a + 128) / 256) as u8
}

/// The buffer with pixel (x, y) set to `color`; unchanged when (x, y) lies
/// outside the image.
pub open spec fn with_pixel(
    frame: Seq<u8>,
    width: int,
    height: int,
    x: int,
    y: int,
    color: Seq<u8>,
) -> Seq<u8> {
    let off = pixel_offset(width, x, y);
    if in_bounds(width, height, x, y) {
        Seq::new(frame.len(), |i: int| if off <= i < off + 4 { color[i - off] } else { frame[i] })
    } else {
        frame
    }
}

/// The buffer with `color` blended into pixel (x, y) at `alpha`; unchanged
/// when (x, y) lies outside the image.
pub open spec fn with_blend(
    frame: Seq<u8>,
    width: int,
    height: int,
    x: int,
    y: int,
    color: Seq<u8>,
    alpha: int,
) -> Seq<u8> {
    let off = pixel_offset(width, x, y);
    if in_bounds(width, height, x, y) {
        Seq::new(
            frame.len(),
            |i: int|
                if off <= i < off + 4 {
                    blend_channel(frame[i], color[i - off], alpha)
                } else {
                    frame[i]
                },
        )
    } else {
        frame
    }
}

/// A buffer of `len` bytes in which every pixel is `color`.
pub open spec fn filled(len: nat, color: Seq<u8>) -> Seq<u8> {
    Seq::new(len, |i: int| color[i % 4])
}

/// The buffer after `color` has been blended into each pixel (x, y) whose
/// coverage is positive, at that coverage as alpha; other pixels keep their bytes.
pub open spec fn painted(
    frame: Seq<u8>,
    width: int,
    color: Seq<u8>,
    coverage: spec_fn(int, int) -> int,
) -> Seq<u8> {
    Seq::new(
        frame.len(),
        |i: int|
            {
                let a = coverage(column_of(width, i), row_of(width, i));
                if a > 0 {
                    blend_channel(frame[i], color[i % 4], a)
                } else {
                    frame[i]
                }
            },
    )
}

/// The part of `coverage` that a row-major sweep has reached when it stands at
/// pixel (col, row): the pixels before that one keep their coverage, the
/// others have none.
pub open spec fn swept(coverage: spec_fn(int, int) -> int, row: int, col: int) -> spec_fn(
    int,
    int,
) -> int {
    |x: int, y: int|
        if y < row || (y == row && x < col) {
            coverage(x, y)
        } else {
            0
        }
}

/// The four bytes of an in-bounds pixel lie inside the buffer and map back to it.
pub proof fn lemma_pixel_bytes(width: int, height: int, x: int, y: int, c: int)
    requires
        in_bounds(width, height, x, y),
        0 <= c < 4,
    ensures
        0 <= pixel_offset(width, x, y),
        pixel_offset(width, x, y) + 4 <= width * height * 4,
        column_of(width, pixel_offset(width, x, y) + c) == x,
        row_of(width, pixel_offset(width, x, y) + c) == y,
        (pixel_offset(width, x, y) + c) % 4 == c,
{
    let p = y * width + x;
    assert(0 <= p && p + 1 <= width * height) by (nonlinear_arith)
        requires
            0 <= x < width,
            0 <= y < height,
            p == y * width + x,
    ;
    lemma_fundamental_div_mod_converse(p * 4 + c, 4, p, c);
    lemma_fundamental_div_mod_converse(p, width, y, x);
}

/// Every byte of the buffer belongs to an in-bounds pixel.
pub proof fn lemma_byte_pixel(width: int, height: int, i: int)
    requires
        width >= 0,
        height >= 0,
        0 <= i < width * height * 4,
    ensures
        in_bounds(width, height, column_of(width, i), row_of(width, i)),
        pixel_offset(width, column_of(width, i), row_of(width, i)) <= i,
        i < pixel_offset(width, column_of(width, i), row_of(width, i)) + 4,
        i % 4 == i - pixel_offset(width, column_of(width, i), row_of(width, i)),
{
    assert(width > 0) by (nonlinear_arith)
        requires
            0 <= i < width * height * 4,
            width >= 0,
            height >= 0,
    ;
    let p = i / 4;
    lemma_fundamental_div_mod(i, 4);
    lemma_mod_bound(i, 4);
    lemma_fundamental_div_mod(p, width);
    lemma_mod_bound(p, width);
    let q = p / width;
    let r = p % width;
    assert(0 <= q < height) by (nonlinear_arith)
        requires
            p == width * q + r,
            0 <= r < width,
            0 <= p < width * height,
    ;
    assert(q * width == width * q) by (nonlinear_arith);
    assert(pixel_offset(width, r, q) == 4 * p);
}

/// Two coverages that agree on every in-bounds pixel paint the same buffer.
pub proof fn lemma_painted_agree(
    frame: Seq<u8>,
    width: int,
    height: int,
    color: Seq<u8>,
    f: spec_fn(int, int) -> int,
    g: spec_fn(int, int) -> int,
)
    requires
        width >= 0,
        height >= 0,
        frame.len() == width * height * 4,
        forall|x: int, y: int| in_bounds(width, height, x, y) ==> #[trigger] f(x, y) == g(x, y),
    ensures
        painted(frame, width, color, f) == painted(frame, width, color, g),
{
    assert forall|i: int| 0 <= i < frame.len() implies painted(frame, width, color, f)[i]
        == painted(frame, width, color, g)[i] by {
        lemma_byte_pixel(width, height, i);
    }
    assert(painted(frame, width, color, f) =~= painted(frame, width, color, g));
}

/// One step of a sweep over the pixels: `before` has not touched (x, y) yet,
/// `after` differs from it at (x, y) alone, and blending (x, y) at its new
/// coverage (when positive) turns the one painted buffer into the other.
pub proof fn lemma_paint_step(
    frame: Seq<u8>,
    width: int,
    height: int,
    color: Seq<u8>,
    before: spec_fn(int, int) -> int,
    after: spec_fn(int, int) -> int,
    x: int,
    y: int,
)
    requires
        width >= 0,
        height >= 0,
        frame.len() == width * height * 4,
        color.len() == 4,
        before(x, y) <= 0,
        forall|px: int, py: int| !(px == x && py == y) ==> #[trigger] after(px, py) == before(px, py),
    ensures
        (if after(x, y) > 0 {
            with_blend(painted(frame, width, color, before), width, height, x, y, color, after(x, y))
        } else {
            painted(frame, width, color, before)
        }) == painted(frame, width, color, after),
{
    let cur = painted(frame, width, color, before);
    let next = painted(frame, width, color, after);
    let lhs = if after(x, y) > 0 {
        with_blend(cur, width, height, x, y, color, after(x, y))
    } else {
        cur
    };
    let off = pixel_offset(width, x, y);
    assert forall|i: int| 0 <= i < next.len() implies lhs[i] == next[i] by {
        lemma_byte_pixel(width, height, i);
        if in_bounds(width, height, x, y) && off <= i < off + 4 {
            lemma_pixel_bytes(width, height, x, y, i - off);
        }
    }
    assert(lhs =~= next);
}

/// Blending at full alpha replaces a channel by the incoming one; at zero
/// alpha it keeps the old one.
pub proof fn lemma_blend_extremes(bg: u8, fg: u8)
    ensures
        blend_channel(bg, fg, FIXED_ONE as int) == fg,
        blend_channel(bg, fg, 0) == bg,
{
    let (b, g) = (bg as int, fg as int);
    assert(b * (256 - 256) + g * 256 + 128 == g * 256 + 128);
    assert(b * (256 - 0) + g * 0 + 128 == b * 256 + 128);
    lemma_fundamental_div_mod_converse(g * 256 + 128, 256, g, 128);
    lemma_fundamental_div_mod_converse(b * 256 + 128, 256, b, 128);
}

} // verus!
