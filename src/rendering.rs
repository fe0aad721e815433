use vstd::prelude::*;
use crate::coverage::{
    edge_spec, endpoint_fits, in_line_box, lemma_mul_bound, lemma_triangle_winding, line_alpha,
    line_coverage, max3, min3, triangle_alpha, triangle_coverage,
};
use crate::frame::{
    blend_channel, filled, in_bounds, lemma_paint_step, lemma_painted_agree, lemma_pixel_bytes,
    painted, pixel_offset, swept, with_blend, with_pixel, FIXED_ONE,
};
use crate::math::Vec2;

verus! {

/// A software rasterizer drawing into a row-major RGBA8 pixel buffer of
/// `width` by `height` pixels, origin at the top left.
pub struct Renderer {
    pub frame: Vec<u8>,
    pub width: usize,
    pub height: usize,
}

/// The buffer after a stroke along start-end has been drawn into it.
pub open spec fn line_painted(
    frame: Seq<u8>,
    width: int,
    start: Vec2,
    end: Vec2,
    color: Seq<u8>,
    thickness: int,
) -> Seq<u8> {
    painted(frame, width, color, |x: int, y: int| line_coverage(start, end, thickness, x, y))
}

/// The buffer after the triangle (v1, v2, v3) has been filled into it.
pub open spec fn triangle_painted(
    frame: Seq<u8>,
    width: int,
    v1: Vec2,
    v2: Vec2,
    v3: Vec2,
    color: Seq<u8>,
) -> Seq<u8> {
    painted(frame, width, color, |x: int, y: int| triangle_coverage(v1, v2, v3, x, y))
}

/// The buffer after the outline of the triangle (v1, v2, v3) has been stroked
/// into it: v1-v2, then v2-v3, then v3-v1.
pub open spec fn outline_painted(
    frame: Seq<u8>,
    width: int,
    v1: Vec2,
    v2: Vec2,
    v3: Vec2,
    color: Seq<u8>,
    thickness: int,
) -> Seq<u8> {
    line_painted(
        line_painted(line_painted(frame, width, v1, v2, color, thickness), width, v2, v3, color, thickness),
        width,
        v3,
        v1,
        color,
        thickness,
    )
}

/// `bg * (1 - a) + fg * a` for one channel, `a = alpha / FIXED_ONE`.
fn blend_byte(bg: u8, fg: u8, alpha: u32) -> (r: u8)
    requires
        alpha <= FIXED_ONE,
    ensures
        r == blend_channel(bg, fg, alpha as int),
{
    let a = alpha;
    proof {
        let (b, f, ai) = (bg as int, fg as int, a as int);
        assert(b * (256 - ai) + f * ai <= 255 * 256) by (nonlinear_arith)
            requires
                0 <= b <= 255,
                0 <= f <= 255,
                0 <= ai <= 256,
        ;
    }
    let s = (bg as u32) * (256 - a) + (fg as u32) * a + 128;
    (s / 256) as u8
}

fn min_of3(a: i32, b: i32, c: i32) -> (r: i32)
    ensures
        r == min3(a as int, b as int, c as int),
{
    if a <= b && a <= c {
        a
    } else if b <= c {
        b
    } else {
        c
    }
}

fn max_of3(a: i32, b: i32, c: i32) -> (r: i32)
    ensures
        r == max3(a as int, b as int, c as int),
{
    if a >= b && a >= c {
        a
    } else if b >= c {
        b
    } else {
        c
    }
}

impl Renderer {
    /// The buffer holds exactly four bytes per pixel.
    pub open spec fn wf(&self) -> bool {
        self.frame@.len() == self.width * self.height * 4
    }

    /// A renderer over `frame`, which holds `width * height` pixels.
    pub fn new(frame: Vec<u8>, width: usize, height: usize) -> (r: Renderer)
        requires
            frame@.len() == width * height * 4,
        ensures
            r.wf(),
            r.frame@ == frame@,
            r.width == width,
            r.height == height,
    {
        Renderer { frame, width, height }
    }

    /// Byte offset of an in-bounds pixel.
    fn offset(&self, x: usize, y: usize) -> (r: usize)
        requires
            self.wf(),
            in_bounds(self.width as int, self.height as int, x as int, y as int),
        ensures
            r == pixel_offset(self.width as int, x as int, y as int),
            r + 4 <= self.frame@.len(),
    {
        let _len = self.frame.len();
        proof {
            lemma_pixel_bytes(self.width as int, self.height as int, x as int, y as int, 0);
        }
        (y * self.width + x) * 4
    }

    /// Writes `rgba` verbatim into pixel (x, y); a pixel outside the image is
    /// ignored.
    pub fn put_pixel(&mut self, x: i32, y: i32, rgba: [u8; 4])
        requires
            old(self).wf(),
        ensures
            final(self).wf(),
            final(self).width == old(self).width,
            final(self).height == old(self).height,
            final(self).frame@ == with_pixel(
                old(self).frame@,
                old(self).width as int,
                old(self).height as int,
                x as int,
                y as int,
                rgba@,
            ),
            !in_bounds(old(self).width as int, old(self).height as int, x as int, y as int)
                ==> final(self).frame@ == old(self).frame@,
    {
        if x < 0 || y < 0 || (x as usize) >= self.width || (y as usize) >= self.height {
            return ;
        }
        let idx = self.offset(x as usize, y as usize);
        self.frame.set(idx, rgba[0]);
        self.frame.set(idx + 1, rgba[1]);
        self.frame.set(idx + 2, rgba[2]);
        self.frame.set(idx + 3, rgba[3]);
        assert(self.frame@ =~= with_pixel(
            old(self).frame@,
            self.width as int,
            self.height as int,
            x as int,
            y as int,
            rgba@,
        ));
    }

    /// Blends `color` into pixel (x, y) at `alpha` (in units of `FIXED_ONE`,
    /// clamped to full opacity), channel by channel, alpha channel included; a
    /// pixel outside the image is ignored.
    pub fn blend_pixel(&mut self, x: i32, y: i32, color: [u8; 4], alpha: u32)
        requires
            old(self).wf(),
        ensures
            final(self).wf(),
            final(self).width == old(self).width,
            final(self).height == old(self).height,
            final(self).frame@ == with_blend(
                old(self).frame@,
                old(self).width as int,
                old(self).height as int,
                x as int,
                y as int,
                color@,
                alpha as int,
            ),
            !in_bounds(old(self).width as int, old(self).height as int, x as int, y as int)
                ==> final(self).frame@ == old(self).frame@,
    {
        if x < 0 || y < 0 || (x as usize) >= self.width || (y as usize) >= self.height {
            return ;
        }
        self.blend_in_bounds(x as usize, y as usize, color, alpha);
    }

    fn blend_in_bounds(&mut self, x: usize, y: usize, color: [u8; 4], alpha: u32)
        requires
            old(self).wf(),
            in_bounds(old(self).width as int, old(self).height as int, x as int, y as int),
        ensures
            final(self).wf(),
            final(self).width == old(self).width,
            final(self).height == old(self).height,
            final(self).frame@ == with_blend(
                old(self).frame@,
                old(self).width as int,
                old(self).height as int,
                x as int,
                y as int,
                color@,
                alpha as int,
            ),
    {
        let a = if alpha > FIXED_ONE {
            FIXED_ONE
        } else {
            alpha
        };
        let idx = self.offset(x, y);
        let b0 = blend_byte(self.frame[idx], color[0], a);
        self.frame.set(idx, b0);
        let b1 = blend_byte(self.frame[idx + 1], color[1], a);
        self.frame.set(idx + 1, b1);
        let b2 = blend_byte(self.frame[idx + 2], color[2], a);
        self.frame.set(idx + 2, b2);
        let b3 = blend_byte(self.frame[idx + 3], color[3], a);
        self.frame.set(idx + 3, b3);
        assert(self.frame@ =~= with_blend(
            old(self).frame@,
            self.width as int,
            self.height as int,
            x as int,
            y as int,
            color@,
            alpha as int,
        ));
    }

    /// Blends `color` into every in-bounds pixel of the box [min_x, max_x] x
    /// [min_y, max_y] at the alpha that `alpha_at` gives there, row by row;
    /// pixels where it gives zero are left alone.
    fn sweep<F: Fn(i64, i64) -> u32>(
        &mut self,
        min_x: i64,
        max_x: i64,
        min_y: i64,
        max_y: i64,
        color: [u8; 4],
        alpha_at: F,
        Ghost(coverage): Ghost<spec_fn(int, int) -> int>,
    )
        requires
            old(self).wf(),
            max_x < i64::MAX,
            max_y < i64::MAX,
            forall|x: i64, y: i64|
                min_x <= x <= max_x && min_y <= y <= max_y ==> #[trigger] alpha_at.requires((x, y)),
            forall|x: i64, y: i64, r: u32|
                #[trigger] alpha_at.ensures((x, y), r) ==> r == coverage(x as int, y as int),
            forall|x: int, y: int|
                !(min_x <= x <= max_x && min_y <= y <= max_y) ==> #[trigger] coverage(x, y) == 0,
        ensures
            final(self).wf(),
            final(self).width == old(self).width,
            final(self).height == old(self).height,
            final(self).frame@ == painted(old(self).frame@, old(self).width as int, color@, coverage),
    {
        let ghost frame0 = self.frame@;
        let ghost w = self.width as int;
        let ghost h = self.height as int;
        let ghost nothing = |x: int, y: int| 0int;
        assert(painted(frame0, w, color@, nothing) =~= frame0);
        let x0: i64 = if min_x > 0 {
            min_x
        } else {
            0
        };
        let y0: i64 = if min_y > 0 {
            min_y
        } else {
            0
        };
        if self.width == 0 || self.height == 0 || (x0 as i128) >= (self.width as i128) || (y0
            as i128) >= (self.height as i128) || x0 > max_x || y0 > max_y {
            proof {
                assert forall|px: int, py: int| in_bounds(w, h, px, py) implies #[trigger] coverage(
                    px,
                    py,
                ) == nothing(px, py) by {
                    assert(coverage(px, py) == 0);
                }
                lemma_painted_agree(frame0, w, h, color@, coverage, nothing);
            }
            return ;
        }
        let x1: i64 = if (max_x as i128) < (self.width as i128) {
            max_x
        } else {
            (self.width - 1) as i64
        };
        let y1: i64 = if (max_y as i128) < (self.height as i128) {
            max_y
        } else {
            (self.height - 1) as i64
        };
        proof {
            assert forall|px: int, py: int| in_bounds(w, h, px, py) implies #[trigger] swept(
                coverage,
                y0 as int,
                x0 as int,
            )(px, py) == nothing(px, py) by {
                if py < y0 || (py == y0 && px < x0) {
                    assert(coverage(px, py) == 0);
                }
            }
            lemma_painted_agree(frame0, w, h, color@, swept(coverage, y0 as int, x0 as int), nothing);
        }
        let mut y = y0;
        while y <= y1
            invariant
                self.wf(),
                self.width == w,
                self.height == h,
                frame0.len() == w * h * 4,
                color@.len() == 4,
                0 <= x0 <= x1 < w,
                0 <= y0 <= y1 < h,
                min_x <= x0,
                x1 <= max_x,
                max_x < i64::MAX,
                max_y < i64::MAX,
                x0 == min_x || x0 == 0,
                x1 == max_x || x1 == w - 1,
                y0 == min_y || y0 == 0,
                y1 == max_y || y1 == h - 1,
                min_y <= y0,
                y1 <= max_y,
                y0 <= y <= y1 + 1,
                self.frame@ == painted(frame0, w, color@, swept(coverage, y as int, x0 as int)),
                forall|x: i64, y: i64|
                    min_x <= x <= max_x && min_y <= y <= max_y ==> #[trigger] alpha_at.requires((x, y)),
                forall|x: i64, y: i64, r: u32|
                    #[trigger] alpha_at.ensures((x, y), r) ==> r == coverage(x as int, y as int),
                forall|x: int, y: int|
                    !(min_x <= x <= max_x && min_y <= y <= max_y) ==> #[trigger] coverage(x, y) == 0,
            decreases y1 + 1 - y,
        {
            let mut x = x0;
            while x <= x1
                invariant
                    self.wf(),
                    self.width == w,
                    self.height == h,
                    frame0.len() == w * h * 4,
                    color@.len() == 4,
                    0 <= x0 <= x1 < w,
                    0 <= y0 <= y1 < h,
                    min_x <= x0,
                    x1 <= max_x,
                    max_x < i64::MAX,
                    max_y < i64::MAX,
                    min_y <= y0,
                    y1 <= max_y,
                    y0 <= y <= y1,
                    x0 <= x <= x1 + 1,
                    self.frame@ == painted(frame0, w, color@, swept(coverage, y as int, x as int)),
                    forall|x: i64, y: i64|
                        min_x <= x <= max_x && min_y <= y <= max_y ==> #[trigger] alpha_at.requires(
                            (x, y),
                        ),
                    forall|x: i64, y: i64, r: u32|
                        #[trigger] alpha_at.ensures((x, y), r) ==> r == coverage(x as int, y as int),
                    forall|x: int, y: int|
                        !(min_x <= x <= max_x && min_y <= y <= max_y) ==> #[trigger] coverage(x, y)
                            == 0,
                decreases x1 + 1 - x,
            {
                let a = alpha_at(x, y);
                proof {
                    lemma_paint_step(
                        frame0,
                        w,
                        h,
                        color@,
                        swept(coverage, y as int, x as int),
                        swept(coverage, y as int, x + 1),
                        x as int,
                        y as int,
                    );
                }
                if a > 0 {
                    self.blend_in_bounds(x as usize, y as usize, color, a);
                }
                x += 1;
            }
            proof {
                assert forall|px: int, py: int| in_bounds(w, h, px, py) implies #[trigger] swept(
                    coverage,
                    y as int,
                    x1 + 1,
                )(px, py) == swept(coverage, y + 1, x0 as int)(px, py) by {
                    if py == y && px > x1 {
                        assert(coverage(px, py) == 0);
                    }
                    if py == y + 1 && px < x0 {
                        assert(coverage(px, py) == 0);
                    }
                }
                lemma_painted_agree(
                    frame0,
                    w,
                    h,
                    color@,
                    swept(coverage, y as int, x1 + 1),
                    swept(coverage, y + 1, x0 as int),
                );
            }
            y += 1;
        }
        proof {
            assert forall|px: int, py: int| in_bounds(w, h, px, py) implies #[trigger] swept(
                coverage,
                y1 + 1,
                x0 as int,
            )(px, py) == coverage(px, py) by {
                if py > y1 || (py == y1 + 1 && px < x0) {
                    assert(coverage(px, py) == 0);
                }
            }
            lemma_painted_agree(frame0, w, h, color@, swept(coverage, y1 + 1, x0 as int), coverage);
        }
    }

    /// The edge function `(c - a) x (b - a)`: twice the signed area of the
    /// triangle (a, b, c).
    pub fn edge(&self, a: &Vec2, b: &Vec2, c: &Vec2) -> (r: i128)
        ensures
            r == edge_spec(*a, *b, *c),
    {
        let p = (c.x as i128) - (a.x as i128);
        let q = (b.y as i128) - (a.y as i128);
        let u = (c.y as i128) - (a.y as i128);
        let v = (b.x as i128) - (a.x as i128);
        proof {
            lemma_mul_bound(p as int, q as int, 0x1_0000_0000, 0x1_0000_0000);
            lemma_mul_bound(u as int, v as int, 0x1_0000_0000, 0x1_0000_0000);
        }
        p * q - u * v
    }

    /// Fills the triangle (v1, v2, v3), of either winding, with 4 x 4
    /// supersampled coverage as alpha; a triangle of zero area draws nothing.
    fn fill_triangle(&mut self, v1: Vec2, v2: Vec2, v3: Vec2, color: [u8; 4])
        requires
            old(self).wf(),
        ensures
            final(self).wf(),
            final(self).width == old(self).width,
            final(self).height == old(self).height,
            final(self).frame@ == triangle_painted(
                old(self).frame@,
                old(self).width as int,
                v1,
                v2,
                v3,
                color@,
            ),
    {
        let area = self.edge(&v1, &v2, &v3);
        if area == 0 {
            assert(painted(
                self.frame@,
                self.width as int,
                color@,
                |x: int, y: int| triangle_coverage(v1, v2, v3, x, y),
            ) =~= self.frame@);
            return ;
        }
        let positive = area > 0;
        let min_x = (min_of3(v1.x, v2.x, v3.x) as i64) - 1;
        let max_x = (max_of3(v1.x, v2.x, v3.x) as i64) + 1;
        let min_y = (min_of3(v1.y, v2.y, v3.y) as i64) - 1;
        let max_y = (max_of3(v1.y, v2.y, v3.y) as i64) + 1;
        let alpha_at = |x: i64, y: i64| -> (r: u32)
            requires
                edge_spec(v1, v2, v3) != 0,
                positive == (edge_spec(v1, v2, v3) > 0),
                min_x <= x <= max_x && min_y <= y <= max_y,
            ensures
                r == triangle_coverage(v1, v2, v3, x as int, y as int),
            {
                triangle_alpha(v1, v2, v3, positive, x, y)
            };
        self.sweep(
            min_x,
            max_x,
            min_y,
            max_y,
            color,
            alpha_at,
            Ghost(|x: int, y: int| triangle_coverage(v1, v2, v3, x, y)),
        );
    }

    /// Draws the segment start-end as a stroke `thickness` wide (in units of
    /// `FIXED_ONE`), with round caps and a one-pixel linear falloff at its
    /// edges, blended by coverage; a segment of zero length draws nothing.
    pub fn draw_line(&mut self, start: Vec2, end: Vec2, color: [u8; 4], thickness: u32)
        requires
            old(self).wf(),
            endpoint_fits(start),
            endpoint_fits(end),
        ensures
            final(self).wf(),
            final(self).width == old(self).width,
            final(self).height == old(self).height,
            final(self).frame@ == line_painted(
                old(self).frame@,
                old(self).width as int,
                start,
                end,
                color@,
                thickness as int,
            ),
            start == end ==> final(self).frame@ == old(self).frame@,
    {
        if start.x == end.x && start.y == end.y {
            assert(line_painted(
                self.frame@,
                self.width as int,
                start,
                end,
                color@,
                thickness as int,
            ) =~= self.frame@);
            return ;
        }
        let pad = ((thickness / 512) as i64) + 2;
        let (lo_x, hi_x) = if start.x <= end.x {
            (start.x as i64, end.x as i64)
        } else {
            (end.x as i64, start.x as i64)
        };
        let (lo_y, hi_y) = if start.y <= end.y {
            (start.y as i64, end.y as i64)
        } else {
            (end.y as i64, start.y as i64)
        };
        let alpha_at = |x: i64, y: i64| -> (r: u32)
            requires
                start != end,
                endpoint_fits(start),
                endpoint_fits(end),
                in_line_box(start, end, thickness as int, x as int, y as int),
            ensures
                r == line_coverage(start, end, thickness as int, x as int, y as int),
            {
                line_alpha(start, end, thickness, x, y)
            };
        self.sweep(
            lo_x - pad,
            hi_x + pad,
            lo_y - pad,
            hi_y + pad,
            color,
            alpha_at,
            Ghost(|x: int, y: int| line_coverage(start, end, thickness as int, x, y)),
        );
    }

    /// Draws the triangle (pos1, pos2, pos3): filled with 4 x 4 supersampled
    /// coverage when `filled`, in either winding; otherwise its outline, as
    /// three strokes `thickness` wide.
    pub fn draw_triangle(
        &mut self,
        pos1: Vec2,
        pos2: Vec2,
        pos3: Vec2,
        color: [u8; 4],
        thickness: u32,
        filled: bool,
    )
        requires
            old(self).wf(),
            !filled ==> endpoint_fits(pos1) && endpoint_fits(pos2) && endpoint_fits(pos3),
        ensures
            final(self).wf(),
            final(self).width == old(self).width,
            final(self).height == old(self).height,
            final(self).frame@ == if filled {
                triangle_painted(old(self).frame@, old(self).width as int, pos1, pos2, pos3, color@)
            } else {
                outline_painted(
                    old(self).frame@,
                    old(self).width as int,
                    pos1,
                    pos2,
                    pos3,
                    color@,
                    thickness as int,
                )
            },
            filled && edge_spec(pos1, pos2, pos3) == 0 ==> final(self).frame@ == old(self).frame@,
    {
        if !filled {
            self.draw_line(pos1, pos2, color, thickness);
            self.draw_line(pos2, pos3, color, thickness);
            self.draw_line(pos3, pos1, color, thickness);
        } else {
            assert(edge_spec(pos1, pos2, pos3) == 0 ==> triangle_painted(
                self.frame@,
                self.width as int,
                pos1,
                pos2,
                pos3,
                color@,
            ) =~= self.frame@);
            self.fill_triangle(pos1, pos2, pos3, color);
        }
    }

    /// Sets every pixel to `rgba`: afterwards each pixel's four bytes are
    /// exactly `rgba`.
    pub fn clear(&mut self, rgba: [u8; 4])
        requires
            old(self).wf(),
        ensures
            final(self).wf(),
            final(self).width == old(self).width,
            final(self).height == old(self).height,
            final(self).frame@ == filled(old(self).frame@.len(), rgba@),
            forall|i: int|
                0 <= i < final(self).frame@.len() ==> #[trigger] final(self).frame@[i] == rgba@[i % 4],
    {
        let n = self.frame.len();
        let mut i: usize = 0;
        while i < n
            invariant
                self.wf(),
                self.width == old(self).width,
                self.height == old(self).height,
                self.frame@.len() == n,
                0 <= i <= n,
                forall|j: int| 0 <= j < i ==> self.frame@[j] == rgba@[j % 4],
            decreases n - i,
        {
            self.frame.set(i, rgba[i % 4]);
            i += 1;
        }
        assert(self.frame@ =~= filled(n as nat, rgba@));
    }
}

/// Filling a triangle gives the same buffer whichever winding its vertices
/// are listed in.
pub proof fn lemma_fill_winding(frame: Seq<u8>, width: int, v1: Vec2, v2: Vec2, v3: Vec2, color: Seq<u8>)
    ensures
        triangle_painted(frame, width, v1, v3, v2, color) == triangle_painted(
            frame,
            width,
            v1,
            v2,
            v3,
            color,
        ),
{
    assert forall|x: int, y: int| #[trigger]
        triangle_coverage(v1, v3, v2, x, y) == triangle_coverage(v1, v2, v3, x, y) by {
        lemma_triangle_winding(v1, v2, v3, x, y);
    }
    assert(triangle_painted(frame, width, v1, v3, v2, color) =~= triangle_painted(
        frame,
        width,
        v1,
        v2,
        v3,
        color,
    ));
}

} // verus!
