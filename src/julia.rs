//! The Julia-set demo: an escape-time fractal whose parameter circles the
//! origin over `FRAME_MAX` frames, drawn with an animated HSV palette.
use crate::fixed::{cos_sin, cos_sin_spec, tdiv, ONE, Q};
use crate::frame::{
    abandoned_at, frame_pixel, lemma_palette_push, palette_writes, views_kept, on_screen, pix, render_checkerboard, Context, Demo, FrameOutcome, Platform, Shader,
    FB_H, FB_LEN, FB_W,
};
use vstd::prelude::*;

verus! {

/// Frames in one turn of the Julia parameter.
pub const FRAME_MAX: u32 = 300;

/// Iteration cap of the escape-time loop.
pub const ITER_MAX: i32 = 36;

/// Modulus of the Julia parameter, `0.7885` in fixed point.
pub const JULIA_MODULUS: i32 = 807;

/// Escape threshold on the squared modulus, `4` in fixed point.
pub const ESCAPE: i32 = 4096;

/// Fixed-point coordinate of pixel column `p` on an axis of `n` pixels, on
/// the scale where the shorter side of the frame spans `[-1, 1]`.
pub open spec fn julia_start(p: int, n: int) -> int {
    tdiv((p * 1024 - (n - 1) * 512) * 2, 272)
}

/// Fraction of the last step spent beyond the escape threshold, in fixed
/// point; a step of less than one unit counts as one.
pub open spec fn julia_lerp(dist: int, prev: int) -> int {
    let step = (dist - prev) / 4;
    ((dist - 4096) * 256) / if step < 1 {
        1
    } else {
        step
    }
}

/// The smooth escape time, in fixed point, of `z = (a, b)` under
/// `z -> z^2 + c` from iteration `iter` on, `prev` being the squared modulus
/// of the previous iterate.
pub open spec fn julia_escape(a: int, b: int, prev: int, iter: int, c_a: int, c_b: int) -> int
    decreases 36 - iter,
{
    if iter >= 36 {
        36864
    } else {
        let a2 = (a * a) / 1024;
        let b2 = (b * b) / 1024;
        let dist = a2 + b2;
        if dist >= 4096 {
            iter * 1024 - julia_lerp(dist, prev)
        } else {
            julia_escape(a2 - b2 + c_a, (a * b) / 512 + c_b, dist, iter + 1, c_a, c_b)
        }
    }
}

/// The palette index of pixel `(x, y)` for the parameter `(c_a, c_b)`.
pub open spec fn julia_value(x: int, y: int, c_a: int, c_b: int) -> u8 {
    let e = julia_escape(julia_start(x, 480), julia_start(y, 272), -40960, 0, c_a, c_b);
    tdiv(e * 255, 36864) as u8
}

/// The Julia parameter of frame `frame`: `JULIA_MODULUS` times the unit
/// vector at angle `frame / FRAME_MAX` of a turn.
pub open spec fn julia_param(frame: int) -> (int, int) {
    let cs = cos_sin_spec((4 * frame * 1024) / 300);
    ((807 * cs.0) / 1024, (807 * cs.1) / 1024)
}

/// The Julia demo's state: the frame counter and the parameter it gives.
pub struct Julia {
    pub frame: u32,
    pub c_a: i32,
    pub c_b: i32,
}

impl Julia {
    /// Whether the counter is in range and the parameter is the counter's.
    pub open spec fn wf(&self) -> bool {
        &&& self.frame < FRAME_MAX
        &&& (self.c_a as int, self.c_b as int) == julia_param(self.frame as int)
    }

    /// A demo at frame zero.
    pub fn new() -> (r: Self)
        ensures
            r.wf(),
            r.frame == 0,
    {
        let (c_a, c_b) = julia_parameter(0);
        Self { frame: 0, c_a, c_b }
    }
}

proof fn lemma_param_bounds(frame: int)
    requires
        0 <= frame < 300,
    ensures
        -1024 <= julia_param(frame).0 <= 1024,
        -1024 <= julia_param(frame).1 <= 1024,
{
    let theta = (4 * frame * 1024) / 300;
    vstd::arithmetic::div_mod::lemma_div_is_ordered(4 * frame * 1024, 1228800, 300);
    vstd::arithmetic::div_mod::lemma_div_pos_is_pos(4 * frame * 1024, 300);
    assert(1228800int / 300 == 4096);
    crate::fixed::lemma_cos_sin_bounds(theta);
    let cs = cos_sin_spec(theta);
    assert(-807 * 1024 <= 807 * cs.0 <= 807 * 1024) by (nonlinear_arith)
        requires
            -1024 <= cs.0 <= 1024,
    ;
    assert(-807 * 1024 <= 807 * cs.1 <= 807 * 1024) by (nonlinear_arith)
        requires
            -1024 <= cs.1 <= 1024,
    ;
    vstd::arithmetic::div_mod::lemma_div_is_ordered(807 * cs.0, 826368, 1024);
    vstd::arithmetic::div_mod::lemma_div_is_ordered(-807 * 1024, 807 * cs.0, 1024);
    vstd::arithmetic::div_mod::lemma_div_is_ordered(807 * cs.1, 826368, 1024);
    vstd::arithmetic::div_mod::lemma_div_is_ordered(-807 * 1024, 807 * cs.1, 1024);
}

/// The Julia parameter of frame `frame`.
pub fn julia_parameter(frame: u32) -> (r: (i32, i32))
    requires
        frame < FRAME_MAX,
    ensures
        (r.0 as int, r.1 as int) == julia_param(frame as int),
        -ONE <= r.0 <= ONE,
        -ONE <= r.1 <= ONE,
{
    proof {
        lemma_param_bounds(frame as int);
    }
    let theta: i32 = ((4 * frame as i32) * ONE) / FRAME_MAX as i32;
    let (cos, sin) = cos_sin(theta);
    let pa: i32 = JULIA_MODULUS * cos;
    let pb: i32 = JULIA_MODULUS * sin;
    let c_a: i32 = pa >> Q;
    let c_b: i32 = pb >> Q;
    assert(c_a == pa / 1024) by (bit_vector)
        requires
            c_a == pa >> 10i32,
    ;
    assert(c_b == pb / 1024) by (bit_vector)
        requires
            c_b == pb >> 10i32,
    ;
    (c_a, c_b)
}

proof fn lemma_escape_step(
    a: int,
    b: int,
    prev: int,
    iter: int,
    c_a: int,
    c_b: int,
    a2: int,
    b2: int,
    two_ab: int,
)
    requires
        0 <= iter < 36,
        a2 == (a * a) / 1024,
        b2 == (b * b) / 1024,
        two_ab == (a * b) / 512,
        a2 + b2 < 4096,
    ensures
        julia_escape(a, b, prev, iter, c_a, c_b) == julia_escape(
            a2 - b2 + c_a,
            two_ab + c_b,
            a2 + b2,
            iter + 1,
            c_a,
            c_b,
        ),
{
}

proof fn lemma_square_small(a: int)
    requires
        (a * a) / 1024 < 4096,
    ensures
        -2048 <= a <= 2048,
{
    if a > 2048 {
        assert(a * a >= 2049 * 2049) by (nonlinear_arith)
            requires
                a >= 2049,
        ;
    }
    if a < -2048 {
        assert(a * a >= 2049 * 2049) by (nonlinear_arith)
            requires
                a <= -2049,
        ;
    }
}

proof fn lemma_lerp_bounds(dist: int, prev: int)
    requires
        4096 <= dist <= 200000,
        prev < 4096,
    ensures
        0 <= julia_lerp(dist, prev) <= 1536,
{
    let e = dist - 4096;
    let k = (dist - prev) / 4;
    let d = if k < 1 {
        1
    } else {
        k
    };
    vstd::arithmetic::div_mod::lemma_fundamental_div_mod(dist - prev, 4);
    assert(e <= 4 * k + 2);
    assert(e * 256 <= 1536 * d) by (nonlinear_arith)
        requires
            e <= 4 * k + 2,
            d >= 1,
            k < 1 ==> e <= 2,
            k >= 1 ==> d == k,
            e >= 0,
    ;
    vstd::arithmetic::div_mod::lemma_div_is_ordered(e * 256, 1536 * d, d);
    vstd::arithmetic::div_mod::lemma_div_multiples_vanish(1536, d);
    vstd::arithmetic::div_mod::lemma_div_pos_is_pos(e * 256, d);
}

impl Julia {
    /// Escape-time value of pixel `(pixel_x, pixel_y)` for the parameter
    /// `(c_a, c_b)`, counting its operations on the platform's counters.
    #[inline(always)]
    pub fn compute_value_hot<C: Context>(
        &self,
        context: &mut Platform<C>,
        pixel_x: usize,
        pixel_y: usize,
        c_a: i32,
        c_b: i32,
    ) -> (r: u8)
        requires
            pixel_x < FB_W,
            pixel_y < FB_H,
            -ONE <= c_a <= ONE,
            -ONE <= c_b <= ONE,
        ensures
            r == julia_value(pixel_x as int, pixel_y as int, c_a as int, c_b as int),
            views_kept(*old(context), *final(context)),
    {
        let fb_size: i32 = 272;
        let mut a: i32 = ((pixel_x as i32) * ONE - (FB_W as i32 - 1) * (ONE / 2)) * 2 / fb_size;
        let mut b: i32 = ((pixel_y as i32) * ONE - (FB_H as i32 - 1) * (ONE / 2)) * 2 / fb_size;
        let ghost escape = julia_escape(a as int, b as int, -40960, 0, c_a as int, c_b as int);
        let mut final_iter: i32 = ITER_MAX * ONE;
        let mut prev_dist: i32 = -40 * ONE;
        let mut iter: i32 = 0;
        while iter < ITER_MAX
            invariant_except_break
                final_iter == ITER_MAX * ONE,
            invariant
                0 <= iter <= ITER_MAX,
                -10000 <= a <= 10000,
                -10000 <= b <= 10000,
                -ONE <= c_a <= ONE,
                -ONE <= c_b <= ONE,
                -40960 <= prev_dist < ESCAPE,
                views_kept(*old(context), *context),
                julia_escape(a as int, b as int, prev_dist as int, iter as int, c_a as int, c_b as int)
                    == escape,
            ensures
                final_iter == escape,
                -1536 <= final_iter <= ITER_MAX * ONE,
            decreases ITER_MAX - iter,
        {
            assert(0 <= a * a <= 100000000 && 0 <= b * b <= 100000000) by (nonlinear_arith)
                requires
                    -10000 <= a <= 10000,
                    -10000 <= b <= 10000,
            ;
            context.stats_count_muls(1);
            context.stats_count_shrs(1);
            let sa: i32 = a * a;
            let a2: i32 = sa >> Q;
            context.stats_count_muls(1);
            context.stats_count_shrs(1);
            let sb: i32 = b * b;
            let b2: i32 = sb >> Q;
            assert(a2 == sa / 1024 && b2 == sb / 1024) by (bit_vector)
                requires
                    a2 == sa >> 10i32,
                    b2 == sb >> 10i32,
            ;
            context.stats_count_adds(1);
            let this_dist: i32 = a2 + b2;
            context.stats_count_cmps(1);
            if this_dist >= ESCAPE {
                proof {
                    lemma_lerp_bounds(this_dist as int, prev_dist as int);
                }
                context.stats_count_adds(2);
                context.stats_count_shrs(2);
                context.stats_count_divs(1);
                let diff: i32 = this_dist - prev_dist;
                let quarter: i32 = diff >> (Q - 8);
                assert(quarter == diff / 4) by (bit_vector)
                    requires
                        quarter == diff >> 2i32,
                ;
                let step: i32 = if quarter < 1 {
                    1
                } else {
                    quarter
                };
                let lerp: i32 = ((this_dist - ESCAPE) * 256) / step;
                context.stats_count_adds(1);
                context.stats_count_shrs(1);
                final_iter = iter * ONE - lerp;
                break ;
            }
            proof {
                lemma_square_small(a as int);
                lemma_square_small(b as int);
                assert(-2048 * 2048 <= a * b <= 2048 * 2048) by (nonlinear_arith)
                    requires
                        -2048 <= a <= 2048,
                        -2048 <= b <= 2048,
                ;
            }
            context.stats_count_muls(1);
            context.stats_count_shrs(1);
            let ab: i32 = a * b;
            let two_ab: i32 = ab >> (Q - 1);
            assert(two_ab == ab / 512) by (bit_vector)
                requires
                    two_ab == ab >> 9i32,
            ;
            assert((a as int * a as int) / 1024 == a2 as int);
            assert((b as int * b as int) / 1024 == b2 as int);
            assert((a as int * b as int) / 512 == two_ab as int);
            proof {
                lemma_escape_step(
                    a as int,
                    b as int,
                    prev_dist as int,
                    iter as int,
                    c_a as int,
                    c_b as int,
                    a2 as int,
                    b2 as int,
                    two_ab as int,
                );
            }
            context.stats_count_adds(2);
            a = a2 - b2 + c_a;
            context.stats_count_adds(1);
            b = two_ab + c_b;
            prev_dist = this_dist;
            iter = iter + 1;
        }
        let scaled: i32 = (final_iter * 255) / (ITER_MAX * ONE);
        (#[verifier::truncate] (scaled as u8))
    }

    /// The same value as `compute_value_hot`, kept out of line.
    #[inline(never)]
    fn compute_value_cold<C: Context>(
        &self,
        context: &mut Platform<C>,
        pixel_x: usize,
        pixel_y: usize,
        c_a: i32,
        c_b: i32,
    ) -> (r: u8)
        requires
            pixel_x < FB_W,
            pixel_y < FB_H,
            -ONE <= c_a <= ONE,
            -ONE <= c_b <= ONE,
        ensures
            r == julia_value(pixel_x as int, pixel_y as int, c_a as int, c_b as int),
            views_kept(*old(context), *final(context)),
    {
        self.compute_value_hot(context, pixel_x, pixel_y, c_a, c_b)
    }
}

impl Shader for Julia {
    open spec fn pixel(&self, x: int, y: int) -> u8 {
        julia_value(x, y, self.c_a as int, self.c_b as int)
    }

    open spec fn ready(&self) -> bool {
        &&& -1024 <= self.c_a <= 1024
        &&& -1024 <= self.c_b <= 1024
    }

    fn shade<C: Context>(&self, context: &mut Platform<C>, x: usize, y: usize) -> (r: u8) {
        if y == 0 {
            self.compute_value_cold(context, x, y, self.c_a, self.c_b)
        } else {
            self.compute_value_hot(context, x, y, self.c_a, self.c_b)
        }
    }
}

/// `x`, but at most 255.
pub open spec fn clamp_byte(x: int) -> u8 {
    if x > 255 {
        255
    } else {
        x as u8
    }
}

/// Palette entry `i` of frame `frame`: the HSV color whose hue turns once
/// over `FRAME_MAX` frames and is offset by `i` degrees, whose saturation
/// falls with `i`, and whose value rises and falls again as a half sine
/// over the 256 entries.
pub open spec fn palette_spec(frame: int, i: int) -> (u8, u8, u8) {
    let h = ((frame * 360) / 300 + i) % 360;
    let s = if i < 255 {
        256 - i
    } else {
        i
    };
    let v = (cos_sin_spec((2 * i * 1024) / 256).1 * 256) / 1024;
    let sector = h / 60;
    let frac = h % 60;
    let p = (v * (256 - s)) / 256;
    let q = (v * (15360 - s * frac)) / 15360;
    let t = (v * (15360 - s * (60 - frac))) / 15360;
    let rgb = if sector == 0 {
        (v, t, p)
    } else if sector == 1 {
        (q, v, p)
    } else if sector == 2 {
        (p, v, t)
    } else if sector == 3 {
        (p, q, v)
    } else if sector == 4 {
        (t, p, v)
    } else {
        (v, p, q)
    };
    (clamp_byte(rgb.0), clamp_byte(rgb.1), clamp_byte(rgb.2))
}

fn clamp(x: u32) -> (r: u8)
    ensures
        r == clamp_byte(x as int),
{
    if x > 255 {
        255
    } else {
        x as u8
    }
}

/// Palette entry `i` of frame `frame`.
pub fn palette_entry(frame: u32, i: u32) -> (r: (u8, u8, u8))
    requires
        frame < FRAME_MAX,
        i <= 255,
    ensures
        r == palette_spec(frame as int, i as int),
{
    let h: u32 = ((frame * 360) / FRAME_MAX + i) % 360;
    let s: u32 = if i < 0xFF {
        256 - i
    } else {
        i
    };
    let theta: i32 = ((2 * i) as i32 * ONE) / 256;
    assert(theta == 8 * i);
    let (_, sin) = cos_sin(theta);
    proof {
        if theta <= ONE {
            crate::fixed::lemma_sin_quarter_range(theta as int);
        } else {
            crate::fixed::lemma_sin_quarter_range(2048 - theta as int);
        }
    }
    let sv: i32 = sin * 256;
    let vs: i32 = sv >> Q;
    assert(vs == sv / 1024) by (bit_vector)
        requires
            vs == sv >> 10i32,
    ;
    let v: u32 = vs as u32;
    assert(v <= 256);
    let h_sector: u32 = h / 60;
    let h_frac: u32 = h % 60;
    assert(s * h_frac <= 256 * 59 && s * (60 - h_frac) <= 256 * 60) by (nonlinear_arith)
        requires
            s <= 256,
            h_frac < 60,
    ;
    assert(v * (256 - s) <= 256 * 256) by (nonlinear_arith)
        requires
            v <= 256,
            s <= 256,
    ;
    assert(v * (15360 - s * h_frac) <= 256 * 15360) by (nonlinear_arith)
        requires
            0 <= v <= 256,
            0 <= s,
            0 <= h_frac,
            s * h_frac <= 256 * 59,
    ;
    assert(v * (15360 - s * (60 - h_frac)) <= 256 * 15360) by (nonlinear_arith)
        requires
            0 <= v <= 256,
            0 <= s,
            h_frac < 60,
            s * (60 - h_frac) <= 256 * 60,
    ;
    let p: u32 = v * (256 - s) / 256;
    let q: u32 = v * (256 * 60 - s * h_frac) / (256 * 60);
    let t: u32 = v * (256 * 60 - s * (60 - h_frac)) / (256 * 60);
    let (r, g, b) = if h_sector == 0 {
        (v, t, p)
    } else if h_sector == 1 {
        (q, v, p)
    } else if h_sector == 2 {
        (p, v, t)
    } else if h_sector == 3 {
        (p, q, v)
    } else if h_sector == 4 {
        (t, p, v)
    } else {
        (v, p, q)
    };
    (clamp(r), clamp(g), clamp(b))
}

/// The frame that follows `frame`: one more, wrapping at `FRAME_MAX`.
pub open spec fn next_frame(frame: int) -> int {
    if frame + 1 >= 300 {
        0
    } else {
        frame + 1
    }
}

impl Demo for Julia {
    open spec fn inv(&self) -> bool {
        self.wf()
    }

    /// Uploads the palette of the current frame: entries `0` to `255` in
    /// order, and nothing else.
    fn pre_render<C: Context>(&mut self, context: &mut Platform<C>)
        ensures
            *final(self) == *old(self),
            final(context).lut_writes() == old(context).lut_writes() + palette_writes(
                |j: int| palette_spec(old(self).frame as int, j),
                256,
            ),
    {
        let ghost color = |j: int| palette_spec(self.frame as int, j);
        proof {
            assert(context.lut_writes() + palette_writes(color, 0) =~= context.lut_writes());
        }
        let mut i: u32 = 0;
        while i <= 0xFF
            invariant
                self.wf(),
                i <= 256,
                color == (|j: int| palette_spec(self.frame as int, j)),
                context.waited() == old(context).waited(),
                context.answers() == old(context).answers(),
                context.stats_calls() == old(context).stats_calls(),
                context.frames_seen() == old(context).frames_seen(),
                context.lut_writes() == old(context).lut_writes() + palette_writes(color, i as int),
            decreases 256 - i,
        {
            let (r, g, b) = palette_entry(self.frame, i);
            proof {
                lemma_palette_push(old(context).lut_writes(), color, i as int);
            }
            context.set_lut(i as u8, r, g, b);
            i = i + 1;
        }
    }

    /// Advances the frame counter, takes the Julia parameter of the new
    /// frame, and renders it half-shaded and point-mirrored.
    fn render<C: Context>(&mut self, context: &mut Platform<C>, fb: &mut Vec<u8>) -> (r: FrameOutcome)
        ensures
            final(self).frame == next_frame(old(self).frame as int),
            r is Complete ==> forall|x: int, y: int|
                on_screen(x, y) ==> #[trigger] pix(final(fb)@, x, y) == frame_pixel(final(self), x, y),
            r is TimedOut ==> abandoned_at(
                old(fb)@,
                final(fb)@,
                r->row as int,
                |x: int, y: int| frame_pixel(final(self), x, y),
            ),
    {
        self.frame = self.frame + 1;
        if self.frame >= FRAME_MAX {
            self.frame = 0;
        }
        let (c_a, c_b) = julia_parameter(self.frame);
        self.c_a = c_a;
        self.c_b = c_b;
        render_checkerboard(&*self, context, fb)
    }
}

} // verus!
