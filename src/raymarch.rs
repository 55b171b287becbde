//! The raymarcher: sphere tracing through the periodic voxel table with a
//! fixed iteration cap, accumulating color along the ray.
use crate::fixed::{
    cos_sin, cos_sin_spec, isqrt, rotate_2d, rotate_2d_spec, sqrt_floor, tdiv, ONE,
};
use crate::frame::{
    abandoned_at, lemma_palette_push, on_screen, palette_writes, pix, render_full, Context, Demo, FrameOutcome, Platform, Shader, FB_H, FB_LEN, FB_W,
};
use crate::voxel::{cell, cell_of, lut_index, lut_index_spec, TABLE_LEN};
use vstd::prelude::*;

verus! {

/// Iteration cap of the march.
pub const MARCH_STEPS: u32 = 16;

/// A step advances the position by `direction * distance >> STEP_SHIFT`.
pub const STEP_SHIFT: u32 = 8;

/// Largest magnitude of a start coordinate.
pub const POSITION_LIMIT: i32 = 0x100000;

/// Largest magnitude of a direction component.
pub const DIRECTION_LIMIT: i32 = 2048;

/// The distance byte of a table word.
pub open spec fn word_distance(w: u32) -> int {
    w as int / 0x100_0000
}

/// The red, green and blue bytes of a table word.
pub open spec fn word_color(w: u32) -> (int, int, int) {
    ((w as int / 0x1_0000) % 256, (w as int / 0x100) % 256, w as int % 256)
}

/// The table word of the cell that position `p` falls in.
pub open spec fn sample(table: Seq<u32>, p: (int, int, int)) -> u32 {
    table[lut_index_spec(cell_of(p.0), cell_of(p.1), cell_of(p.2))]
}

/// The march from `p` along `d` with `remaining` iterations left: the color
/// it adds and the iterations it takes. A zero distance is a hit, which adds
/// the cell's color times the iterations left and stops; any other distance
/// adds the cell's color and advances by `d * distance >> STEP_SHIFT`.
pub open spec fn march(table: Seq<u32>, p: (int, int, int), d: (int, int, int), remaining: int) -> (
    int,
    int,
    int,
    int,
)
    decreases remaining,
{
    if remaining <= 0 {
        (0, 0, 0, 0)
    } else {
        let w = sample(table, p);
        let c = word_color(w);
        let dist = word_distance(w);
        if dist == 0 {
            (c.0 * remaining, c.1 * remaining, c.2 * remaining, 1)
        } else {
            let next = (p.0 + (d.0 * dist) / 256, p.1 + (d.1 * dist) / 256, p.2 + (d.2 * dist) / 256);
            let rest = march(table, next, d, remaining - 1);
            (c.0 + rest.0, c.1 + rest.1, c.2 + rest.2, rest.3 + 1)
        }
    }
}

/// What a march produced: the accumulated color channels and the
/// iterations it took.
#[derive(Clone, Copy, Debug, PartialEq, Eq, Structural)]
pub struct MarchResult {
    pub red: u32,
    pub green: u32,
    pub blue: u32,
    pub steps: u32,
}

proof fn lemma_march_bounds(table: Seq<u32>, p: (int, int, int), d: (int, int, int), remaining: int)
    requires
        0 <= remaining,
    ensures
        0 <= march(table, p, d, remaining).0 <= 255 * remaining,
        0 <= march(table, p, d, remaining).1 <= 255 * remaining,
        0 <= march(table, p, d, remaining).2 <= 255 * remaining,
        remaining > 0 ==> 1 <= march(table, p, d, remaining).3 <= remaining,
        remaining == 0 ==> march(table, p, d, remaining).3 == 0,
    decreases remaining,
{
    if remaining > 0 {
        let w = sample(table, p);
        let c = word_color(w);
        assert(0 <= c.0 < 256 && 0 <= c.1 < 256 && 0 <= c.2 < 256);
        if word_distance(w) == 0 {
            assert(0 <= c.0 * remaining <= 255 * remaining) by (nonlinear_arith)
                requires
                    0 <= c.0 < 256,
                    0 < remaining,
            ;
            assert(0 <= c.1 * remaining <= 255 * remaining) by (nonlinear_arith)
                requires
                    0 <= c.1 < 256,
                    0 < remaining,
            ;
            assert(0 <= c.2 * remaining <= 255 * remaining) by (nonlinear_arith)
                requires
                    0 <= c.2 < 256,
                    0 < remaining,
            ;
        } else {
            let dist = word_distance(w);
            let next = (p.0 + (d.0 * dist) / 256, p.1 + (d.1 * dist) / 256, p.2 + (d.2 * dist) / 256);
            lemma_march_bounds(table, next, d, remaining - 1);
        }
    }
}

proof fn lemma_step_bounds(d: int, dist: int)
    requires
        -2048 <= d <= 2048,
        0 <= dist < 256,
    ensures
        -2048 <= (d * dist) / 256 <= 2048,
        -2048 * 256 <= d * dist <= 2048 * 256,
{
    assert(-2048 * 256 <= d * dist <= 2048 * 256) by (nonlinear_arith)
        requires
            -2048 <= d <= 2048,
            0 <= dist < 256,
    ;
    vstd::arithmetic::div_mod::lemma_div_is_ordered(d * dist, 524288int, 256);
    vstd::arithmetic::div_mod::lemma_div_is_ordered(-524288int, d * dist, 256);
}

/// Marches a ray from `(px, py, pz)` along `(dx, dy, dz)` through the table
/// for at most `MARCH_STEPS` iterations.
pub fn raymarch(table: &Vec<u32>, px: i32, py: i32, pz: i32, dx: i32, dy: i32, dz: i32) -> (r:
    MarchResult)
    requires
        table@.len() == TABLE_LEN,
        -POSITION_LIMIT <= px <= POSITION_LIMIT,
        -POSITION_LIMIT <= py <= POSITION_LIMIT,
        -POSITION_LIMIT <= pz <= POSITION_LIMIT,
        -DIRECTION_LIMIT <= dx <= DIRECTION_LIMIT,
        -DIRECTION_LIMIT <= dy <= DIRECTION_LIMIT,
        -DIRECTION_LIMIT <= dz <= DIRECTION_LIMIT,
    ensures
        (r.red as int, r.green as int, r.blue as int, r.steps as int) == march(
            table@,
            (px as int, py as int, pz as int),
            (dx as int, dy as int, dz as int),
            MARCH_STEPS as int,
        ),
        1 <= r.steps <= MARCH_STEPS,
        r.red <= 255 * MARCH_STEPS,
        r.green <= 255 * MARCH_STEPS,
        r.blue <= 255 * MARCH_STEPS,
{
    let ghost d = (dx as int, dy as int, dz as int);
    let ghost total = march(table@, (px as int, py as int, pz as int), d, 16);
    proof {
        lemma_march_bounds(table@, (px as int, py as int, pz as int), d, 16);
    }
    let mut x: i32 = px;
    let mut y: i32 = py;
    let mut z: i32 = pz;
    let mut red: u32 = 0;
    let mut green: u32 = 0;
    let mut blue: u32 = 0;
    let mut steps: u32 = 0;
    let mut remaining: u32 = MARCH_STEPS;
    while remaining > 0
        invariant_except_break
            remaining + steps == MARCH_STEPS,
            red <= 255 * (16 - remaining),
            green <= 255 * (16 - remaining),
            blue <= 255 * (16 - remaining),
            ({
                let rest = march(table@, (x as int, y as int, z as int), d, remaining as int);
                (red + rest.0, green + rest.1, blue + rest.2, steps + rest.3) == total
            }),
        invariant
            remaining <= MARCH_STEPS,
            table@.len() == TABLE_LEN,
            -DIRECTION_LIMIT <= dx <= DIRECTION_LIMIT,
            -DIRECTION_LIMIT <= dy <= DIRECTION_LIMIT,
            -DIRECTION_LIMIT <= dz <= DIRECTION_LIMIT,
            d == (dx as int, dy as int, dz as int),
            -POSITION_LIMIT - 2048 * (16 - remaining) <= x <= POSITION_LIMIT + 2048 * (16 - remaining),
            -POSITION_LIMIT - 2048 * (16 - remaining) <= y <= POSITION_LIMIT + 2048 * (16 - remaining),
            -POSITION_LIMIT - 2048 * (16 - remaining) <= z <= POSITION_LIMIT + 2048 * (16 - remaining),
        ensures
            (red as int, green as int, blue as int, steps as int) == total,
        decreases remaining,
    {
        proof {
            lemma_march_bounds(table@, (x as int, y as int, z as int), d, remaining as int);
        }
        let index = lut_index(cell(x), cell(y), cell(z));
        let w: u32 = table[index];
        let dist: u32 = w >> 24;
        let cr: u32 = (w >> 16) & 0xFF;
        let cg: u32 = (w >> 8) & 0xFF;
        let cb: u32 = w & 0xFF;
        assert(dist == w / 0x100_0000 && cr == (w / 0x1_0000) % 256 && cg == (w / 0x100) % 256 && cb
            == w % 256) by (bit_vector)
            requires
                dist == w >> 24u32,
                cr == (w >> 16u32) & 0xFFu32,
                cg == (w >> 8u32) & 0xFFu32,
                cb == w & 0xFFu32,
        ;
        if dist == 0 {
            red = red + cr * remaining;
            green = green + cg * remaining;
            blue = blue + cb * remaining;
            steps = steps + 1;
            break ;
        }
        proof {
            lemma_step_bounds(dx as int, dist as int);
            lemma_step_bounds(dy as int, dist as int);
            lemma_step_bounds(dz as int, dist as int);
        }
        let di: i32 = dist as i32;
        let mx: i32 = dx * di;
        let my: i32 = dy * di;
        let mz: i32 = dz * di;
        let sx: i32 = mx >> STEP_SHIFT;
        let sy: i32 = my >> STEP_SHIFT;
        let sz: i32 = mz >> STEP_SHIFT;
        assert(sx == mx / 256 && sy == my / 256 && sz == mz / 256) by (bit_vector)
            requires
                sx == mx >> 8u32,
                sy == my >> 8u32,
                sz == mz >> 8u32,
        ;
        x = x + sx;
        y = y + sy;
        z = z + sz;
        red = red + cr;
        green = green + cg;
        blue = blue + cb;
        steps = steps + 1;
        remaining = remaining - 1;
    }
    MarchResult { red, green, blue, steps }
}

/// Frames in one full roll of the camera.
pub const ROTATE_PERIOD: u32 = 1024;

/// Frames in one period of the dolly through the table.
pub const TRANSLATE_PERIOD: u32 = 256;

/// Advance of the camera along `z` per frame: one table period, 2048, over
/// `TRANSLATE_PERIOD` frames.
pub const DOLLY_STEP: i32 = 8;

/// The display color of an accumulated color: three bits of red, three of
/// green and two of blue, each cut by a shift and held at its largest value
/// beyond that. The accumulation of `MARCH_STEPS` samples can reach twelve
/// bits but mostly stays within eight, so the fields are cut from bits 5..8
/// (6..8 for blue), with saturation rather than a mask so that a bright ray
/// does not wrap to a dark one. Nothing is rounded.
pub open spec fn rgb332(red: int, green: int, blue: int) -> u8 {
    let r = if red / 32 > 7 {
        7
    } else {
        red / 32
    };
    let g = if green / 32 > 7 {
        7
    } else {
        green / 32
    };
    let b = if blue / 64 > 3 {
        3
    } else {
        blue / 64
    };
    (r * 32 + g * 4 + b) as u8
}

/// Reduces an accumulated color to the display's three-three-two bits.
pub fn pack_color(red: u32, green: u32, blue: u32) -> (c: u8)
    ensures
        c == rgb332(red as int, green as int, blue as int),
{
    let r0: u32 = red >> 5;
    let g0: u32 = green >> 5;
    let b0: u32 = blue >> 6;
    assert(r0 == red / 32 && g0 == green / 32 && b0 == blue / 64) by (bit_vector)
        requires
            r0 == red >> 5u32,
            g0 == green >> 5u32,
            b0 == blue >> 6u32,
    ;
    let r: u32 = if r0 > 7 {
        7
    } else {
        r0
    };
    let g: u32 = if g0 > 7 {
        7
    } else {
        g0
    };
    let b: u32 = if b0 > 3 {
        3
    } else {
        b0
    };
    let c: u32 = (r << 5) | (g << 2) | b;
    assert(c == r * 32 + g * 4 + b) by (bit_vector)
        requires
            r <= 7,
            g <= 7,
            b <= 3,
            c == (r << 5u32) | (g << 2u32) | b,
    ;
    c as u8
}

/// Palette entry `i` for direct three-three-two color: each field spread
/// over the byte range.
pub open spec fn rgb332_palette(i: int) -> (u8, u8, u8) {
    (((i / 32) * 255 / 7) as u8, (((i / 4) % 8) * 255 / 7) as u8, ((i % 4) * 85) as u8)
}

/// Palette entry `i` for direct three-three-two color.
pub fn rgb332_entry(i: u32) -> (c: (u8, u8, u8))
    requires
        i <= 255,
    ensures
        c == rgb332_palette(i as int),
{
    (((i / 32) * 255 / 7) as u8, (((i / 4) % 8) * 255 / 7) as u8, ((i % 4) * 85) as u8)
}

/// Unnormalized view ray of pixel `(x, y)`: screen offsets from the center
/// on a focal length of one.
pub open spec fn ray_base(x: int, y: int) -> (int, int, int) {
    ((2 * x - 479) * 2, (2 * y - 271) * 2, 1024)
}

/// View ray of pixel `(x, y)`, normalized to length `ONE` and rolled by the
/// angle whose cosine and sine are given.
pub open spec fn ray_dir(x: int, y: int, cos: int, sin: int) -> (int, int, int) {
    let b = ray_base(x, y);
    let len = sqrt_floor(b.0 * b.0 + b.1 * b.1 + b.2 * b.2);
    let n = (tdiv(b.0 * 1024, len), tdiv(b.1 * 1024, len), tdiv(b.2 * 1024, len));
    let r = rotate_2d_spec(n.0, n.1, cos, sin);
    (r.0, r.1, n.2)
}

/// The display color of pixel `(x, y)` with the camera at `(0, 0, z)`
/// rolled by `(cos, sin)`.
pub open spec fn ray_pixel(table: Seq<u32>, x: int, y: int, cos: int, sin: int, z: int) -> u8 {
    let m = march(table, (0, 0, z), ray_dir(x, y, cos, sin), 16);
    rgb332(m.0, m.1, m.2)
}

proof fn lemma_normalized_bound(v: int, len: int, sum: int)
    requires
        v * v <= sum,
        sum < (len + 1) * (len + 1),
        1 <= len,
    ensures
        -1024 <= tdiv(v * 1024, len) <= 1024,
{
    if v > len {
        assert(v * v >= (len + 1) * (len + 1)) by (nonlinear_arith)
            requires
                v >= len + 1,
                len >= 1,
        ;
    }
    if v < -len {
        assert(v * v >= (len + 1) * (len + 1)) by (nonlinear_arith)
            requires
                -v >= len + 1,
                len >= 1,
        ;
    }
    if v >= 0 {
        assert(v * 1024 <= 1024 * len) by (nonlinear_arith)
            requires
                v <= len,
        ;
        vstd::arithmetic::div_mod::lemma_div_is_ordered(v * 1024, 1024 * len, len);
        vstd::arithmetic::div_mod::lemma_div_multiples_vanish(1024, len);
        vstd::arithmetic::div_mod::lemma_div_pos_is_pos(v * 1024, len);
    } else {
        assert(-v * 1024 <= 1024 * len) by (nonlinear_arith)
            requires
                -v <= len,
        ;
        vstd::arithmetic::div_mod::lemma_div_is_ordered(-v * 1024, 1024 * len, len);
        vstd::arithmetic::div_mod::lemma_div_multiples_vanish(1024, len);
        vstd::arithmetic::div_mod::lemma_div_pos_is_pos(-v * 1024, len);
    }
}

/// The view ray of pixel `(x, y)` rolled by `(cos, sin)`.
pub fn ray_direction(x: usize, y: usize, cos: i32, sin: i32) -> (d: (i32, i32, i32))
    requires
        x < FB_W,
        y < FB_H,
        -ONE <= cos <= ONE,
        -ONE <= sin <= ONE,
    ensures
        (d.0 as int, d.1 as int, d.2 as int) == ray_dir(x as int, y as int, cos as int, sin as int),
        -DIRECTION_LIMIT <= d.0 <= DIRECTION_LIMIT,
        -DIRECTION_LIMIT <= d.1 <= DIRECTION_LIMIT,
        -DIRECTION_LIMIT <= d.2 <= DIRECTION_LIMIT,
{
    let bx: i32 = (2 * x as i32 - 479) * 2;
    let by: i32 = (2 * y as i32 - 271) * 2;
    let bz: i32 = ONE;
    proof {
        assert(0 <= bx * bx <= 958 * 958) by (nonlinear_arith)
            requires
                -958 <= bx <= 958,
        ;
        assert(0 <= by * by <= 542 * 542) by (nonlinear_arith)
            requires
                -542 <= by <= 542,
        ;
    }
    let sum: i32 = bx * bx + by * by + bz * bz;
    let root: u32 = isqrt(sum as u32);
    proof {
        if root > 2000 {
            assert(root * root > 2000 * 2000) by (nonlinear_arith)
                requires
                    root > 2000,
            ;
        }
        if root < 1024 {
            assert((root + 1) * (root + 1) <= 1024 * 1024) by (nonlinear_arith)
                requires
                    root < 1024,
            ;
        }
    }
    let len: i32 = root as i32;
    proof {
        lemma_normalized_bound(bx as int, len as int, sum as int);
        lemma_normalized_bound(by as int, len as int, sum as int);
        lemma_normalized_bound(bz as int, len as int, sum as int);
    }
    let nx: i32 = (bx * ONE) / len;
    let ny: i32 = (by * ONE) / len;
    let nz: i32 = (bz * ONE) / len;
    let (rx, ry) = rotate_2d(nx, ny, cos, sin);
    proof {
        assert(-1048576 <= cos * nx <= 1048576 && -1048576 <= sin * ny <= 1048576 && -1048576 <= cos
            * ny <= 1048576 && -1048576 <= sin * nx <= 1048576) by (nonlinear_arith)
            requires
                -1024 <= cos <= 1024,
                -1024 <= sin <= 1024,
                -1024 <= nx <= 1024,
                -1024 <= ny <= 1024,
        ;
        vstd::arithmetic::div_mod::lemma_div_is_ordered(cos * nx + sin * ny, 2097152int, 1024);
        vstd::arithmetic::div_mod::lemma_div_is_ordered(-2097152int, cos * nx + sin * ny, 1024);
        vstd::arithmetic::div_mod::lemma_div_is_ordered(cos * ny - sin * nx, 2097152int, 1024);
        vstd::arithmetic::div_mod::lemma_div_is_ordered(-2097152int, cos * ny - sin * nx, 1024);
    }
    (rx, ry, nz)
}

/// The raymarched fractal demo: a camera that rolls and dollies through the
/// periodic voxel table, drawn in direct three-three-two color.
pub struct Raymarch {
    pub table: Vec<u32>,
    pub rotate_frame: u32,
    pub translate_frame: u32,
    pub cos: i32,
    pub sin: i32,
    pub z_offset: i32,
}

/// Roll angle of frame `f` of the rotation counter.
pub open spec fn roll_angle(f: int) -> int {
    (f * 4096) / 1024
}

impl Raymarch {
    /// Whether the counters are in range and the per-frame constants are
    /// those of the counters.
    pub open spec fn synced(&self) -> bool {
        &&& self.table@.len() == TABLE_LEN
        &&& self.rotate_frame < ROTATE_PERIOD
        &&& self.translate_frame < TRANSLATE_PERIOD
        &&& (self.cos as int, self.sin as int) == cos_sin_spec(roll_angle(self.rotate_frame as int))
        &&& self.z_offset == self.translate_frame * 8
    }

    /// A demo at frame zero over `table`.
    pub fn new(table: Vec<u32>) -> (r: Self)
        requires
            table@.len() == TABLE_LEN,
        ensures
            r.synced(),
            r.rotate_frame == 0,
            r.translate_frame == 0,
            r.table@ == table@,
    {
        let (cos, sin) = cos_sin(0);
        Raymarch { table, rotate_frame: 0, translate_frame: 0, cos, sin, z_offset: 0 }
    }
}

impl Shader for Raymarch {
    open spec fn pixel(&self, x: int, y: int) -> u8 {
        ray_pixel(self.table@, x, y, self.cos as int, self.sin as int, self.z_offset as int)
    }

    open spec fn ready(&self) -> bool {
        &&& self.table@.len() == TABLE_LEN
        &&& -1024 <= self.cos <= 1024
        &&& -1024 <= self.sin <= 1024
        &&& 0 <= self.z_offset <= 2048
    }

    fn shade<C: Context>(&self, context: &mut Platform<C>, x: usize, y: usize) -> (r: u8) {
        let (dx, dy, dz) = ray_direction(x, y, self.cos, self.sin);
        let m = raymarch(&self.table, 0, 0, self.z_offset, dx, dy, dz);
        pack_color(m.red, m.green, m.blue)
    }
}

impl Demo for Raymarch {
    open spec fn inv(&self) -> bool {
        &&& self.ready()
        &&& self.rotate_frame < ROTATE_PERIOD
        &&& self.translate_frame < TRANSLATE_PERIOD
    }

    /// Uploads the three-three-two palette and takes the roll and the dolly
    /// offset of the current counters.
    fn pre_render<C: Context>(&mut self, context: &mut Platform<C>)
        ensures
            final(self).synced(),
            final(self).rotate_frame == old(self).rotate_frame,
            final(self).translate_frame == old(self).translate_frame,
            final(self).table == old(self).table,
            final(context).lut_writes() == old(context).lut_writes() + palette_writes(
                |j: int| rgb332_palette(j),
                256,
            ),
    {
        let ghost color = |j: int| rgb332_palette(j);
        proof {
            assert(context.lut_writes() + palette_writes(color, 0) =~= context.lut_writes());
        }
        let mut i: u32 = 0;
        while i <= 0xFF
            invariant
                i <= 256,
                color == (|j: int| rgb332_palette(j)),
                context.waited() == old(context).waited(),
                context.answers() == old(context).answers(),
                context.stats_calls() == old(context).stats_calls(),
                context.frames_seen() == old(context).frames_seen(),
                context.lut_writes() == old(context).lut_writes() + palette_writes(color, i as int),
            decreases 256 - i,
        {
            let (r, g, b) = rgb332_entry(i);
            proof {
                lemma_palette_push(old(context).lut_writes(), color, i as int);
            }
            context.set_lut(i as u8, r, g, b);
            i = i + 1;
        }
        let theta: i32 = (self.rotate_frame as i32 * 4096) / ROTATE_PERIOD as i32;
        let (cos, sin) = cos_sin(theta);
        self.cos = cos;
        self.sin = sin;
        self.z_offset = self.translate_frame as i32 * DOLLY_STEP;
    }

    /// Renders every pixel of the frame, then advances both counters by one.
    /// Every pixel is shaded: a mean of packed colors would mix their fields.
    fn render<C: Context>(&mut self, context: &mut Platform<C>, fb: &mut Vec<u8>) -> (r: FrameOutcome)
        ensures
            final(self).rotate_frame == (old(self).rotate_frame + 1) % (ROTATE_PERIOD as int),
            final(self).translate_frame == (old(self).translate_frame + 1) % (TRANSLATE_PERIOD as int),
            final(self).table == old(self).table,
            final(self).cos == old(self).cos,
            final(self).sin == old(self).sin,
            final(self).z_offset == old(self).z_offset,
            r is Complete ==> forall|x: int, y: int|
                on_screen(x, y) ==> #[trigger] pix(final(fb)@, x, y) == old(self).pixel(x, y),
            r is TimedOut ==> abandoned_at(
                old(fb)@,
                final(fb)@,
                r->row as int,
                |x: int, y: int| old(self).pixel(x, y) as int,
            ),
    {
        let r = render_full(&*self, context, fb);
        self.rotate_frame = (self.rotate_frame + 1) % ROTATE_PERIOD;
        self.translate_frame = (self.translate_frame + 1) % TRANSLATE_PERIOD;
        r
    }
}

/// Over a table whose every word is a hit of one color, every ray stops on
/// its first iteration, so every pixel of every frame shows that color
/// weighted by `MARCH_STEPS`.
pub proof fn lemma_uniform_hit_table(table: Seq<u32>, w: u32, x: int, y: int, cos: int, sin: int, z: int)
    requires
        table.len() == TABLE_LEN,
        forall|i: int| 0 <= i < TABLE_LEN ==> #[trigger] table[i] == w,
        word_distance(w) == 0,
    ensures
        march(table, (0, 0, z), ray_dir(x, y, cos, sin), 16) == (
            word_color(w).0 * 16,
            word_color(w).1 * 16,
            word_color(w).2 * 16,
            1int,
        ),
        ray_pixel(table, x, y, cos, sin, z) == rgb332(
            word_color(w).0 * 16,
            word_color(w).1 * 16,
            word_color(w).2 * 16,
        ),
{
    let d = ray_dir(x, y, cos, sin);
    let i = lut_index_spec(cell_of(0), cell_of(0), cell_of(z));
    assert(0 <= i < TABLE_LEN);
    assert(sample(table, (0, 0, z)) == w);
}

} // verus!
