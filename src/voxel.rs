//! The voxel lookup table: one packed word per cell of a `GRID`^3 sampling
//! of the folded fundamental cell `[-1, 1)^3` of an iterated
//! fold-rotate-invert fractal.
//!
//! The table is evaluated in the same `Q = 10` fixed point as the rest of
//! the engine, not in floating point, so that it is built on the target and
//! stated exactly. Its real coefficients are therefore rounded to the format:
//! the color gain `0.0163` becomes `17 / 1024`, the hue rate `0.9 * 2 / pi`
//! quarter turns per unit becomes `587 / 1024`, the fold angle is exactly an
//! eighth of a turn, and square roots, sines and the exponential are the
//! fixed-point `isqrt`, `cos_sin` and `qexp`. The table is close to, not
//! bit-equal with, a floating-point evaluation of the same steps.
use crate::fixed::{
    cos_sin, cos_sin_spec, isqrt, qexp, qexp_spec, rotate_2d, rotate_2d_spec, sqrt_floor, tdiv, ONE, Q,
};
use vstd::prelude::*;

verus! {

/// Cells along each axis of the table.
pub const GRID: usize = 128;

/// Number of entries of the table.
pub const TABLE_LEN: usize = 2097152;

/// Iterations of the fold-rotate-invert step per cell.
pub const FOLD_ITERATIONS: usize = 20;

/// The fold rotates `(y, z)` by this angle, an eighth of a turn.
pub const FOLD_ANGLE: i32 = 512;

/// Starting value of the tracked minimum distance, far above any distance
/// an iteration produces.
pub const MIN_DISTANCE_START: i32 = 102400;

/// Density attenuation exponent: colors fade as `exp(-DENSITY_FADE * density)`.
pub const DENSITY_FADE: i32 = 32;

/// Gain of the base colors, `0.0166` in fixed point.
pub const COLOR_GAIN: i32 = 17;

/// Turns `0.9 * 2 / pi` of a quarter turn per unit distance, in fixed point:
/// the factor from a distance to a quadrant angle.
pub const HUE_RATE: i32 = 587;

/// One packed table word: the distance/opacity byte in bits 24..32, then red,
/// green and blue, each a byte.
#[derive(Clone, Copy, Debug, PartialEq, Eq, Structural)]
pub struct VoxelTableEntry {
    pub density: u8,
    pub r: u8,
    pub g: u8,
    pub b: u8,
}

/// The word that packs the four bytes.
pub open spec fn packed(density: int, r: int, g: int, b: int) -> int {
    density * 0x100_0000 + r * 0x1_0000 + g * 0x100 + b
}

/// A fixed-point channel in `[0, ONE]` as a byte: a quarter, at most 255.
pub open spec fn quantized(v: int) -> int {
    if v / 4 > 255 {
        255
    } else {
        v / 4
    }
}

/// Quantizes a fixed-point channel in `[0, ONE]` to a byte.
pub fn quantize(v: i32) -> (r: u8)
    requires
        0 <= v <= ONE,
    ensures
        r == quantized(v as int),
{
    let q: i32 = v >> 2;
    assert(q == v / 4) by (bit_vector)
        requires
            q == v >> 2i32,
    ;
    if q > 255 {
        255
    } else {
        q as u8
    }
}

/// The fixed-point value a byte stands for.
pub fn dequantize(b: u8) -> (r: i32)
    ensures
        r == b * 4,
{
    let v: i32 = b as i32;
    let r: i32 = v << 2;
    assert(r == v * 4) by (bit_vector)
        requires
            0 <= v < 256,
            r == v << 2i32,
    ;
    r
}

impl VoxelTableEntry {
    /// The entry whose bytes quantize the given fixed-point channels.
    pub fn from_channels(density: i32, r: i32, g: i32, b: i32) -> (e: Self)
        requires
            0 <= density <= ONE,
            0 <= r <= ONE,
            0 <= g <= ONE,
            0 <= b <= ONE,
        ensures
            e.density == quantized(density as int),
            e.r == quantized(r as int),
            e.g == quantized(g as int),
            e.b == quantized(b as int),
    {
        VoxelTableEntry { density: quantize(density), r: quantize(r), g: quantize(g), b: quantize(b) }
    }

    /// The fixed-point channels `(density, r, g, b)` the bytes stand for.
    pub fn to_channels(&self) -> (c: (i32, i32, i32, i32))
        ensures
            c.0 == self.density * 4,
            c.1 == self.r * 4,
            c.2 == self.g * 4,
            c.3 == self.b * 4,
    {
        (dequantize(self.density), dequantize(self.r), dequantize(self.g), dequantize(self.b))
    }

    /// The packed word.
    pub fn pack(&self) -> (w: u32)
        ensures
            w == packed(self.density as int, self.r as int, self.g as int, self.b as int),
    {
        let d: u32 = self.density as u32;
        let r: u32 = self.r as u32;
        let g: u32 = self.g as u32;
        let b: u32 = self.b as u32;
        let w: u32 = (d << 24) | (r << 16) | (g << 8) | b;
        assert(w == d * 0x100_0000 + r * 0x1_0000 + g * 0x100 + b) by (bit_vector)
            requires
                d < 256,
                r < 256,
                g < 256,
                b < 256,
                w == (d << 24u32) | (r << 16u32) | (g << 8u32) | b,
        ;
        w
    }

    /// The entry a packed word holds.
    pub fn unpack(w: u32) -> (e: Self)
        ensures
            packed(e.density as int, e.r as int, e.g as int, e.b as int) == w,
    {
        let d: u32 = w >> 24;
        let r: u32 = (w >> 16) & 0xFF;
        let g: u32 = (w >> 8) & 0xFF;
        let b: u32 = w & 0xFF;
        assert(w == d * 0x100_0000 + r * 0x1_0000 + g * 0x100 + b && d < 256 && r < 256 && g < 256 && b
            < 256) by (bit_vector)
            requires
                d == w >> 24u32,
                r == (w >> 16u32) & 0xFFu32,
                g == (w >> 8u32) & 0xFFu32,
                b == w & 0xFFu32,
        ;
        VoxelTableEntry { density: d as u8, r: r as u8, g: g as u8, b: b as u8 }
    }

    /// The distance/opacity byte of a packed word.
    pub fn density_of(w: u32) -> (d: u8)
        ensures
            d == w / 0x100_0000,
    {
        let d: u32 = w >> 24;
        assert(d == w / 0x100_0000 && d < 256) by (bit_vector)
            requires
                d == w >> 24u32,
        ;
        d as u8
    }
}

/// The four bytes of a packed word are determined by it.
pub proof fn lemma_packed_injective(
    d1: int,
    r1: int,
    g1: int,
    b1: int,
    d2: int,
    r2: int,
    g2: int,
    b2: int,
)
    requires
        0 <= d1 < 256,
        0 <= r1 < 256,
        0 <= g1 < 256,
        0 <= b1 < 256,
        0 <= d2 < 256,
        0 <= r2 < 256,
        0 <= g2 < 256,
        0 <= b2 < 256,
        packed(d1, r1, g1, b1) == packed(d2, r2, g2, b2),
    ensures
        d1 == d2 && r1 == r2 && g1 == g2 && b1 == b2,
{
}

/// Packing an entry and unpacking the word gives the entry back, and
/// quantizing a channel in `[0, ONE]` and reading the byte back is within one
/// step of the byte, `4`, below the channel.
pub proof fn lemma_entry_round_trip(e: VoxelTableEntry, w: u32, e2: VoxelTableEntry, v: int)
    requires
        w == packed(e.density as int, e.r as int, e.g as int, e.b as int),
        packed(e2.density as int, e2.r as int, e2.g as int, e2.b as int) == w,
        0 <= v <= 1024,
    ensures
        e2 == e,
        v - 4 <= quantized(v) * 4 <= v,
{
    lemma_packed_injective(
        e.density as int,
        e.r as int,
        e.g as int,
        e.b as int,
        e2.density as int,
        e2.r as int,
        e2.g as int,
        e2.b as int,
    );
}

/// Table index of cell `(x, y, z)`.
pub open spec fn lut_index_spec(x: int, y: int, z: int) -> int {
    x * 16384 + y * 128 + z
}

/// Table index of cell `(x, y, z)`, packed by shifts and ors rather than by
/// multiplying by the strides.
pub fn lut_index(x: u32, y: u32, z: u32) -> (i: usize)
    requires
        x < 128,
        y < 128,
        z < 128,
    ensures
        i == lut_index_spec(x as int, y as int, z as int),
        i < TABLE_LEN,
{
    let w: u32 = (x << 14) | (y << 7) | z;
    assert(w == x * 16384 + y * 128 + z) by (bit_vector)
        requires
            x < 128,
            y < 128,
            z < 128,
            w == (x << 14u32) | (y << 7u32) | z,
    ;
    w as usize
}

/// Distinct cells have distinct table indices, all below `TABLE_LEN`.
pub proof fn lemma_lut_index_injective(x1: int, y1: int, z1: int, x2: int, y2: int, z2: int)
    requires
        0 <= x1 < 128,
        0 <= y1 < 128,
        0 <= z1 < 128,
        0 <= x2 < 128,
        0 <= y2 < 128,
        0 <= z2 < 128,
    ensures
        0 <= lut_index_spec(x1, y1, z1) < 2097152,
        lut_index_spec(x1, y1, z1) == lut_index_spec(x2, y2, z2) ==> x1 == x2 && y1 == y2 && z1 == z2,
{
}

/// The cell along one axis of a fixed-point coordinate: cells are 16 units
/// wide, and the grid repeats every 2048 units, two in real terms.
pub open spec fn cell_of(p: int) -> int {
    (p / 16 + 64) % 128
}

/// The cell along one axis of the fixed-point coordinate `p`.
pub fn cell(p: i32) -> (c: u32)
    ensures
        c == cell_of(p as int),
        c < 128,
{
    let h: i32 = p >> 4;
    assert(h == p / 16) by (bit_vector)
        requires
            h == p >> 4i32,
    ;
    let w: i32 = h + 64;
    let c: i32 = w & 127;
    assert(c == w % 128) by (bit_vector)
        requires
            c == w & 127i32,
    ;
    c as u32
}

/// Fixed-point coordinate of the center of cell `c`: `(c - 63.5) / 64`.
pub open spec fn cell_center(c: int) -> int {
    16 * c - 1016
}

/// Wraps a coordinate with period two and shifts it by one: `v mod 2 - 1`.
pub open spec fn fold_coord(v: int) -> int {
    v % 2048 - 1024
}

/// The state of the fold iteration: the point, the smallest distance from
/// the origin so far, and the accumulated density.
pub type FoldState = (int, int, int, int, int);

/// One fold-rotate-invert step: fold each coordinate, rotate `(y, z)` by
/// `FOLD_ANGLE`, track the distance from the origin and scale the density
/// by half the squared distance (at most one), then divide the point by that
/// factor and subtract one; a zero factor leaves the point as it is.
pub open spec fn fold_step(s: FoldState) -> FoldState {
    let x = fold_coord(s.0);
    let c = cos_sin_spec(512);
    let yz = rotate_2d_spec(fold_coord(s.1), fold_coord(s.2), c.0, c.1);
    let sqr = x * x + yz.0 * yz.0 + yz.1 * yz.1;
    let dist = sqrt_floor(sqr);
    let scale = if sqr / 2048 > 1024 {
        1024
    } else {
        sqr / 2048
    };
    let min_distance = if dist < s.3 {
        dist
    } else {
        s.3
    };
    let accum = (s.4 * scale) / 1024;
    if scale > 0 {
        (
            tdiv(x * 1024, scale) - 1024,
            tdiv(yz.0 * 1024, scale) - 1024,
            tdiv(yz.1 * 1024, scale) - 1024,
            min_distance,
            accum,
        )
    } else {
        (x, yz.0, yz.1, min_distance, accum)
    }
}

/// `k` fold steps from `s`.
pub open spec fn fold_iterate(s: FoldState, k: nat) -> FoldState
    decreases k,
{
    if k == 0 {
        s
    } else {
        fold_step(fold_iterate(s, (k - 1) as nat))
    }
}

/// The fold state of cell `(cx, cy, cz)` after all iterations.
pub open spec fn cell_state(cx: int, cy: int, cz: int) -> FoldState {
    fold_iterate((cell_center(cx), cell_center(cy), cell_center(cz), 102400, 1024), 20)
}

/// Base color of a channel: `1.75 + sin(rate * 0.9 * distance)`.
pub open spec fn base_color(rate: int, min_distance: int) -> int {
    1792 + cos_sin_spec(((rate * min_distance * 587) / 1024) % 4096).1
}

/// A base color scaled by `COLOR_GAIN` and faded by `exp(-DENSITY_FADE * density)`.
pub open spec fn glow(base: int, density: int) -> int {
    ((base * 17) / 1024 * (1048576int / qexp_spec(32 * density))) / 1024
}

/// The table word of cell `(cx, cy, cz)`.
pub open spec fn voxel_entry_spec(cx: int, cy: int, cz: int) -> u32 {
    let s = cell_state(cx, cy, cz);
    packed(
        quantized(s.4),
        quantized(glow(base_color(3, s.3), s.4)),
        quantized(glow(base_color(4, s.3), s.4)),
        quantized(glow(base_color(6, s.3), s.4)),
    ) as u32
}

/// Whether the fold state is in the range that one step keeps.
pub open spec fn fold_bounded(s: FoldState) -> bool {
    &&& -0x200000 <= s.0 <= 0x200000
    &&& -0x200000 <= s.1 <= 0x200000
    &&& -0x200000 <= s.2 <= 0x200000
    &&& 0 <= s.3 <= 102400
    &&& 0 <= s.4 <= 1024
}

fn fold_coordinate(v: i32) -> (r: i32)
    ensures
        r == fold_coord(v as int),
        -1024 <= r < 1024,
{
    let m: i32 = v & 2047;
    assert(m == v % 2048) by (bit_vector)
        requires
            m == v & 2047i32,
    ;
    m - ONE
}

/// One fold step on a bounded state.
pub fn fold_once(x: i32, y: i32, z: i32, min_distance: i32, accum: i32) -> (r: (i32, i32, i32, i32, i32))
    requires
        fold_bounded((x as int, y as int, z as int, min_distance as int, accum as int)),
    ensures
        (r.0 as int, r.1 as int, r.2 as int, r.3 as int, r.4 as int) == fold_step(
            (x as int, y as int, z as int, min_distance as int, accum as int),
        ),
        fold_bounded((r.0 as int, r.1 as int, r.2 as int, r.3 as int, r.4 as int)),
{
    let fx: i32 = fold_coordinate(x);
    let fy: i32 = fold_coordinate(y);
    let fz: i32 = fold_coordinate(z);
    let (c45, s45) = cos_sin(FOLD_ANGLE);
    assert(c45 == 704 && s45 == 704) by {
        assert(256 * (3 * 0x40000 - 256 * 256) == 704 * 0x40000);
        vstd::arithmetic::div_mod::lemma_div_multiples_vanish(704, 0x40000);
    }
    let (ry, rz) = rotate_2d(fy, fz, c45, s45);
    proof {
        lemma_rotated_bounds(fy as int, fz as int, ry as int, rz as int);
        assert(0 <= fx * fx <= 1024 * 1024) by (nonlinear_arith)
            requires
                -1024 <= fx <= 1024,
        ;
        assert(0 <= ry * ry <= 1408 * 1408) by (nonlinear_arith)
            requires
                -1408 <= ry <= 1408,
        ;
        assert(0 <= rz * rz <= 1408 * 1408) by (nonlinear_arith)
            requires
                -1408 <= rz <= 1408,
        ;
    }
    let sqr: i32 = fx * fx + ry * ry + rz * rz;
    let root: u32 = isqrt(sqr as u32);
    proof {
        if root > 2300 {
            assert(root * root > 2300 * 2300) by (nonlinear_arith)
                requires
                    root > 2300,
            ;
        }
    }
    let dist: i32 = root as i32;
    let half: i32 = sqr / 2048;
    let scale: i32 = if half > ONE {
        ONE
    } else {
        half
    };
    let md: i32 = if dist < min_distance {
        dist
    } else {
        min_distance
    };
    proof {
        assert(0 <= accum * scale <= 1024 * 1024) by (nonlinear_arith)
            requires
                0 <= accum <= 1024,
                0 <= scale <= 1024,
        ;
    }
    let acc: i32 = (accum * scale) / ONE;
    if scale > 0 {
        proof {
            lemma_rescale_bounds(fx as int, scale as int);
            lemma_rescale_bounds(ry as int, scale as int);
            lemma_rescale_bounds(rz as int, scale as int);
        }
        ((fx * ONE) / scale - ONE, (ry * ONE) / scale - ONE, (rz * ONE) / scale - ONE, md, acc)
    } else {
        (fx, ry, rz, md, acc)
    }
}

proof fn lemma_rotated_bounds(y: int, z: int, ry: int, rz: int)
    requires
        -1024 <= y <= 1024,
        -1024 <= z <= 1024,
        (ry, rz) == rotate_2d_spec(y, z, 704, 704),
    ensures
        -1408 <= ry <= 1408,
        -1408 <= rz <= 1408,
{
    vstd::arithmetic::div_mod::lemma_div_is_ordered(704 * y + 704 * z, 1441792int, 1024);
    vstd::arithmetic::div_mod::lemma_div_is_ordered(-1408 * 1024, 704 * y + 704 * z, 1024);
    vstd::arithmetic::div_mod::lemma_div_is_ordered(704 * z - 704 * y, 1441792int, 1024);
    vstd::arithmetic::div_mod::lemma_div_is_ordered(-1408 * 1024, 704 * z - 704 * y, 1024);
}

proof fn lemma_rescale_bounds(v: int, scale: int)
    requires
        -1408 <= v <= 1408,
        1 <= scale,
    ensures
        -1408 * 1024 <= tdiv(v * 1024, scale) <= 1408 * 1024,
{
    if v >= 0 {
        vstd::arithmetic::div_mod::lemma_div_is_ordered_by_denominator(v * 1024, 1, scale);
        vstd::arithmetic::div_mod::lemma_div_pos_is_pos(v * 1024, scale);
    } else {
        vstd::arithmetic::div_mod::lemma_div_is_ordered_by_denominator(-v * 1024, 1, scale);
        vstd::arithmetic::div_mod::lemma_div_pos_is_pos(-v * 1024, scale);
    }
}

/// Base color of a channel at the tracked minimum distance.
fn channel_base(rate: i32, min_distance: i32) -> (r: i32)
    requires
        1 <= rate <= 6,
        0 <= min_distance <= MIN_DISTANCE_START,
    ensures
        r == base_color(rate as int, min_distance as int),
        768 <= r <= 2816,
{
    proof {
        assert(0 <= rate * min_distance * 587 <= 6 * 102400 * 587) by (nonlinear_arith)
            requires
                1 <= rate <= 6,
                0 <= min_distance <= 102400,
        ;
    }
    let a: i32 = rate * min_distance * HUE_RATE;
    let t: i32 = a >> Q;
    assert(t == a / 1024) by (bit_vector)
        requires
            t == a >> 10i32,
    ;
    let theta: i32 = t & 4095;
    assert(theta == t % 4096) by (bit_vector)
        requires
            theta == t & 4095i32,
    ;
    let (_, sin) = cos_sin(theta);
    1792 + sin
}

/// A base color scaled and faded by the density.
fn channel_glow(base: i32, density: i32) -> (r: i32)
    requires
        768 <= base <= 2816,
        0 <= density <= ONE,
    ensures
        r == glow(base as int, density as int),
        0 <= r <= ONE,
{
    let fade: i32 = qexp(DENSITY_FADE * density);
    let att: i32 = (ONE * ONE) / fade;
    proof {
        vstd::arithmetic::div_mod::lemma_div_is_ordered_by_denominator(1048576, 1024, fade as int);
        vstd::arithmetic::div_mod::lemma_div_pos_is_pos(1048576, fade as int);
    }
    let g: i32 = (base * COLOR_GAIN) / ONE;
    proof {
        assert(0 <= g * att <= 47 * 1024) by (nonlinear_arith)
            requires
                0 <= g <= 47,
                0 <= att <= 1024,
        ;
    }
    (g * att) / ONE
}

/// The table word of cell `(cx, cy, cz)`: the cell center run through the
/// fold steps, its density and three faded sinusoidal colors quantized and
/// packed.
pub fn voxel_entry(cx: u32, cy: u32, cz: u32) -> (w: u32)
    requires
        cx < 128,
        cy < 128,
        cz < 128,
    ensures
        w == voxel_entry_spec(cx as int, cy as int, cz as int),
{
    let ghost start: FoldState = (
        cell_center(cx as int),
        cell_center(cy as int),
        cell_center(cz as int),
        102400,
        1024,
    );
    let mut x: i32 = 16 * cx as i32 - 1016;
    let mut y: i32 = 16 * cy as i32 - 1016;
    let mut z: i32 = 16 * cz as i32 - 1016;
    let mut min_distance: i32 = MIN_DISTANCE_START;
    let mut accum: i32 = ONE;
    let mut i: usize = 0;
    while i < FOLD_ITERATIONS
        invariant
            i <= FOLD_ITERATIONS,
            (x as int, y as int, z as int, min_distance as int, accum as int) == fold_iterate(
                start,
                i as nat,
            ),
            fold_bounded((x as int, y as int, z as int, min_distance as int, accum as int)),
        decreases FOLD_ITERATIONS - i,
    {
        let r = fold_once(x, y, z, min_distance, accum);
        x = r.0;
        y = r.1;
        z = r.2;
        min_distance = r.3;
        accum = r.4;
        i = i + 1;
    }
    let density: i32 = if accum > ONE {
        ONE
    } else {
        accum
    };
    let red: i32 = channel_glow(channel_base(3, min_distance), density);
    let green: i32 = channel_glow(channel_base(4, min_distance), density);
    let blue: i32 = channel_glow(channel_base(6, min_distance), density);
    VoxelTableEntry::from_channels(density, red, green, blue).pack()
}

/// The table entry of the cell that index `i` stands for.
pub open spec fn table_entry(i: int) -> u32 {
    voxel_entry_spec(i / 16384, (i / 128) % 128, i % 128)
}

/// Builds the whole table, cell by cell in index order.
pub fn build_table() -> (t: Vec<u32>)
    ensures
        t@.len() == TABLE_LEN,
        forall|i: int| 0 <= i < TABLE_LEN ==> #[trigger] t@[i] == table_entry(i),
{
    let mut t: Vec<u32> = Vec::with_capacity(TABLE_LEN);
    let mut x: u32 = 0;
    while x < 128
        invariant
            x <= 128,
            t@.len() == x * 16384,
            forall|i: int| 0 <= i < t@.len() ==> #[trigger] t@[i] == table_entry(i),
        decreases 128 - x,
    {
        let mut y: u32 = 0;
        while y < 128
            invariant
                x < 128,
                y <= 128,
                t@.len() == x * 16384 + y * 128,
                forall|i: int| 0 <= i < t@.len() ==> #[trigger] t@[i] == table_entry(i),
            decreases 128 - y,
        {
            let mut z: u32 = 0;
            while z < 128
                invariant
                    x < 128,
                    y < 128,
                    z <= 128,
                    t@.len() == x * 16384 + y * 128 + z,
                    forall|i: int| 0 <= i < t@.len() ==> #[trigger] t@[i] == table_entry(i),
                decreases 128 - z,
            {
                let w = voxel_entry(x, y, z);
                proof {
                    let i = x * 16384 + y * 128 + z;
                    vstd::arithmetic::div_mod::lemma_fundamental_div_mod_converse(
                        i as int,
                        16384,
                        x as int,
                        y * 128 + z,
                    );
                    vstd::arithmetic::div_mod::lemma_fundamental_div_mod_converse(
                        i as int,
                        128,
                        x * 128 + y as int,
                        z as int,
                    );
                    vstd::arithmetic::div_mod::lemma_fundamental_div_mod_converse(
                        x * 128 + y as int,
                        128,
                        x as int,
                        y as int,
                    );
                }
                t.push(w);
                z = z + 1;
            }
            y = y + 1;
        }
        x = x + 1;
    }
    t
}

/// Building the table twice gives the same table: each entry is a function
/// of its index alone.
pub proof fn lemma_build_deterministic(t1: Seq<u32>, t2: Seq<u32>)
    requires
        t1.len() == TABLE_LEN,
        t2.len() == TABLE_LEN,
        forall|i: int| 0 <= i < TABLE_LEN ==> #[trigger] t1[i] == table_entry(i),
        forall|i: int| 0 <= i < TABLE_LEN ==> #[trigger] t2[i] == table_entry(i),
    ensures
        t1 == t2,
{
    assert(t1 =~= t2);
}

} // verus!
