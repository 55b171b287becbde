//! The scanline-synchronised frame pipeline: the platform boundary, the
//! per-pixel shader abstraction, and the row schedules that fill a frame.
use vstd::prelude::*;

verus! {

/// Framebuffer width in pixels.
pub const FB_W: usize = 480;

/// Framebuffer height in pixels.
pub const FB_H: usize = 272;

/// Number of pixels of a framebuffer.
pub const FB_LEN: usize = 130560;

/// First row of the lower half of the frame.
pub const FB_MID: usize = 136;

/// Diagnostic color of a row whose deadline was missed.
pub const FAULT_COLOR: u8 = 222;

/// What the platform offers the engine.
pub trait Context {
    /// Spins until the display beam has passed row `pixel_y`. Returns `false`
    /// when the next frame's line signal fired first: the deadline is missed.
    fn wait_for_line(&mut self, pixel_y: usize) -> bool;

    /// Writes entry `i` of the color lookup table.
    fn set_lut(&mut self, i: u8, r: u8, g: u8, b: u8);

    /// Counts `n` additions, for cycle estimates only.
    fn stats_count_adds(&mut self, n: usize);

    /// Counts `n` comparisons, for cycle estimates only.
    fn stats_count_cmps(&mut self, n: usize);

    /// Counts `n` shifts, for cycle estimates only.
    fn stats_count_shrs(&mut self, n: usize);

    /// Counts `n` multiplications, for cycle estimates only.
    fn stats_count_muls(&mut self, n: usize);

    /// Counts `n` memory accesses, for cycle estimates only.
    fn stats_count_mems(&mut self, n: usize);

    /// Counts `n` divisions, for cycle estimates only.
    fn stats_count_divs(&mut self, n: usize);

    /// Counts `n` float conversions, for cycle estimates only.
    fn stats_count_fcvts(&mut self, n: usize);

    /// Counts `n` float multiplications, for cycle estimates only.
    fn stats_count_fmuls(&mut self, n: usize);
}

/// A platform together with a record of what the engine handed it and what
/// it answered: the color lookup table writes `(i, r, g, b)` in order, the
/// rows synced to in order with the answer to each, and the number of
/// counter calls, and the framebuffer as it stood at each sync. The record
/// is ghost state, kept by the methods below.
pub struct Platform<C: Context> {
    pub context: C,
    frame_log: Ghost<Seq<Seq<u8>>>,
    lut_log: Ghost<Seq<(u8, u8, u8, u8)>>,
    row_log: Ghost<Seq<usize>>,
    answer_log: Ghost<Seq<bool>>,
    stats_log: Ghost<nat>,
}

impl<C: Context> Platform<C> {
    /// The color lookup table writes so far, in order.
    pub closed spec fn lut_writes(&self) -> Seq<(u8, u8, u8, u8)> {
        self.lut_log@
    }

    /// The rows synced to so far, in order.
    pub closed spec fn waited(&self) -> Seq<usize> {
        self.row_log@
    }

    /// The platform's answer to each sync, in order: `false` for a miss.
    pub closed spec fn answers(&self) -> Seq<bool> {
        self.answer_log@
    }

    /// The framebuffer as it stood at each sync, in order.
    pub closed spec fn frames_seen(&self) -> Seq<Seq<u8>> {
        self.frame_log@
    }

    /// The number of counter calls so far.
    pub closed spec fn stats_calls(&self) -> nat {
        self.stats_log@
    }

    /// A platform with nothing handed to it yet.
    pub fn new(context: C) -> (r: Self)
        ensures
            r.lut_writes() == Seq::<(u8, u8, u8, u8)>::empty(),
            r.waited() == Seq::<usize>::empty(),
            r.answers() == Seq::<bool>::empty(),
            r.stats_calls() == 0,
            r.frames_seen() == Seq::<Seq<u8>>::empty(),
    {
        Platform {
            context,
            frame_log: Ghost(Seq::empty()),
            lut_log: Ghost(Seq::empty()),
            row_log: Ghost(Seq::empty()),
            answer_log: Ghost(Seq::empty()),
            stats_log: Ghost(0),
        }
    }

    /// Syncs to row `pixel_y`; `false` when its deadline was missed. `frame`
    /// is the framebuffer at the time of the call, for the record.
    pub fn wait_for_line(&mut self, pixel_y: usize, frame: Ghost<Seq<u8>>) -> (r: bool)
        ensures
            final(self).waited() == old(self).waited().push(pixel_y),
            final(self).frames_seen() == old(self).frames_seen().push(frame@),
            final(self).answers() == old(self).answers().push(r),
            final(self).lut_writes() == old(self).lut_writes(),
            final(self).stats_calls() == old(self).stats_calls(),
    {
        let r = self.context.wait_for_line(pixel_y);
        self.row_log = Ghost(self.row_log@.push(pixel_y));
        self.answer_log = Ghost(self.answer_log@.push(r));
        self.frame_log = Ghost(self.frame_log@.push(frame@));
        r
    }

    /// Writes entry `i` of the color lookup table.
    pub fn set_lut(&mut self, i: u8, r: u8, g: u8, b: u8)
        ensures
            final(self).lut_writes() == old(self).lut_writes().push((i, r, g, b)),
            final(self).frames_seen() == old(self).frames_seen(),
            final(self).waited() == old(self).waited(),
            final(self).answers() == old(self).answers(),
            final(self).stats_calls() == old(self).stats_calls(),
    {
        self.context.set_lut(i, r, g, b);
        self.lut_log = Ghost(self.lut_log@.push((i, r, g, b)));
    }

    /// Counts `n` additions.
    pub fn stats_count_adds(&mut self, n: usize)
        ensures
            views_kept(*old(self), *final(self)),
            final(self).stats_calls() == old(self).stats_calls() + 1,
    {
        self.context.stats_count_adds(n);
        self.stats_log = Ghost(self.stats_log@ + 1);
    }

    /// Counts `n` comparisons.
    pub fn stats_count_cmps(&mut self, n: usize)
        ensures
            views_kept(*old(self), *final(self)),
            final(self).stats_calls() == old(self).stats_calls() + 1,
    {
        self.context.stats_count_cmps(n);
        self.stats_log = Ghost(self.stats_log@ + 1);
    }

    /// Counts `n` shifts.
    pub fn stats_count_shrs(&mut self, n: usize)
        ensures
            views_kept(*old(self), *final(self)),
            final(self).stats_calls() == old(self).stats_calls() + 1,
    {
        self.context.stats_count_shrs(n);
        self.stats_log = Ghost(self.stats_log@ + 1);
    }

    /// Counts `n` multiplications.
    pub fn stats_count_muls(&mut self, n: usize)
        ensures
            views_kept(*old(self), *final(self)),
            final(self).stats_calls() == old(self).stats_calls() + 1,
    {
        self.context.stats_count_muls(n);
        self.stats_log = Ghost(self.stats_log@ + 1);
    }

    /// Counts `n` memory accesses.
    pub fn stats_count_mems(&mut self, n: usize)
        ensures
            views_kept(*old(self), *final(self)),
            final(self).stats_calls() == old(self).stats_calls() + 1,
    {
        self.context.stats_count_mems(n);
        self.stats_log = Ghost(self.stats_log@ + 1);
    }

    /// Counts `n` divisions.
    pub fn stats_count_divs(&mut self, n: usize)
        ensures
            views_kept(*old(self), *final(self)),
            final(self).stats_calls() == old(self).stats_calls() + 1,
    {
        self.context.stats_count_divs(n);
        self.stats_log = Ghost(self.stats_log@ + 1);
    }

    /// Counts `n` float conversions.
    pub fn stats_count_fcvts(&mut self, n: usize)
        ensures
            views_kept(*old(self), *final(self)),
            final(self).stats_calls() == old(self).stats_calls() + 1,
    {
        self.context.stats_count_fcvts(n);
        self.stats_log = Ghost(self.stats_log@ + 1);
    }

    /// Counts `n` float multiplications.
    pub fn stats_count_fmuls(&mut self, n: usize)
        ensures
            views_kept(*old(self), *final(self)),
            final(self).stats_calls() == old(self).stats_calls() + 1,
    {
        self.context.stats_count_fmuls(n);
        self.stats_log = Ghost(self.stats_log@ + 1);
    }
}

/// What a line wait does after one reading of the display controller.
#[derive(Clone, Copy, Debug, PartialEq, Eq, Structural)]
pub enum LinePoll {
    /// The beam has passed the row: compute it.
    Reached,
    /// Neither the row nor the next frame's signal yet: read again.
    Pending,
    /// The next frame's line signal fired first: the deadline is missed.
    Missed,
}

/// The decision of one poll: the row is passed once the beam's line is past
/// `first_active + pixel_y`; before that, a set line signal is a miss.
pub open spec fn line_poll_spec(beam_line: int, first_active: int, pixel_y: int, line_signal: bool) -> LinePoll {
    if beam_line > first_active + pixel_y {
        LinePoll::Reached
    } else if line_signal {
        LinePoll::Missed
    } else {
        LinePoll::Pending
    }
}

/// One poll of a line wait, for a platform that reads the beam's line and
/// the line signal from its display controller: `first_active` is the line
/// of the first framebuffer row.
pub fn line_poll(beam_line: usize, first_active: usize, pixel_y: usize, line_signal: bool) -> (r: LinePoll)
    ensures
        r == line_poll_spec(beam_line as int, first_active as int, pixel_y as int, line_signal),
{
    if beam_line > first_active && beam_line - first_active > pixel_y {
        LinePoll::Reached
    } else if line_signal {
        LinePoll::Missed
    } else {
        LinePoll::Pending
    }
}

/// Whether the context's views are as they were.
pub open spec fn views_kept<C: Context>(before: Platform<C>, after: Platform<C>) -> bool {
    &&& after.lut_writes() == before.lut_writes()
    &&& after.waited() == before.waited()
    &&& after.answers() == before.answers()
    &&& after.frames_seen() == before.frames_seen()
}

/// Whether the frame synced to `n` rows between `ctx0` and `ctx1` and, at
/// the sync for row `k`, no row from `k` on differed yet from `before`: no
/// row was written before its sync.
pub open spec fn synced_before_writes<C: Context>(
    before: Seq<u8>,
    ctx0: Platform<C>,
    ctx1: Platform<C>,
    n: int,
) -> bool {
    let seen = ctx1.frames_seen().subrange(ctx0.frames_seen().len() as int, ctx1.frames_seen().len() as int);
    &&& ctx1.frames_seen().len() == ctx0.frames_seen().len() + n
    &&& forall|k: int, x: int, y: int|
        0 <= k < n && on_screen(x, y) && y >= k ==> #[trigger] pix(seen[k], x, y) == pix(before, x, y)
}

/// The answers a frame got: all `true` for a complete frame; `true` up to
/// the late row and `false` for it for an abandoned frame.
pub open spec fn answers_got(r: FrameOutcome) -> Seq<bool> {
    match r {
        FrameOutcome::Complete => Seq::new(272, |i: int| true),
        FrameOutcome::TimedOut { row } => Seq::new((row + 1) as nat, |i: int| i < row),
    }
}

/// The palette writes of entries `0, 1, ..., n - 1` in that order, entry
/// `j` getting the color `color(j)`.
pub open spec fn palette_writes(color: spec_fn(int) -> (u8, u8, u8), n: int) -> Seq<(u8, u8, u8, u8)> {
    Seq::new(n as nat, |j: int| (j as u8, color(j).0, color(j).1, color(j).2))
}

/// Writing entry `n` after entries `0..n` gives the writes of `0..n+1`.
pub proof fn lemma_palette_push(a: Seq<(u8, u8, u8, u8)>, color: spec_fn(int) -> (u8, u8, u8), n: int)
    requires
        0 <= n,
    ensures
        (a + palette_writes(color, n)).push((n as u8, color(n).0, color(n).1, color(n).2)) == a
            + palette_writes(color, n + 1),
{
    assert((a + palette_writes(color, n)).push((n as u8, color(n).0, color(n).1, color(n).2)) =~= a
        + palette_writes(color, n + 1));
}

/// The tail of `a + b` after `a` is `b`.
pub proof fn lemma_seen_tail(a: Seq<Seq<u8>>, b: Seq<Seq<u8>>)
    ensures
        (a + b).subrange(a.len() as int, (a + b).len() as int) == b,
{
    assert((a + b).subrange(a.len() as int, (a + b).len() as int) =~= b);
}

/// `n` answers `true`, then one more answer.
pub proof fn lemma_answers_push(a: Seq<bool>, n: int, answer: bool)
    requires
        0 <= n,
    ensures
        (a + Seq::new(n as nat, |i: int| true)).push(answer) == a + Seq::new(
            (n + 1) as nat,
            |i: int| i < n || answer,
        ),
{
    assert((a + Seq::new(n as nat, |i: int| true)).push(answer) =~= a + Seq::new(
        (n + 1) as nat,
        |i: int| i < n || answer,
    ));
}

/// The rows `0, 1, ..., n - 1`.
pub open spec fn rows_upto(n: int) -> Seq<usize> {
    Seq::new(n as nat, |i: int| i as usize)
}

/// The rows a frame synced to: every row for a complete frame, the rows up
/// to the late one for an abandoned frame.
pub open spec fn rows_synced(r: FrameOutcome) -> Seq<usize> {
    match r {
        FrameOutcome::Complete => rows_upto(272),
        FrameOutcome::TimedOut { row } => rows_upto(row + 1),
    }
}

/// A per-pixel color function, with its value stated as a spec.
pub trait Shader {
    /// The color of pixel `(x, y)`.
    spec fn pixel(&self, x: int, y: int) -> u8;

    /// Whether the shader's parameters are in range.
    spec fn ready(&self) -> bool;

    /// Computes the color of pixel `(x, y)`.
    fn shade<C: Context>(&self, context: &mut Platform<C>, x: usize, y: usize) -> (r: u8)
        requires
            self.ready(),
            x < FB_W,
            y < FB_H,
        ensures
            r == self.pixel(x as int, y as int),
            views_kept(*old(context), *final(context)),
    ;
}

/// An animation driven by the platform: `pre_render` once in the vertical
/// blank, then `render` for the frame.
pub trait Demo {
    /// Whether the demo's state is consistent.
    spec fn inv(&self) -> bool;

    /// Prepares the next frame: uploads its palette.
    fn pre_render<C: Context>(&mut self, context: &mut Platform<C>)
        requires
            old(self).inv(),
        ensures
            final(self).inv(),
            final(context).waited() == old(context).waited(),
            final(context).answers() == old(context).answers(),
            final(context).stats_calls() == old(context).stats_calls(),
            final(context).frames_seen() == old(context).frames_seen(),
    ;

    /// Advances the animation by one frame and renders it into `fb`.
    fn render<C: Context>(&mut self, context: &mut Platform<C>, fb: &mut Vec<u8>) -> (r: FrameOutcome)
        requires
            old(self).inv(),
            old(fb)@.len() == FB_LEN,
        ensures
            final(self).inv(),
            final(fb)@.len() == FB_LEN,
            final(context).lut_writes() == old(context).lut_writes(),
            final(context).waited() == old(context).waited() + rows_synced(r),
            final(context).answers() == old(context).answers() + answers_got(r),
            synced_before_writes(old(fb)@, *old(context), *final(context), rows_synced(r).len() as int),
    ;
}

/// How a frame ended.
#[derive(Clone, Copy, Debug, PartialEq, Eq, Structural)]
pub enum FrameOutcome {
    /// Every row was finished before the beam read it.
    Complete,
    /// Row `row` missed its deadline; it was painted `FAULT_COLOR` and the
    /// frame was abandoned.
    TimedOut { row: usize },
}

/// Pixel `(x, y)` of a row-major framebuffer.
pub open spec fn pix(fb: Seq<u8>, x: int, y: int) -> u8 {
    fb[y * 480 + x]
}

/// Whether `(x, y)` is a coordinate of the frame.
pub open spec fn on_screen(x: int, y: int) -> bool {
    0 <= x < 480 && 0 <= y < 272
}

/// Whether `fb2` equals `fb1` but on row `y`.
pub open spec fn same_but_row(fb1: Seq<u8>, fb2: Seq<u8>, y: int) -> bool {
    &&& fb2.len() == fb1.len()
    &&& forall|x2: int, y2: int|
        on_screen(x2, y2) && y2 != y ==> #[trigger] pix(fb2, x2, y2) == pix(fb1, x2, y2)
}

/// Reads pixel `(x, y)`.
pub fn get_pixel(fb: &Vec<u8>, x: usize, y: usize) -> (r: u8)
    requires
        fb@.len() == FB_LEN,
        x < FB_W,
        y < FB_H,
    ensures
        r == pix(fb@, x as int, y as int),
{
    fb[y * FB_W + x]
}

/// Writes pixel `(x, y)`; every other pixel keeps its value.
pub fn set_pixel(fb: &mut Vec<u8>, x: usize, y: usize, v: u8)
    requires
        old(fb)@.len() == FB_LEN,
        x < FB_W,
        y < FB_H,
    ensures
        final(fb)@.len() == FB_LEN,
        forall|x2: int, y2: int|
            on_screen(x2, y2) ==> #[trigger] pix(final(fb)@, x2, y2) == if x2 == x && y2 == y {
                v
            } else {
                pix(old(fb)@, x2, y2)
            },
{
    fb.set(y * FB_W + x, v);
}

/// Whether pixel `(x, y)` of the upper half is shaded rather than
/// reconstructed: the first row, the pixels of even `x + y`, and the two
/// border columns.
pub open spec fn shaded(x: int, y: int) -> bool {
    y == 0 || (x + y) % 2 == 0 || x == 0 || x == 479
}

/// The mean of the four orthogonal neighbors of `(x, y)`, rounded down.
pub open spec fn neighbor_mean(fb: Seq<u8>, x: int, y: int) -> int {
    (pix(fb, x, y - 1) + pix(fb, x, y + 1) + pix(fb, x - 1, y) + pix(fb, x + 1, y)) / 4
}

/// The floor of the mean of the four orthogonal neighbors of `(x, y)`.
pub fn average_value(fb: &Vec<u8>, pixel_x: usize, pixel_y: usize) -> (r: u8)
    requires
        fb@.len() == FB_LEN,
        1 <= pixel_x < FB_W - 1,
        1 <= pixel_y < FB_H - 1,
    ensures
        r == neighbor_mean(fb@, pixel_x as int, pixel_y as int),
{
    let sum: u32 = get_pixel(fb, pixel_x, pixel_y - 1) as u32 + get_pixel(fb, pixel_x, pixel_y + 1) as u32
        + get_pixel(fb, pixel_x - 1, pixel_y) as u32 + get_pixel(fb, pixel_x + 1, pixel_y) as u32;
    (sum / 4) as u8
}

/// Paints every pixel of row `y` with `FAULT_COLOR`.
pub fn fault_row(fb: &mut Vec<u8>, y: usize)
    requires
        old(fb)@.len() == FB_LEN,
        y < FB_H,
    ensures
        same_but_row(old(fb)@, final(fb)@, y as int),
        forall|x: int| 0 <= x < 480 ==> #[trigger] pix(final(fb)@, x, y as int) == FAULT_COLOR,
{
    let mut x: usize = 0;
    while x < FB_W
        invariant
            x <= FB_W,
            y < FB_H,
            fb@.len() == FB_LEN,
            same_but_row(old(fb)@, fb@, y as int),
            forall|x2: int| 0 <= x2 < x ==> #[trigger] pix(fb@, x2, y as int) == FAULT_COLOR,
        decreases FB_W - x,
    {
        set_pixel(fb, x, y, FAULT_COLOR);
        x = x + 1;
    }
}

/// Shades every pixel of row `y`.
pub fn shade_row<S: Shader, C: Context>(shader: &S, context: &mut Platform<C>, fb: &mut Vec<u8>, y: usize)
    requires
        shader.ready(),
        old(fb)@.len() == FB_LEN,
        y < FB_H,
    ensures
        same_but_row(old(fb)@, final(fb)@, y as int),
        forall|x: int| 0 <= x < 480 ==> #[trigger] pix(final(fb)@, x, y as int) == shader.pixel(x, y as int),
        views_kept(*old(context), *final(context)),
{
    let mut x: usize = 0;
    while x < FB_W
        invariant
            x <= FB_W,
            y < FB_H,
            shader.ready(),
            fb@.len() == FB_LEN,
            same_but_row(old(fb)@, fb@, y as int),
            forall|x2: int| 0 <= x2 < x ==> #[trigger] pix(fb@, x2, y as int) == shader.pixel(x2, y as int),
            views_kept(*old(context), *context),
        decreases FB_W - x,
    {
        let v = shader.shade(context, x, y);
        set_pixel(fb, x, y, v);
        x = x + 1;
    }
}

/// Shades the pixels of row `y` that `shaded` selects; the others keep
/// their values.
pub fn shade_row_checkerboard<S: Shader, C: Context>(
    shader: &S,
    context: &mut Platform<C>,
    fb: &mut Vec<u8>,
    y: usize,
)
    requires
        shader.ready(),
        old(fb)@.len() == FB_LEN,
        1 <= y < FB_MID,
    ensures
        same_but_row(old(fb)@, final(fb)@, y as int),
        forall|x: int|
            0 <= x < 480 ==> #[trigger] pix(final(fb)@, x, y as int) == if shaded(x, y as int) {
                shader.pixel(x, y as int)
            } else {
                pix(old(fb)@, x, y as int)
            },
        views_kept(*old(context), *final(context)),
{
    let mut x: usize = y & 1;
    assert(x == y % 2) by (bit_vector)
        requires
            x == y & 1,
    ;
    while x < FB_W
        invariant
            x <= FB_W + 1,
            x % 2 == y % 2,
            1 <= y < FB_MID,
            shader.ready(),
            fb@.len() == FB_LEN,
            same_but_row(old(fb)@, fb@, y as int),
            forall|x2: int|
                0 <= x2 < 480 ==> #[trigger] pix(fb@, x2, y as int) == if x2 < x && (x2 + y) % 2 == 0 {
                    shader.pixel(x2, y as int)
                } else {
                    pix(old(fb)@, x2, y as int)
                },
            views_kept(*old(context), *context),
        decreases FB_W + 1 - x,
    {
        let v = shader.shade(context, x, y);
        set_pixel(fb, x, y, v);
        x = x + 2;
    }
    let edge: usize = if y % 2 == 1 { 0 } else { FB_W - 1 };
    let v = shader.shade(context, edge, y);
    set_pixel(fb, edge, y, v);
}

/// Reconstructs the pixels of row `y` that `shaded` leaves out from their
/// four neighbors; the others keep their values.
pub fn average_row(fb: &mut Vec<u8>, y: usize)
    requires
        old(fb)@.len() == FB_LEN,
        1 <= y < FB_MID,
    ensures
        same_but_row(old(fb)@, final(fb)@, y as int),
        forall|x: int|
            0 <= x < 480 ==> #[trigger] pix(final(fb)@, x, y as int) == if shaded(x, y as int) {
                pix(old(fb)@, x, y as int) as int
            } else {
                neighbor_mean(old(fb)@, x, y as int)
            },
{
    let mut x: usize = if y % 2 == 1 { 2 } else { 1 };
    while x < FB_W - 1
        invariant
            1 <= x <= FB_W,
            (x + y) % 2 == 1,
            1 <= y < FB_MID,
            fb@.len() == FB_LEN,
            same_but_row(old(fb)@, fb@, y as int),
            forall|x2: int|
                0 <= x2 < 480 ==> #[trigger] pix(fb@, x2, y as int) == if x2 < x && !shaded(x2, y as int) {
                    neighbor_mean(old(fb)@, x2, y as int)
                } else {
                    pix(old(fb)@, x2, y as int) as int
                },
        decreases FB_W - x,
    {
        let v = average_value(fb, x, y);
        assert(v == neighbor_mean(old(fb)@, x as int, y as int)) by {
            assert(pix(fb@, x as int, y as int - 1) == pix(old(fb)@, x as int, y as int - 1));
            assert(pix(fb@, x as int, y as int + 1) == pix(old(fb)@, x as int, y as int + 1));
            assert(pix(fb@, x as int - 1, y as int) == pix(old(fb)@, x as int - 1, y as int));
            assert(pix(fb@, x as int + 1, y as int) == pix(old(fb)@, x as int + 1, y as int));
        }
        set_pixel(fb, x, y, v);
        x = x + 2;
    }
}

/// Copies into row `y` of the lower half the point reflection of the upper
/// half: pixel `(x, y)` takes the value of `(FB_W-1-x, FB_H-1-y)`.
pub fn mirror_row(fb: &mut Vec<u8>, y: usize)
    requires
        old(fb)@.len() == FB_LEN,
        FB_MID <= y < FB_H,
    ensures
        same_but_row(old(fb)@, final(fb)@, y as int),
        forall|x: int|
            0 <= x < 480 ==> #[trigger] pix(final(fb)@, x, y as int) == pix(old(fb)@, 479 - x, 271 - y),
{
    let mut x: usize = 0;
    while x < FB_W
        invariant
            x <= FB_W,
            FB_MID <= y < FB_H,
            fb@.len() == FB_LEN,
            same_but_row(old(fb)@, fb@, y as int),
            forall|x2: int|
                0 <= x2 < x ==> #[trigger] pix(fb@, x2, y as int) == pix(old(fb)@, 479 - x2, 271 - y),
        decreases FB_W - x,
    {
        let v = get_pixel(fb, FB_W - 1 - x, FB_H - 1 - y);
        set_pixel(fb, x, y, v);
        x = x + 1;
    }
}

/// Reconstructs the left-out pixels of the last row of the upper half and
/// writes each also to its reflection in the first row of the lower half.
pub fn average_row_mirrored(fb: &mut Vec<u8>)
    requires
        old(fb)@.len() == FB_LEN,
    ensures
        final(fb)@.len() == FB_LEN,
        forall|x2: int, y2: int|
            on_screen(x2, y2) && y2 != 135 && y2 != 136 ==> #[trigger] pix(final(fb)@, x2, y2) == pix(
                old(fb)@,
                x2,
                y2,
            ),
        forall|x: int|
            0 <= x < 480 ==> #[trigger] pix(final(fb)@, x, 135) == if shaded(x, 135) {
                pix(old(fb)@, x, 135) as int
            } else {
                neighbor_mean(old(fb)@, x, 135)
            },
        forall|x: int|
            0 <= x < 480 ==> #[trigger] pix(final(fb)@, x, 136) == if shaded(479 - x, 135) {
                pix(old(fb)@, x, 136) as int
            } else {
                neighbor_mean(old(fb)@, 479 - x, 135)
            },
{
    let y: usize = FB_MID - 1;
    let mut x: usize = 2;
    while x < FB_W - 1
        invariant
            2 <= x <= FB_W,
            x % 2 == 0,
            y == 135,
            fb@.len() == FB_LEN,
            forall|x2: int, y2: int|
                on_screen(x2, y2) && y2 != 135 && y2 != 136 ==> #[trigger] pix(fb@, x2, y2) == pix(
                    old(fb)@,
                    x2,
                    y2,
                ),
            forall|x2: int|
                0 <= x2 < 480 ==> #[trigger] pix(fb@, x2, 135) == if x2 < x && !shaded(x2, 135) {
                    neighbor_mean(old(fb)@, x2, 135)
                } else {
                    pix(old(fb)@, x2, 135) as int
                },
            forall|x2: int|
                0 <= x2 < 480 ==> #[trigger] pix(fb@, x2, 136) == if 479 - x2 < x && !shaded(
                    479 - x2,
                    135,
                ) {
                    neighbor_mean(old(fb)@, 479 - x2, 135)
                } else {
                    pix(old(fb)@, x2, 136) as int
                },
        decreases FB_W - x,
    {
        let v = average_value(fb, x, y);
        assert(v == neighbor_mean(old(fb)@, x as int, 135)) by {
            assert(pix(fb@, x as int, 134) == pix(old(fb)@, x as int, 134));
            assert(pix(fb@, x as int, 136) == pix(old(fb)@, x as int, 136));
            assert(pix(fb@, x as int - 1, 135) == pix(old(fb)@, x as int - 1, 135));
            assert(pix(fb@, x as int + 1, 135) == pix(old(fb)@, x as int + 1, 135));
        }
        set_pixel(fb, x, y, v);
        set_pixel(fb, FB_W - 1 - x, FB_MID, v);
        x = x + 2;
    }
}

/// The value of pixel `(x, y)` of the upper half once a frame is done:
/// shaded pixels carry the shader's color, the others the mean of their four
/// shaded neighbors. Below the last upper row lies its reflection.
pub open spec fn top_pixel<S: Shader>(s: &S, x: int, y: int) -> int {
    if shaded(x, y) {
        s.pixel(x, y) as int
    } else {
        let down = if y + 1 < 136 {
            s.pixel(x, y + 1)
        } else {
            s.pixel(479 - x, y)
        };
        (s.pixel(x, y - 1) + down + s.pixel(x - 1, y) + s.pixel(x + 1, y)) / 4
    }
}

/// The value of pixel `(x, y)` once a half-shaded, point-mirrored frame is
/// done.
pub open spec fn frame_pixel<S: Shader>(s: &S, x: int, y: int) -> int {
    if y < 136 {
        top_pixel(s, x, y)
    } else {
        top_pixel(s, 479 - x, 271 - y)
    }
}

/// What holds after a frame was abandoned at row `row`, `before` being the
/// framebuffer the frame started from: that row carries the fault color,
/// every row above the one before it is done, and every row below it is as
/// it was.
pub open spec fn abandoned_at(before: Seq<u8>, fb: Seq<u8>, row: int, done: spec_fn(int, int) -> int) -> bool {
    &&& 0 <= row < 272
    &&& forall|x: int| 0 <= x < 480 ==> #[trigger] pix(fb, x, row) == FAULT_COLOR
    &&& forall|x: int, y: int| on_screen(x, y) && y < row - 1 ==> #[trigger] pix(fb, x, y) == done(x, y)
    &&& forall|x: int, y: int| on_screen(x, y) && y > row ==> #[trigger] pix(fb, x, y) == pix(before, x, y)
}

/// Appending row `n` to the rows `0..n` gives the rows `0..n+1`.
pub proof fn lemma_rows_push(a: Seq<usize>, n: int)
    requires
        0 <= n < 0x1_0000,
    ensures
        (a + rows_upto(n)).push(n as usize) == a + rows_upto(n + 1),
{
    assert((a + rows_upto(n)).push(n as usize) =~= a + rows_upto(n + 1));
}

/// Renders a frame in which only half the pixels of the upper half are
/// shaded, in a checkerboard, the others rebuilt one row behind the scan
/// from their neighbors, and the lower half is the point reflection of the
/// upper half. Before each row the platform is asked to sync to it; a missed
/// deadline paints that row with `FAULT_COLOR` and abandons the frame.
pub fn render_checkerboard<S: Shader, C: Context>(shader: &S, context: &mut Platform<C>, fb: &mut Vec<u8>) -> (r:
    FrameOutcome)
    requires
        shader.ready(),
        old(fb)@.len() == FB_LEN,
    ensures
        final(fb)@.len() == FB_LEN,
        r is Complete ==> forall|x: int, y: int|
            on_screen(x, y) ==> #[trigger] pix(final(fb)@, x, y) == frame_pixel(shader, x, y),
        r is TimedOut ==> abandoned_at(
            old(fb)@,
            final(fb)@,
            r->row as int,
            |x: int, y: int| frame_pixel(shader, x, y),
        ),
        r is TimedOut ==> forall|x: int|
            0 <= x < 480 && 1 <= r->row && (r->row > 136 || shaded(x, r->row - 1)) ==> #[trigger] pix(
                final(fb)@,
                x,
                r->row - 1,
            ) == frame_pixel(shader, x, r->row - 1),
        final(context).lut_writes() == old(context).lut_writes(),
        final(context).waited() == old(context).waited() + rows_synced(r),
        final(context).answers() == old(context).answers() + answers_got(r),
        synced_before_writes(old(fb)@, *old(context), *final(context), rows_synced(r).len() as int),
{
    let ghost log = old(context).waited();
    let ghost alog = old(context).answers();
    let ghost mut seen: Seq<Seq<u8>> = Seq::empty();
    proof {
        assert(old(context).frames_seen() + seen =~= old(context).frames_seen());
        assert(alog + Seq::new(0, |i: int| true) =~= alog);
        assert(log + rows_upto(0) =~= log);
        lemma_rows_push(log, 0);
    }
    let ok = context.wait_for_line(0, Ghost(fb@));
    proof {
        seen = seen.push(fb@);
        lemma_seen_tail(old(context).frames_seen(), seen);
        lemma_answers_push(alog, 0 as int, ok);
        assert(Seq::new((0 + 1) as nat, |i: int| i < 0 || ok) =~= if ok {
            Seq::new((0 + 1) as nat, |i: int| true)
        } else {
            answers_got(FrameOutcome::TimedOut { row: 0 })
        });
    }
    if !ok {
        fault_row(fb, 0);
        return FrameOutcome::TimedOut { row: 0 };
    }
    shade_row(shader, context, fb, 0);
    let mut y: usize = 1;
    while y < FB_MID
        invariant
            1 <= y <= FB_MID,
            shader.ready(),
            fb@.len() == FB_LEN,
            context.lut_writes() == old(context).lut_writes(),
            context.waited() == log + rows_upto(y as int),
            log == old(context).waited(),
            context.answers() == alog + Seq::new(y as nat, |i: int| true),
            alog == old(context).answers(),
            context.frames_seen() == old(context).frames_seen() + seen,
            seen.len() == y,
            forall|k: int, x: int, y2: int|
                0 <= k < y && on_screen(x, y2) && y2 >= k ==> #[trigger] pix(seen[k], x, y2) == pix(
                    old(fb)@,
                    x,
                    y2,
                ),
            forall|x: int, y2: int|
                on_screen(x, y2) && y2 >= y ==> #[trigger] pix(fb@, x, y2) == pix(old(fb)@, x, y2),
            forall|x: int, y2: int|
                on_screen(x, y2) && y2 < y - 1 ==> #[trigger] pix(fb@, x, y2) == frame_pixel(shader, x, y2),
            forall|x: int|
                0 <= x < 480 && shaded(x, y - 1) ==> #[trigger] pix(fb@, x, y - 1) == shader.pixel(x, y - 1),
        decreases FB_MID - y,
    {
        proof {
            lemma_rows_push(log, y as int);
        }
        let ok = context.wait_for_line(y, Ghost(fb@));
        proof {
            seen = seen.push(fb@);
            lemma_seen_tail(old(context).frames_seen(), seen);
            lemma_answers_push(alog, y as int, ok);
            assert(Seq::new((y + 1) as nat, |i: int| i < y || ok) =~= if ok {
                Seq::new((y + 1) as nat, |i: int| true)
            } else {
                answers_got(FrameOutcome::TimedOut { row: y })
            });
        }
        if !ok {
            fault_row(fb, y);
            return FrameOutcome::TimedOut { row: y };
        }
        shade_row_checkerboard(shader, context, fb, y);
        if y >= 2 {
            average_row(fb, y - 1);
        }
        assert forall|x: int, y2: int| on_screen(x, y2) && y2 < y implies #[trigger] pix(fb@, x, y2)
            == frame_pixel(shader, x, y2) by {
            if y2 == y - 1 {
                if !shaded(x, y2) {
                    assert(pix(fb@, x, y2 - 1) == shader.pixel(x, y2 - 1));
                    assert(pix(fb@, x, y2 + 1) == shader.pixel(x, y2 + 1));
                    assert(pix(fb@, x - 1, y2) == shader.pixel(x - 1, y2));
                    assert(pix(fb@, x + 1, y2) == shader.pixel(x + 1, y2));
                }
            }
        }
        y = y + 1;
    }
    proof {
        lemma_rows_push(log, FB_MID as int);
    }
    let ok = context.wait_for_line(FB_MID, Ghost(fb@));
    proof {
        seen = seen.push(fb@);
        lemma_seen_tail(old(context).frames_seen(), seen);
        lemma_answers_push(alog, FB_MID as int, ok);
        assert(Seq::new((FB_MID + 1) as nat, |i: int| i < FB_MID || ok) =~= if ok {
            Seq::new((FB_MID + 1) as nat, |i: int| true)
        } else {
            answers_got(FrameOutcome::TimedOut { row: FB_MID })
        });
    }
    if !ok {
        fault_row(fb, FB_MID);
        return FrameOutcome::TimedOut { row: FB_MID };
    }
    mirror_row(fb, FB_MID);
    average_row_mirrored(fb);
    y = FB_MID + 1;
    while y < FB_H
        invariant
            FB_MID < y <= FB_H,
            fb@.len() == FB_LEN,
            context.lut_writes() == old(context).lut_writes(),
            context.waited() == log + rows_upto(y as int),
            log == old(context).waited(),
            context.answers() == alog + Seq::new(y as nat, |i: int| true),
            alog == old(context).answers(),
            context.frames_seen() == old(context).frames_seen() + seen,
            seen.len() == y,
            forall|k: int, x: int, y2: int|
                0 <= k < y && on_screen(x, y2) && y2 >= k ==> #[trigger] pix(seen[k], x, y2) == pix(
                    old(fb)@,
                    x,
                    y2,
                ),
            forall|x: int, y2: int|
                on_screen(x, y2) && y2 >= y ==> #[trigger] pix(fb@, x, y2) == pix(old(fb)@, x, y2),
            forall|x: int, y2: int|
                on_screen(x, y2) && y2 < y ==> #[trigger] pix(fb@, x, y2) == frame_pixel(shader, x, y2),
        decreases FB_H - y,
    {
        proof {
            lemma_rows_push(log, y as int);
        }
        let ok = context.wait_for_line(y, Ghost(fb@));
        proof {
            seen = seen.push(fb@);
            lemma_seen_tail(old(context).frames_seen(), seen);
            lemma_answers_push(alog, y as int, ok);
            assert(Seq::new((y + 1) as nat, |i: int| i < y || ok) =~= if ok {
                Seq::new((y + 1) as nat, |i: int| true)
            } else {
                answers_got(FrameOutcome::TimedOut { row: y })
            });
        }
        if !ok {
            fault_row(fb, y);
            return FrameOutcome::TimedOut { row: y };
        }
        mirror_row(fb, y);
        y = y + 1;
    }
    FrameOutcome::Complete
}

/// Whether pixel `(x, y)` of a half-shaded, point-mirrored frame is rebuilt
/// from its neighbors rather than shaded or copied from a shaded pixel.
pub open spec fn reconstructed(x: int, y: int) -> bool {
    if y < 136 {
        !shaded(x, y)
    } else {
        !shaded(479 - x, 271 - y)
    }
}

/// In a finished half-shaded frame, every pixel that was filled only by
/// averaging equals the floor of the mean of its four orthogonal neighbors.
pub proof fn lemma_reconstructed_is_neighbor_mean<S: Shader>(s: &S, fb: Seq<u8>, x: int, y: int)
    requires
        fb.len() == FB_LEN,
        forall|x2: int, y2: int| on_screen(x2, y2) ==> #[trigger] pix(fb, x2, y2) == frame_pixel(s, x2, y2),
        on_screen(x, y),
        reconstructed(x, y),
    ensures
        1 <= x < 479,
        1 <= y < 271,
        pix(fb, x, y) == neighbor_mean(fb, x, y),
{
    assert(pix(fb, x, y) == frame_pixel(s, x, y));
    assert(pix(fb, x, y - 1) == frame_pixel(s, x, y - 1));
    assert(pix(fb, x, y + 1) == frame_pixel(s, x, y + 1));
    assert(pix(fb, x - 1, y) == frame_pixel(s, x - 1, y));
    assert(pix(fb, x + 1, y) == frame_pixel(s, x + 1, y));
}

/// Renders every pixel of every row with the shader. Before each row the
/// platform is asked to sync to it; a missed deadline paints that row with
/// `FAULT_COLOR` and abandons the frame.
pub fn render_full<S: Shader, C: Context>(shader: &S, context: &mut Platform<C>, fb: &mut Vec<u8>) -> (r:
    FrameOutcome)
    requires
        shader.ready(),
        old(fb)@.len() == FB_LEN,
    ensures
        final(fb)@.len() == FB_LEN,
        r is Complete ==> forall|x: int, y: int|
            on_screen(x, y) ==> #[trigger] pix(final(fb)@, x, y) == shader.pixel(x, y),
        r is TimedOut ==> abandoned_at(
            old(fb)@,
            final(fb)@,
            r->row as int,
            |x: int, y: int| shader.pixel(x, y) as int,
        ),
        r is TimedOut ==> forall|x: int, y: int|
            on_screen(x, y) && y < r->row ==> #[trigger] pix(final(fb)@, x, y) == shader.pixel(x, y),
        final(context).lut_writes() == old(context).lut_writes(),
        final(context).waited() == old(context).waited() + rows_synced(r),
        final(context).answers() == old(context).answers() + answers_got(r),
        synced_before_writes(old(fb)@, *old(context), *final(context), rows_synced(r).len() as int),
{
    let ghost log = old(context).waited();
    let ghost alog = old(context).answers();
    let ghost mut seen: Seq<Seq<u8>> = Seq::empty();
    proof {
        assert(old(context).frames_seen() + seen =~= old(context).frames_seen());
        assert(alog + Seq::new(0, |i: int| true) =~= alog);
        assert(log + rows_upto(0) =~= log);
    }
    let mut y: usize = 0;
    while y < FB_H
        invariant
            y <= FB_H,
            shader.ready(),
            fb@.len() == FB_LEN,
            context.lut_writes() == old(context).lut_writes(),
            context.waited() == log + rows_upto(y as int),
            log == old(context).waited(),
            context.answers() == alog + Seq::new(y as nat, |i: int| true),
            alog == old(context).answers(),
            context.frames_seen() == old(context).frames_seen() + seen,
            seen.len() == y,
            forall|k: int, x: int, y2: int|
                0 <= k < y && on_screen(x, y2) && y2 >= k ==> #[trigger] pix(seen[k], x, y2) == pix(
                    old(fb)@,
                    x,
                    y2,
                ),
            forall|x: int, y2: int|
                on_screen(x, y2) && y2 >= y ==> #[trigger] pix(fb@, x, y2) == pix(old(fb)@, x, y2),
            forall|x: int, y2: int|
                on_screen(x, y2) && y2 < y ==> #[trigger] pix(fb@, x, y2) == shader.pixel(x, y2),
        decreases FB_H - y,
    {
        proof {
            lemma_rows_push(log, y as int);
        }
        let ok = context.wait_for_line(y, Ghost(fb@));
        proof {
            seen = seen.push(fb@);
            lemma_seen_tail(old(context).frames_seen(), seen);
            lemma_answers_push(alog, y as int, ok);
            assert(Seq::new((y + 1) as nat, |i: int| i < y || ok) =~= if ok {
                Seq::new((y + 1) as nat, |i: int| true)
            } else {
                answers_got(FrameOutcome::TimedOut { row: y })
            });
        }
        if !ok {
            fault_row(fb, y);
            return FrameOutcome::TimedOut { row: y };
        }
        shade_row(shader, context, fb, y);
        y = y + 1;
    }
    FrameOutcome::Complete
}

} // verus!
