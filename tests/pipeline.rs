use demos::frame::{
    average_value, line_poll, render_checkerboard, LinePoll, render_full, Context, Platform, Demo, FrameOutcome, Shader, FAULT_COLOR,
    FB_H, FB_LEN, FB_MID, FB_W,
};
use demos::julia::{palette_entry, Julia, FRAME_MAX};

struct FakePlatform {
    late_row: Option<usize>,
    waits: Vec<usize>,
    lut: Vec<(u8, u8, u8, u8)>,
    muls: usize,
}

impl FakePlatform {
    fn new(late_row: Option<usize>) -> Self {
        FakePlatform { late_row, waits: Vec::new(), lut: Vec::new(), muls: 0 }
    }
}

impl Context for FakePlatform {
    fn wait_for_line(&mut self, pixel_y: usize) -> bool {
        self.waits.push(pixel_y);
        self.late_row != Some(pixel_y)
    }
    fn set_lut(&mut self, i: u8, r: u8, g: u8, b: u8) {
        self.lut.push((i, r, g, b));
    }
    fn stats_count_adds(&mut self, _n: usize) {}
    fn stats_count_cmps(&mut self, _n: usize) {}
    fn stats_count_shrs(&mut self, _n: usize) {}
    fn stats_count_muls(&mut self, n: usize) {
        self.muls += n;
    }
    fn stats_count_mems(&mut self, _n: usize) {}
    fn stats_count_divs(&mut self, _n: usize) {}
    fn stats_count_fcvts(&mut self, _n: usize) {}
    fn stats_count_fmuls(&mut self, _n: usize) {}
}

fn rendered_julia() -> (Julia, Vec<u8>) {
    let mut demo = Julia::new();
    let mut fb = vec![7u8; FB_LEN];
    let mut ctx = Platform::new(FakePlatform::new(None));
    let outcome = demo.render(&mut ctx, &mut fb);
    assert_eq!(outcome, FrameOutcome::Complete);
    (demo, fb)
}

fn shaded(x: usize, y: usize) -> bool {
    y == 0 || (x + y) % 2 == 0 || x == 0 || x == FB_W - 1
}

#[test]
fn reconstructed_pixels_are_the_mean_of_their_neighbors() {
    let (_, fb) = rendered_julia();
    let mut count = 0;
    for y in 1..FB_H - 1 {
        for x in 1..FB_W - 1 {
            let (mx, my) = if y < FB_MID { (x, y) } else { (FB_W - 1 - x, FB_H - 1 - y) };
            if !shaded(mx, my) {
                let i = y * FB_W + x;
                let sum = fb[i - FB_W] as u32 + fb[i + FB_W] as u32 + fb[i - 1] as u32 + fb[i + 1] as u32;
                assert_eq!(fb[i] as u32, sum / 4, "pixel ({}, {})", x, y);
                assert_eq!(average_value(&fb, x, y) as u32, sum / 4);
                count += 1;
            }
        }
    }
    assert!(count > 60000);
}

#[test]
fn lower_half_is_the_point_reflection() {
    let (_, fb) = rendered_julia();
    for y in FB_MID..FB_H {
        for x in 0..FB_W {
            assert_eq!(fb[y * FB_W + x], fb[(FB_H - 1 - y) * FB_W + FB_W - 1 - x]);
        }
    }
}

#[test]
fn shaded_pixels_carry_the_shader_color() {
    let (demo, fb) = rendered_julia();
    let mut ctx = Platform::new(FakePlatform::new(None));
    for y in [0usize, 1, 2, 50, FB_MID - 1] {
        for x in 0..FB_W {
            if shaded(x, y) {
                assert_eq!(fb[y * FB_W + x], demo.shade(&mut ctx, x, y));
            }
        }
    }
    assert_eq!(demo.frame, 1);
}

#[test]
fn missed_deadline_paints_the_row_and_abandons_the_frame() {
    for late in [0usize, 1, 5, FB_MID, FB_MID + 3, FB_H - 1] {
        let mut demo = Julia::new();
        let mut fb = vec![7u8; FB_LEN];
        let mut ctx = Platform::new(FakePlatform::new(Some(late)));
        let outcome = demo.render(&mut ctx, &mut fb);
        assert_eq!(outcome, FrameOutcome::TimedOut { row: late });
        assert!(fb[late * FB_W..(late + 1) * FB_W].iter().all(|&p| p == FAULT_COLOR));
        assert_eq!(*ctx.context.waits.last().unwrap(), late);
        assert_eq!(ctx.context.waits.len(), late + 1);
        if late + 1 < FB_H {
            assert!(fb[(late + 1) * FB_W..].iter().all(|&p| p == 7));
        }
    }
}

#[test]
fn full_schedule_missed_deadline() {
    let demo = Julia::new();
    let mut fb = vec![7u8; FB_LEN];
    let mut ctx = Platform::new(FakePlatform::new(Some(10)));
    let outcome = render_full(&demo, &mut ctx, &mut fb);
    assert_eq!(outcome, FrameOutcome::TimedOut { row: 10 });
    assert!(fb[10 * FB_W..11 * FB_W].iter().all(|&p| p == FAULT_COLOR));
    let mut ctx = Platform::new(FakePlatform::new(None));
    assert_eq!(render_checkerboard(&demo, &mut ctx, &mut fb), FrameOutcome::Complete);
    assert_eq!(ctx.context.waits, (0..FB_H).collect::<Vec<usize>>());
}

#[test]
fn julia_values_exact() {
    let demo = Julia::new();
    let mut ctx = Platform::new(FakePlatform::new(None));
    assert_eq!((demo.c_a, demo.c_b), (807, 0));
    assert_eq!(demo.compute_value_hot(&mut ctx, 240, 100, 807, 0), 17);
    assert_eq!(demo.compute_value_hot(&mut ctx, 240, 136, 806, 13), 16);
    assert_eq!(demo.compute_value_hot(&mut ctx, 0, 0, 806, 13), 0);
    assert_eq!(demo.compute_value_hot(&mut ctx, 100, 50, 806, 13), 7);
    assert!(ctx.context.muls > 0);
}

#[test]
fn julia_parameter_follows_the_frame() {
    let mut demo = Julia::new();
    let mut fb = vec![0u8; FB_LEN];
    let mut ctx = Platform::new(FakePlatform::new(None));
    demo.render(&mut ctx, &mut fb);
    assert_eq!((demo.frame, demo.c_a, demo.c_b), (1, 806, 13));
    demo.frame = FRAME_MAX - 1;
    demo.render(&mut ctx, &mut fb);
    assert_eq!((demo.frame, demo.c_a, demo.c_b), (0, 807, 0));
}

#[test]
fn palette_exact_entries() {
    assert_eq!(palette_entry(0, 0), (0, 0, 0));
    assert_eq!(palette_entry(0, 128), (128, 255, 145));
    assert_eq!(palette_entry(150, 200), (157, 134, 122));
    assert_eq!(palette_entry(0, 255), (0, 0, 2));
}

#[test]
fn pre_render_uploads_every_palette_entry() {
    let mut demo = Julia::new();
    let mut ctx = Platform::new(FakePlatform::new(None));
    demo.pre_render(&mut ctx);
    assert_eq!(ctx.context.lut.len(), 256);
    assert_eq!(ctx.context.lut[128], (128, 128, 255, 145));
    assert_eq!(demo.frame, 0);
}

#[test]
fn line_poll_decisions() {
    assert_eq!(line_poll(20, 8, 11, false), LinePoll::Reached);
    assert_eq!(line_poll(19, 8, 11, true), LinePoll::Missed);
    assert_eq!(line_poll(19, 8, 11, false), LinePoll::Pending);
    assert_eq!(line_poll(20, 8, 11, true), LinePoll::Reached);
    assert_eq!(line_poll(0, 8, 0, false), LinePoll::Pending);
}

#[test]
fn render_waits_for_every_row_in_order_and_leaves_the_palette() {
    let mut demo = Julia::new();
    let mut fb = vec![0u8; FB_LEN];
    let mut ctx = Platform::new(FakePlatform::new(None));
    demo.render(&mut ctx, &mut fb);
    assert_eq!(ctx.context.waits, (0..FB_H).collect::<Vec<usize>>());
    assert!(ctx.context.lut.is_empty());
}
