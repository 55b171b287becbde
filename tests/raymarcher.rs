use demos::frame::{Context, Demo, Platform, FrameOutcome, FB_H, FB_LEN, FB_W};
use demos::raymarch::{
    pack_color, ray_direction, raymarch, rgb332_entry, Raymarch, MARCH_STEPS, ROTATE_PERIOD,
    TRANSLATE_PERIOD,
};
use demos::voxel::{VoxelTableEntry, TABLE_LEN};

struct Recorder {
    lut: Vec<(u8, u8, u8, u8)>,
    waits: usize,
}

impl Context for Recorder {
    fn wait_for_line(&mut self, _pixel_y: usize) -> bool {
        self.waits += 1;
        true
    }
    fn set_lut(&mut self, i: u8, r: u8, g: u8, b: u8) {
        self.lut.push((i, r, g, b));
    }
    fn stats_count_adds(&mut self, _n: usize) {}
    fn stats_count_cmps(&mut self, _n: usize) {}
    fn stats_count_shrs(&mut self, _n: usize) {}
    fn stats_count_muls(&mut self, _n: usize) {}
    fn stats_count_mems(&mut self, _n: usize) {}
    fn stats_count_divs(&mut self, _n: usize) {}
    fn stats_count_fcvts(&mut self, _n: usize) {}
    fn stats_count_fmuls(&mut self, _n: usize) {}
}

fn hit_table() -> Vec<u32> {
    let w = VoxelTableEntry { density: 0, r: 10, g: 20, b: 30 }.pack();
    vec![w; TABLE_LEN]
}

#[test]
fn hit_on_the_first_step_weights_by_the_cap() {
    let t = hit_table();
    let m = raymarch(&t, 0, 0, 0, 0, 0, 1024);
    assert_eq!(m.steps, 1);
    assert_eq!((m.red, m.green, m.blue), (160, 320, 480));
}

#[test]
fn march_without_hits_runs_the_full_cap() {
    let w = VoxelTableEntry { density: 1, r: 1, g: 2, b: 3 }.pack();
    let t = vec![w; TABLE_LEN];
    let m = raymarch(&t, 5, -7, 100, 2048, -2048, 2048);
    assert_eq!(m.steps, MARCH_STEPS);
    assert_eq!((m.red, m.green, m.blue), (16, 32, 48));
}

#[test]
fn march_stops_at_the_first_hit_along_the_ray() {
    let far = VoxelTableEntry { density: 255, r: 1, g: 1, b: 1 }.pack();
    let hit = VoxelTableEntry { density: 0, r: 2, g: 3, b: 4 }.pack();
    let mut t = vec![far; TABLE_LEN];
    // Along z the ray starts in cell 64; a step of 255 * 1024 / 256 = 1020
    // units reaches cell 127, the next one cell 63 of the following period.
    t[64 * 16384 + 64 * 128 + 63] = hit;
    let m = raymarch(&t, 0, 0, 0, 0, 0, 1024);
    assert_eq!(m.steps, 3);
    assert_eq!((m.red, m.green, m.blue), (1 + 1 + 2 * 14, 1 + 1 + 3 * 14, 1 + 1 + 4 * 14));
}

#[test]
fn pack_color_keeps_the_top_bits() {
    assert_eq!(pack_color(0, 0, 0), 0);
    assert_eq!(pack_color(160, 320, 480), 191);
    assert_eq!(pack_color(4080, 4080, 4080), 255);
    assert_eq!(pack_color(32, 0, 0), 32);
    assert_eq!(pack_color(0, 32, 64), 5);
    assert_eq!(pack_color(31, 31, 63), 0);
}

#[test]
fn palette_spreads_each_field() {
    assert_eq!(rgb332_entry(0), (0, 0, 0));
    assert_eq!(rgb332_entry(255), (255, 255, 255));
    assert_eq!(rgb332_entry(0b001_010_01), (36, 72, 85));
}

#[test]
fn ray_direction_of_the_center_looks_ahead() {
    assert_eq!(ray_direction(240, 136, 1024, 0), (2, 2, 1024));
    let (x, y, z) = ray_direction(0, 0, 1024, 0);
    assert!(x < 0 && y < 0 && z > 0);
    let (rx, ry, rz) = ray_direction(0, 0, 0, 1024);
    assert_eq!((rx, ry, rz), (y, -x, z));
}

#[test]
fn all_hit_table_renders_a_uniform_frame() {
    let mut demo = Raymarch::new(hit_table());
    let mut fb = vec![0u8; FB_LEN];
    let mut ctx = Platform::new(Recorder { lut: Vec::new(), waits: 0 });
    for _ in 0..3 {
        demo.pre_render(&mut ctx);
        let outcome = demo.render(&mut ctx, &mut fb);
        assert_eq!(outcome, FrameOutcome::Complete);
        assert!(fb.iter().all(|&p| p == 191));
    }
    assert_eq!(ctx.context.waits, 3 * FB_H);
    assert_eq!(ctx.context.lut.len(), 3 * 256);
    assert_eq!(demo.rotate_frame, 3);
    assert_eq!(demo.translate_frame, 3);
    assert_eq!(fb.len(), FB_W * FB_H);
}

#[test]
fn frame_counters_wrap_at_their_periods() {
    let mut demo = Raymarch::new(hit_table());
    let mut fb = vec![0u8; FB_LEN];
    let mut ctx = Platform::new(Recorder { lut: Vec::new(), waits: 0 });
    demo.rotate_frame = ROTATE_PERIOD - 1;
    demo.translate_frame = TRANSLATE_PERIOD - 1;
    demo.pre_render(&mut ctx);
    assert_eq!(demo.z_offset, (TRANSLATE_PERIOD as i32 - 1) * 8);
    demo.render(&mut ctx, &mut fb);
    assert_eq!(demo.rotate_frame, 0);
    assert_eq!(demo.translate_frame, 0);
    demo.pre_render(&mut ctx);
    assert_eq!((demo.cos, demo.sin, demo.z_offset), (1024, 0, 0));
}
