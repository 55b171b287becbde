use demos::voxel::{
    build_table, cell, dequantize, lut_index, quantize, voxel_entry, VoxelTableEntry, GRID, TABLE_LEN,
};

#[test]
fn pack_then_unpack_gives_the_entry_back() {
    let e = VoxelTableEntry { density: 0x12, r: 0x34, g: 0x56, b: 0x78 };
    let w = e.pack();
    assert_eq!(w, 0x1234_5678);
    assert_eq!(VoxelTableEntry::unpack(w), e);
    assert_eq!(VoxelTableEntry::density_of(w), 0x12);
    for w in [0u32, 1, 0xFF, 0xFFFF_FFFF, 0x8000_0001, 0x00FF_00FF] {
        assert_eq!(VoxelTableEntry::unpack(w).pack(), w);
    }
}

#[test]
fn channels_round_trip_within_one_step() {
    for v in 0..=1024 {
        let e = VoxelTableEntry::from_channels(v, 1024 - v, v / 2, 0);
        let w = e.pack();
        let back = VoxelTableEntry::unpack(w).to_channels();
        let inputs = [v, 1024 - v, v / 2, 0];
        let outputs = [back.0, back.1, back.2, back.3];
        for k in 0..4 {
            assert!(outputs[k] <= inputs[k] && inputs[k] - outputs[k] <= 4, "v {} k {}", v, k);
        }
    }
}

#[test]
fn quantize_exact_values() {
    assert_eq!(quantize(0), 0);
    assert_eq!(quantize(5), 1);
    assert_eq!(quantize(1023), 255);
    assert_eq!(quantize(1024), 255);
    assert_eq!(dequantize(255), 1020);
}

#[test]
fn lut_index_is_the_row_major_position() {
    assert_eq!(lut_index(0, 0, 0), 0);
    assert_eq!(lut_index(1, 2, 3), 16384 + 256 + 3);
    assert_eq!(lut_index(127, 127, 127), TABLE_LEN - 1);
}

#[test]
fn lut_index_is_injective() {
    let mut seen = vec![false; TABLE_LEN];
    for x in 0..GRID as u32 {
        for y in 0..GRID as u32 {
            for z in 0..GRID as u32 {
                let i = lut_index(x, y, z);
                assert!(i < TABLE_LEN);
                assert!(!seen[i]);
                seen[i] = true;
            }
        }
    }
}

#[test]
fn cell_wraps_every_two_units() {
    assert_eq!(cell(0), 64);
    assert_eq!(cell(-1), 63);
    assert_eq!(cell(-1024), 0);
    assert_eq!(cell(1023), 127);
    assert_eq!(cell(1024), 0);
    assert_eq!(cell(2048 + 17), 65);
}

#[test]
fn voxel_entry_exact_values() {
    assert_eq!(voxel_entry(0, 0, 0), 0x0007_0707);
    assert_eq!(voxel_entry(64, 64, 64), 0x000B_0A05);
    assert_eq!(voxel_entry(10, 20, 30), 0x0506_0503);
    assert_eq!(voxel_entry(63, 64, 65), 0x000B_0904);
}

#[test]
fn voxel_entries_are_deterministic() {
    for x in 0..4 {
        for y in 0..GRID as u32 {
            for z in 0..GRID as u32 {
                assert_eq!(voxel_entry(x, y, z), voxel_entry(x, y, z));
            }
        }
    }
}

#[test]
fn build_table_matches_its_entries() {
    let t = build_table();
    assert_eq!(t.len(), TABLE_LEN);
    assert_eq!(t[0], 0x0007_0707);
    assert_eq!(t[lut_index(64, 64, 64)], 0x000B_0A05);
    assert_eq!(t[lut_index(10, 20, 30)], 0x0506_0503);
    let mut i = 0;
    while i < TABLE_LEN {
        let (x, y, z) = ((i / 16384) as u32, ((i / 128) % 128) as u32, (i % 128) as u32);
        assert_eq!(t[i], voxel_entry(x, y, z));
        i += 4099;
    }
}
