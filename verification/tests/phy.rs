use file2video::params;
use file2video::params::{ProfileCfg, Y_BLOCK};
use file2video::phy_channel::{
    apply_block_offset, candidate_offsets, find_block_offset, locator_differences,
    pack_slots_to_yuv420, pilot_differences, unpack_yuv420_to_slots, BlockOffset, FrameReading,
    PhyDecodeResult, SlotPayloadBits, UnpackError, LUMA_MID,
};
use file2video::phy_layout::{frame_layout, locator_coords, FrameLayout, LayoutError};

fn mean_score(differences: &[Option<u32>]) -> f32 {
    let mut sum = 0f32;
    for d in differences {
        sum += match d {
            Some(sad) => (1.0 - (*sad as f32) / (1024.0 * 255.0)).clamp(0.0, 1.0),
            None => 0.0,
        };
    }
    sum / differences.len() as f32
}

fn read_frame(plane: &[u8], layout: &FrameLayout, heavy_geom: bool) -> FrameReading {
    let scores: Vec<u32> = candidate_offsets()
        .iter()
        .map(|&o| mean_score(&locator_differences(plane, layout, o)).to_bits())
        .collect();
    let offset = find_block_offset(&scores, heavy_geom);
    let locator = mean_score(&locator_differences(plane, layout, offset));
    let pilot = mean_score(&pilot_differences(plane, layout, offset));
    let q = (0.5 * locator + 0.5 * pilot).clamp(0.0, 1.0);
    let gain = (0.5 + q).clamp(0.25, 1.5);
    FrameReading {
        offset,
        locator_score: locator.to_bits(),
        q_frame: q.to_bits(),
        llr_by_luma: (0..256).map(|v| ((v as f32 - 128.0) / 16.0 * gain).to_bits()).collect(),
    }
}

fn unpack(yuv: &[u8], width: usize, height: usize, profile: ProfileCfg, heavy_geom: bool) -> PhyDecodeResult {
    let layout = frame_layout(width, height, profile).unwrap();
    let readings: Vec<FrameReading> = yuv
        .chunks(layout.frame_bytes)
        .map(|f| read_frame(&f[..width * height], &layout, heavy_geom))
        .collect();
    unpack_yuv420_to_slots(yuv, width, height, profile, heavy_geom, &readings).unwrap()
}

fn mk_slot(profile: ProfileCfg, seed: usize) -> SlotPayloadBits {
    let mut sys_bits = vec![0u8; profile.b_sys];
    let mut par_bits = vec![0u8; profile.b_par];
    for (i, b) in sys_bits.iter_mut().enumerate() {
        *b = ((i + seed) % 2) as u8;
    }
    for (i, b) in par_bits.iter_mut().enumerate() {
        *b = (((i * 3) + seed) % 2) as u8;
    }
    SlotPayloadBits { sys_bits, par_bits }
}

fn shift_first_frame_luma_by_blocks(yuv: &mut [u8], width: usize, height: usize, dx: isize, dy: isize) {
    let y_len = width * height;
    let src = yuv[..y_len].to_vec();
    yuv[..y_len].fill(LUMA_MID);
    for by in 0..(height / Y_BLOCK) {
        for bx in 0..(width / Y_BLOCK) {
            let sx = bx as isize - dx;
            let sy = by as isize - dy;
            if sx < 0 || sy < 0 || sx >= (width / Y_BLOCK) as isize || sy >= (height / Y_BLOCK) as isize {
                continue;
            }
            let sx = sx as usize;
            let sy = sy as usize;
            for ly in 0..Y_BLOCK {
                let dst_row = (by * Y_BLOCK + ly) * width;
                let src_row = (sy * Y_BLOCK + ly) * width;
                let dst_x = bx * Y_BLOCK;
                let src_x = sx * Y_BLOCK;
                yuv[dst_row + dst_x..dst_row + dst_x + Y_BLOCK]
                    .copy_from_slice(&src[src_row + src_x..src_row + src_x + Y_BLOCK]);
            }
        }
    }
}

fn hard(llr: &[u32]) -> Vec<u8> {
    llr.iter().map(|&v| if f32::from_bits(v) < 0.0 { 1 } else { 0 }).collect()
}

#[test]
fn yuv_slot_roundtrip_clean_frame() {
    let profile = params::cfg(0).unwrap();
    let slots = (0..10).map(|i| mk_slot(profile, i)).collect::<Vec<_>>();
    let yuv = pack_slots_to_yuv420(&slots, 1920, 1088, profile).unwrap();
    let decoded = unpack(&yuv, 1920, 1088, profile, false);
    assert_eq!(decoded.frames_total, 1);
    assert_eq!(decoded.frames_synced, 1);
    for i in 0..slots.len() {
        let got = &decoded.slots[i];
        assert!(f32::from_bits(got.q_pilot) > 0.8);
        assert_eq!(hard(&got.sys_llr), slots[i].sys_bits);
        assert_eq!(hard(&got.par_llr), slots[i].par_bits);
    }
}

#[test]
fn broken_locator_causes_frame_erasure() {
    let profile = params::cfg(0).unwrap();
    let slots = (0..(profile.slots_per_frame + 1))
        .map(|i| mk_slot(profile, i))
        .collect::<Vec<_>>();
    let mut yuv = pack_slots_to_yuv420(&slots, 1920, 1088, profile).unwrap();
    let layout = frame_layout(1920, 1088, profile).unwrap();
    for (bx, by) in locator_coords(layout.bx_n, layout.by_n) {
        let x0 = bx * Y_BLOCK;
        let y0 = by * Y_BLOCK;
        for ly in 0..Y_BLOCK {
            for lx in 0..Y_BLOCK {
                yuv[(y0 + ly) * 1920 + (x0 + lx)] = 127;
            }
        }
    }
    let decoded = unpack(
        &yuv[..(layout.frame_bytes * 2).min(yuv.len())],
        1920,
        1088,
        profile,
        false,
    );
    assert_eq!(decoded.frames_total, 2);
    assert_eq!(decoded.frames_synced, 1);
    assert!(f32::from_bits(decoded.slots[0].q_pilot) <= 0.01);
    assert!(f32::from_bits(decoded.slots[profile.slots_per_frame].q_pilot) > 0.8);
}

#[test]
fn heavy_geom_recovers_block_shifted_frame() {
    let profile = params::cfg(0).unwrap();
    let slots = (0..32).map(|i| mk_slot(profile, i)).collect::<Vec<_>>();
    let mut yuv = pack_slots_to_yuv420(&slots, 1920, 1088, profile).unwrap();
    shift_first_frame_luma_by_blocks(&mut yuv, 1920, 1088, 1, 0);

    let fast = unpack(&yuv, 1920, 1088, profile, false);
    let heavy = unpack(&yuv, 1920, 1088, profile, true);

    assert_eq!(fast.frames_total, 1);
    assert_eq!(heavy.frames_total, 1);
    assert_eq!(fast.frames_synced, 0);
    assert_eq!(heavy.frames_synced, 1);
    assert_eq!(hard(&heavy.slots[0].sys_llr), slots[0].sys_bits);
}

#[test]
fn layout_of_a_full_frame() {
    let layout = frame_layout(1920, 1088, params::cfg(1).unwrap()).unwrap();
    assert_eq!((layout.bx_n, layout.by_n), (60, 34));
    assert_eq!(layout.frame_bytes, 1920 * 1088 * 3 / 2);
    assert_eq!(layout.pilot_blocks.len(), 12);
    assert_eq!(layout.pilot_blocks[0], (2, 1));
    assert_eq!(layout.slot_blocks.len(), 384);
    assert_eq!(layout.slot_blocks[0], (14, 1));
    assert_eq!(locator_coords(60, 34), [(1, 1), (58, 1), (1, 32), (58, 32)]);
    let mut all = layout.slot_blocks.clone();
    all.extend_from_slice(&layout.pilot_blocks);
    all.extend_from_slice(&locator_coords(60, 34));
    let n = all.len();
    all.sort();
    all.dedup();
    assert_eq!(all.len(), n);
}

#[test]
fn layouts_that_do_not_exist() {
    let profile = params::cfg(0).unwrap();
    assert_eq!(frame_layout(1921, 1088, profile).err(), Some(LayoutError::NotBlockAligned));
    assert_eq!(frame_layout(128, 1088, profile).err(), Some(LayoutError::FrameTooSmall));
    assert_eq!(
        frame_layout(320, 320, profile).err(),
        Some(LayoutError::NotEnoughSlotBlocks { need: 384, got: 48 })
    );
    let mut wide = profile;
    wide.coded_bits_per_slot = 1025;
    assert_eq!(frame_layout(1920, 1088, wide).err(), Some(LayoutError::SlotTooLarge));
}

#[test]
fn partial_frames_are_refused() {
    let profile = params::cfg(0).unwrap();
    let r = unpack_yuv420_to_slots(&[0u8; 1000], 1920, 1088, profile, false, &[]);
    assert!(matches!(r, Err(UnpackError::PartialFrame)));
}

#[test]
fn an_empty_payload_still_fills_a_frame() {
    let profile = params::cfg(2).unwrap();
    let yuv = pack_slots_to_yuv420(&[], 1920, 1088, profile).unwrap();
    assert_eq!(yuv.len(), 1920 * 1088 * 3 / 2);
    let layout = frame_layout(1920, 1088, profile).unwrap();
    let plane = &yuv[..1920 * 1088];
    let home = BlockOffset { dx: 0, dy: 0 };
    assert_eq!(locator_differences(plane, &layout, home), vec![Some(0); 4]);
    assert_eq!(pilot_differences(plane, &layout, home), vec![Some(0); 12]);
    let up = BlockOffset { dx: 0, dy: -1 };
    assert_ne!(locator_differences(plane, &layout, up)[0], Some(0));
    assert!(yuv[1920 * 1088..].iter().all(|&x| x == 128));
}

#[test]
fn offsets_leave_the_frame() {
    let left = BlockOffset { dx: -1, dy: 0 };
    assert_eq!(apply_block_offset(0, 3, 10, 10, left), None);
    assert_eq!(apply_block_offset(1, 3, 10, 10, left), Some((0, 3)));
    assert_eq!(apply_block_offset(9, 9, 10, 10, BlockOffset { dx: 0, dy: 1 }), None);
}

#[test]
fn the_first_of_the_best_offsets_is_taken() {
    let s = |x: f32| x.to_bits();
    let scores = [s(0.1), s(0.7), s(0.7), s(0.2), s(f32::NAN), s(0.0), s(0.0), s(0.0), s(0.0)];
    let o = find_block_offset(&scores, true);
    assert_eq!((o.dx, o.dy), (0, -1));
    let o = find_block_offset(&scores, false);
    assert_eq!((o.dx, o.dy), (0, 0));
}
