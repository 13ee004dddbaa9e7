use file2video::bitstream::{bits_to_bytes_msb, bytes_to_bits_msb, hard_llr_to_bits};
use file2video::checksum::sha256_bytes;
use file2video::decoder::{assemble_stream, decode, is_locked, DecodeError};
use file2video::encoder::{
    check_request, encode, encode_slots, repeat_last_slot, slots_needed, slots_with_hash,
    EncodeError,
};
use file2video::fec::encode_systematic_ra;
use file2video::float_bits::{is_at_least, is_less, is_less_double};
use file2video::mapper::{build_slot_payloads, write_slot_llr_sequential, StreamBuffers};
use file2video::params;
use file2video::params::ConfigError;
use file2video::phy_channel::{
    unpack_yuv420_to_slots, BlockOffset, FrameReading, SlotLlr, SlotPayloadBits,
};
use file2video::phy_layout::LayoutError;

const WIDTH: usize = 960;
const HEIGHT: usize = 704;

fn clean_reading() -> FrameReading {
    FrameReading {
        offset: BlockOffset { dx: 0, dy: 0 },
        locator_score: 1f32.to_bits(),
        q_frame: 1f32.to_bits(),
        llr_by_luma: (0..256).map(|v| ((v as f32 - 128.0) / 16.0 * 1.5).to_bits()).collect(),
    }
}

fn candidates(yuv: &[u8]) -> Vec<Vec<SlotLlr>> {
    let frames = yuv.len() / (WIDTH * HEIGHT * 3 / 2);
    let readings: Vec<FrameReading> = (0..frames).map(|_| clean_reading()).collect();
    (0..3)
        .map(|p| {
            let profile = params::cfg(p).unwrap();
            unpack_yuv420_to_slots(yuv, WIDTH, HEIGHT, profile, false, &readings).unwrap().slots
        })
        .collect()
}

fn soft(bits: &[u8]) -> Vec<u32> {
    bits.iter().map(|&b| if b == 0 { 2f32.to_bits() } else { (-2f32).to_bits() }).collect()
}

#[test]
fn a_file_comes_back_from_clean_frames() {
    let data: Vec<u8> = (0..5000u32).map(|i| (i.wrapping_mul(2654435761) >> 13) as u8).collect();
    for p in 0..3u8 {
        let yuv = encode(&data, WIDTH, HEIGHT, p, 0.25f32.to_bits(), 3).unwrap();
        let (profile, got) = decode(&candidates(&yuv), false).unwrap();
        assert_eq!(profile.id, p);
        assert_eq!(got, data);
    }
}

#[test]
fn nothing_is_locked_without_metadata() {
    let profile = params::cfg(0).unwrap();
    let slot = SlotLlr {
        sys_llr: vec![0; profile.b_sys],
        par_llr: vec![0; profile.b_par],
        q_pilot: 1f32.to_bits(),
    };
    let r = decode(&[vec![slot]], false);
    assert!(matches!(r, Err(DecodeError::NoProfileLock)));
    assert!(!is_locked(&[0u8; 400], profile));
}

#[test]
fn a_broken_payload_is_refused_unless_best_effort() {
    let profile = params::cfg(0).unwrap();
    let data = vec![0x5Au8; 200];
    let mut slots: Vec<SlotLlr> = encode_slots(&data, profile)
        .iter()
        .map(|s| SlotLlr {
            sys_llr: soft(&s.sys_bits),
            par_llr: soft(&s.par_bits),
            q_pilot: 1f32.to_bits(),
        })
        .collect();
    assert_eq!(decode(&[slots.clone()], false).unwrap().1, data);
    slots[10].sys_llr[3] ^= 0x8000_0000;
    assert!(matches!(decode(&[slots.clone()], false), Err(DecodeError::Payload(_))));
    assert_eq!(decode(&[slots.clone()], true).unwrap().1.len(), 200);
    slots[10].q_pilot = 0.1f32.to_bits();
    let stream = assemble_stream(&slots, profile);
    let from = 10 * profile.b_sys / 8;
    assert!(stream[from..from + profile.b_sys / 8].iter().all(|&b| b == 0));
}

#[test]
fn requests_that_cannot_be_served() {
    let ok = 0.2f32.to_bits();
    assert_eq!(check_request(1921, 1088, 0, ok).err(), Some(EncodeError::NotBlockAligned));
    assert_eq!(
        check_request(1920, 1088, 0, 2.5f32.to_bits()).err(),
        Some(EncodeError::OverheadOutOfRange)
    );
    assert_eq!(
        check_request(1920, 1088, 0, f32::NAN.to_bits()).err(),
        Some(EncodeError::OverheadOutOfRange)
    );
    assert_eq!(
        check_request(1920, 1088, 5, ok).err(),
        Some(EncodeError::Config(ConfigError::UnknownProfile))
    );
    assert_eq!(check_request(1920, 1088, 2, 2f32.to_bits()).unwrap().b_sys, 320);
    assert_eq!(encode(&[], WIDTH, HEIGHT, 0, ok, 0).err(), Some(EncodeError::EmptyInput));
    assert_eq!(
        encode(&[1], 64, 64, 0, ok, 0).err(),
        Some(EncodeError::Layout(LayoutError::FrameTooSmall))
    );
}

#[test]
fn slots_are_counted_and_repeated() {
    let profile = params::cfg(0).unwrap();
    // 184 bytes of metadata and 16 of data make 1600 bits and 3200 parity bits.
    let slots = encode_slots(&[7u8; 16], profile);
    assert_eq!(slots.len(), 20);
    assert_eq!(slots_needed(16, profile), 20);
    let more = repeat_last_slot(slots.clone(), 2);
    assert_eq!(more.len(), 22);
    assert_eq!(more[21].sys_bits, slots[19].sys_bits);
    assert_eq!(more[20].par_bits, slots[19].par_bits);
    let none: Vec<SlotPayloadBits> = repeat_last_slot(Vec::new(), 3);
    assert!(none.is_empty());
}

#[test]
fn profiles_are_validated() {
    assert_eq!(params::cfg(3).err(), Some(ConfigError::UnknownProfile));
    let good = params::cfg(1).unwrap();
    assert_eq!((good.b_sys, good.b_par, good.coded_bits_per_slot), (288, 224, 512));
    let mut p = good;
    p.coded_bits_per_slot = 500;
    assert_eq!(p.validate().err(), Some(ConfigError::SplitMismatch));
    let mut p = good;
    p.b_sys = 0;
    p.coded_bits_per_slot = 224;
    assert_eq!(p.validate().err(), Some(ConfigError::EmptySplit));
    let mut p = good;
    p.qc_z = 0;
    assert_eq!(p.validate().err(), Some(ConfigError::ZeroQcZ));
    let mut p = good;
    p.sc_memory = 0;
    assert_eq!(p.validate().err(), Some(ConfigError::ZeroScMemory));
    let mut p = good;
    p.ra_repeat = 1;
    assert_eq!(p.validate().err(), Some(ConfigError::RaRepeatTooSmall));
    let mut p = good;
    p.qc_z = 7;
    assert_eq!(p.validate().err(), Some(ConfigError::SplitNotMultipleOfQcZ));
    let mut p = good;
    p.chunk_bytes = 0;
    assert_eq!(p.validate().err(), Some(ConfigError::ZeroChunkBytes));
    let mut p = good;
    p.r_meta = 0;
    assert_eq!(p.validate().err(), Some(ConfigError::ZeroRMeta));
    let mut p = good;
    p.q_drop_threshold = 1.5f32.to_bits();
    assert_eq!(p.validate().err(), Some(ConfigError::ThresholdOutOfRange));
    assert!(good.validate().is_ok());
    assert_eq!(good.q_drop_threshold, 0.35f32.to_bits());
}

#[test]
fn bits_and_bytes() {
    assert_eq!(bytes_to_bits_msb(&[0xA1]), vec![1, 0, 1, 0, 0, 0, 0, 1]);
    assert_eq!(bits_to_bytes_msb(&[1, 0, 1, 0, 0, 0, 0, 1, 1]), vec![0xA1, 0x80]);
    let data = vec![0, 255, 18, 77];
    assert_eq!(bits_to_bytes_msb(&bytes_to_bits_msb(&data)), data);
    let llr = [1f32, -1.0, 0.0, -0.0, f32::NAN, f32::NEG_INFINITY];
    let bits: Vec<u32> = llr.iter().map(|x| x.to_bits()).collect();
    assert_eq!(hard_llr_to_bits(&bits), vec![0, 1, 0, 0, 0, 1]);
}

#[test]
fn patterns_compare_as_numbers() {
    let xs = [
        f32::NEG_INFINITY, -2.5, -1e-40, -0.0, 0.0, 1e-40, 0.35, 1.0, f32::INFINITY, f32::NAN,
    ];
    for a in xs {
        for b in xs {
            assert_eq!(is_less(a.to_bits(), b.to_bits()), a < b);
            assert_eq!(is_at_least(a.to_bits(), b.to_bits()), a >= b);
            assert_eq!(is_less_double((a as f64).to_bits(), (b as f64).to_bits()), (a as f64) < (b as f64));
        }
    }
}

#[test]
fn parity_bits_accumulate() {
    let e = encode_systematic_ra(&[0b1010_0001, 0xFF]);
    assert_eq!(e.sys_stream, bytes_to_bits_msb(&[0b1010_0001, 0xFF]));
    // Each bit is added twice, so the sum is even again after every pair.
    assert_eq!(e.par_stream.len(), 2 * e.sys_stream.len());
    for (i, &b) in e.sys_stream.iter().enumerate() {
        assert_eq!(&e.par_stream[2 * i..2 * i + 2], &[b, 0]);
    }
}

#[test]
fn streams_are_cut_into_slots() {
    let mut profile = params::cfg(0).unwrap();
    profile.b_sys = 3;
    profile.b_par = 2;
    let slots = build_slot_payloads(&[1, 0, 1, 1], &[1, 1, 1, 1, 1], profile);
    assert_eq!(slots.len(), 3);
    assert_eq!(slots[0].sys_bits, vec![1, 0, 1]);
    assert_eq!(slots[1].sys_bits, vec![1, 0, 0]);
    assert_eq!(slots[2].sys_bits, vec![0, 0, 0]);
    assert_eq!(slots[2].par_bits, vec![1, 0]);
    let mut buffers = StreamBuffers::default();
    let slot = SlotLlr { sys_llr: vec![1, 2, 3], par_llr: vec![4, 5], q_pilot: 0.5f32.to_bits() };
    write_slot_llr_sequential(&mut buffers, &slot, 1, profile, 0.35f32.to_bits());
    assert_eq!(buffers.sys_llr, vec![0, 0, 0, 1, 2, 3]);
    assert_eq!(buffers.par_llr, vec![0, 0, 4, 5]);
    let weak = SlotLlr { sys_llr: vec![], par_llr: vec![], q_pilot: 0.2f32.to_bits() };
    write_slot_llr_sequential(&mut buffers, &weak, 1, profile, 0.35f32.to_bits());
    assert_eq!(buffers.sys_llr, vec![0; 6]);
}

#[test]
fn slots_start_with_the_metadata() {
    let profile = params::cfg(1).unwrap();
    let hash = [0xABu8; 32];
    let slots = slots_with_hash(b"hello", profile, hash);
    let mut head = vec![0x46, 0x32, 0x56, 0x37, 8, 1, 5, 0, 0, 0, 0, 0, 0, 0];
    head.extend_from_slice(&hash);
    assert_eq!(slots[0].sys_bits, bytes_to_bits_msb(&head)[..profile.b_sys]);
    assert_eq!(slots.len(), slots_needed(5, profile));
    let real = encode_slots(b"hello", profile);
    assert_eq!(slots_with_hash(b"hello", profile, sha256_bytes(b"hello"))[0].sys_bits, real[0].sys_bits);
    assert_ne!(slots[0].sys_bits, real[0].sys_bits);
}
