use file2video::bitstream::{bits_to_bytes_msb, bytes_to_bits_msb, hard_llr_to_bits};
use file2video::boot::{
    boot_decode_msg_from_sums, boot_encode_bits_rs, make_boot, make_boot_body, make_record,
    parse_boot_msg, read_boot_from_sums, read_one_boot,
};
use file2video::bytes::seal;
use file2video::calibration::{level_places, Pools};
use file2video::checksum;
use file2video::geom_search::{
    first_search_px, next_low_streak, shift_grid, trim_of, wants_wide_search, wide_search_px, BestTwo,
};
use file2video::gray::{binary_to_gray_u8, gray_to_binary_u8};
use file2video::integral::{clip_rect, sum_places, Rect};
use file2video::interleave::{
    affine_prp_map, affine_prp_params, deinterleave, frame_bit_permute_seed, gcd_usize,
};
use file2video::ldpc::LdpcCode;
use file2video::link_decoder::{
    accept_file, boot_locator_size, cal_max_blocks_all_profiles, check_header, frame_source,
    frame_steps, is_mp4_like, lock_after, plan_frame, profile_from_boot, FrameSource, LinkDecodeError, Progress,
    StreamReceiver,
};
use file2video::link_draw::encode_bits_pam_yuv;
use file2video::link_encoder::{draw_frame, make_stream};
use file2video::link_frame::Yuv420Frame;
use file2video::link_layout::{
    build_boot_layout, build_profile_layout, build_tracking_layout, frame_uses_boot_cal,
    locator_corner_positions, payload_capacity_bits, payload_phase, payload_tile_index,
    LinkLayoutError,
};
use file2video::link_plan::{plan_layouts, plan_stream, LinkEncodeError, LinkLayouts};
use file2video::link_profile::{LinkParams, LinkProfile};
use file2video::llr::LlrAssembler;
use file2video::probe::{parse_size, ProbeError};
use file2video::protocol::{make_header_body, make_stream_header, parse_stream_header, StreamHeader};
use file2video::soft_decisions::check_messages;
use file2video::stream_coder::StreamCoder;

const WIDTH: usize = 640;
const HEIGHT: usize = 640;

fn params() -> LinkParams {
    LinkParams {
        magic: [0x53, 0x56],
        version: 3,
        boot_msg_len: 12,
        boot_rs_parity: 8,
        boot_rs_repeat: 1,
        boot_len: 20,
        boot_copies_max: 2,
        header_rows: 10,
        loc_y0: 40,
        loc_y1: 216,
        loc_u0: 90,
        loc_u1: 166,
        loc_v0: 90,
        loc_v1: 166,
        max_file_len: 1 << 20,
    }
}

fn profile(number: u8) -> LinkProfile {
    LinkProfile {
        profile: number,
        pam_m: 4,
        bits_per_plane: 2,
        y_levels: vec![32, 96, 160, 224],
        u_levels: vec![80, 112, 144, 176],
        v_levels: vec![80, 112, 144, 176],
        cal_repeats: 2,
        boot_copies: 1,
        locator_size: 2,
        ldpc_n: 768,
        ldpc_k: 640,
        ldpc_seed: 99,
        ldpc_col_w: 3,
        ldpc_iters: 8,
    }
}

fn profiles() -> Vec<LinkProfile> {
    vec![profile(0), profile(1)]
}

fn layouts() -> LinkLayouts {
    plan_layouts(&params(), &profiles(), 1, WIDTH, HEIGHT, 30).ok().unwrap()
}

fn luma(frame: &Yuv420Frame, bx: usize, by: usize) -> u8 {
    let v = frame.y[(by * 32 + 7) * frame.width + bx * 32 + 9];
    for ly in 0..32 {
        for lx in 0..32 {
            assert_eq!(frame.y[(by * 32 + ly) * frame.width + bx * 32 + lx], v);
        }
    }
    v
}

fn soft(bits: &[u8]) -> Vec<u32> {
    bits.iter().map(|&b| if b == 0 { 3f32.to_bits() } else { (-3f32).to_bits() }).collect()
}

/// The soft bits of a drawn frame, in the order in which they were sent.
fn read_payload(frame: &Yuv420Frame, l: &LinkLayouts, pcfg: &LinkProfile, idx: u32) -> Vec<u32> {
    let layout = if frame_uses_boot_cal(idx) { &l.key } else { &l.tracking };
    let mut raw = Vec::new();
    for &(bx, by) in &layout.payload_pos {
        let y = luma(frame, bx, by);
        let level = pcfg.y_levels.iter().position(|&v| v == y).unwrap();
        let code = binary_to_gray_u8(level as u8);
        raw.extend(soft(&[code >> 1, code & 1]));
    }
    let len = payload_capacity_bits(layout, pcfg);
    deinterleave(&raw, len, len, frame_bit_permute_seed(pcfg.profile, idx)).unwrap()
}

/// The boot message of a drawn key frame.
fn read_boot(frame: &Yuv420Frame, l: &LinkLayouts, p: &LinkParams) -> Option<(u8, u32)> {
    let bits: Vec<u8> = l.boot.copies[0]
        .iter()
        .map(|&(bx, by)| if luma(frame, bx, by) == p.loc_y1 { 1 } else { 0 })
        .collect();
    let sums = soft(&bits);
    read_boot_from_sums(p, &sums, &[sums.clone()])
}

#[test]
fn a_file_crosses_the_link() {
    let p = params();
    let pcfg = profile(1);
    let l = layouts();
    let file: Vec<u8> = (0..700u32).map(|i| (i * i / 3) as u8).collect();
    let code = LdpcCode::from_profile(&pcfg);
    let plan = plan_stream(&p, &code, &l, file.len() as u64, 100).unwrap();
    assert_eq!(plan.stream_bytes, 724);
    assert_eq!(plan.block_bytes, 80);
    assert_eq!(plan.codewords, 10);
    // A key frame carries 18 x 8 blocks of two bits, the others 18 x 18.
    assert_eq!((l.key_bits, l.tracking_bits), (288, 648));
    assert_eq!(plan.frames, 13);

    let crc = file2video::checksum::crc32_bytes(&file);
    let mut stream = make_stream_header(1, file.len() as u64, crc);
    stream.extend_from_slice(&file);
    let mut coder = StreamCoder::new(LdpcCode::from_profile(&pcfg), stream).ok().unwrap();
    let mut frame = Yuv420Frame::new(WIDTH, HEIGHT);
    let mut assembler = LlrAssembler::new(code.n);
    let mut receiver = StreamReceiver::new(1, p.max_file_len);
    let mut result = None;
    for i in 0..plan.frames {
        let bits = coder.next_frame_bits(l.frame_capacity(i));
        draw_frame(&mut frame, &p, &pcfg, &l, 1, i as u32, &bits);
        if i % 8 == 0 {
            assert_eq!(read_boot(&frame, &l, &p), Some((1, i as u32)));
            for &(bx, by, lvl) in &l.key.cal_pos {
                assert_eq!(luma(&frame, bx, by), pcfg.y_levels[lvl as usize]);
            }
        }
        let llr = read_payload(&frame, &l, &pcfg, i as u32);
        assert_eq!(hard_llr_to_bits(&llr), bits);
        assembler.append_frame_llr(i as u32, llr);
        while let Some(word) = assembler.next_codeword() {
            if result.is_some() {
                break;
            }
            let info = code.accept_hard(&hard_llr_to_bits(word.as_slice()));
            match receiver.accept(&code, info).unwrap() {
                Progress::More => {}
                Progress::Done(f) => result = Some(f),
            }
        }
    }
    assert_eq!(result, Some(file));
    assert_eq!(receiver.codewords_decoded(), 10);
    assert_eq!(receiver.stream_header().unwrap().file_crc, crc);
}

#[test]
fn the_receiver_refuses_what_is_wrong() {
    let pcfg = profile(1);
    let code = LdpcCode::from_profile(&pcfg);
    let block = |bytes: &[u8]| {
        let mut b = bytes.to_vec();
        b.resize(80, 0);
        Some(bytes_to_bits_msb(&b))
    };
    let mut r = StreamReceiver::new(1, 1000);
    assert_eq!(r.accept(&code, None).err(), Some(LinkDecodeError::CodewordLost { codeword: 0 }));
    let mut r = StreamReceiver::new(1, 1000);
    assert_eq!(
        r.accept(&code, Some(vec![0; 8])).err(),
        Some(LinkDecodeError::BadEnvelope { codeword: 0 })
    );
    let mut r = StreamReceiver::new(1, 1000);
    assert_eq!(r.accept(&code, block(&[1, 2, 3])).err(), Some(LinkDecodeError::BadHeader));
    let mut r = StreamReceiver::new(1, 1000);
    assert_eq!(
        r.accept(&code, block(&make_stream_header(0, 10, 0))).err(),
        Some(LinkDecodeError::ProfileMismatch { locked: 1, header: 0 })
    );
    let mut r = StreamReceiver::new(1, 1000);
    assert_eq!(
        r.accept(&code, block(&make_stream_header(1, 1001, 0))).err(),
        Some(LinkDecodeError::FileLenOutOfRange { file_len: 1001 })
    );
    let mut r = StreamReceiver::new(1, 1000);
    assert_eq!(
        r.accept(&code, block(&make_stream_header(1, 0, 0))).err(),
        Some(LinkDecodeError::FileLenOutOfRange { file_len: 0 })
    );
    let got = file2video::checksum::crc32_bytes(&[0u8; 10]);
    let mut r = StreamReceiver::new(1, 1000);
    assert_eq!(
        r.accept(&code, block(&make_stream_header(1, 10, 5))).err(),
        Some(LinkDecodeError::CrcMismatch { got, expected: 5 })
    );
    let h = StreamHeader { profile: 1, file_len: u64::MAX, file_crc: 0 };
    assert_eq!(check_header(1, u64::MAX, Some(h)).err(), Some(LinkDecodeError::StreamTooLong));
    let h = StreamHeader { profile: 1, file_len: 4, file_crc: 7 };
    assert_eq!(accept_file(&[0; 27], h, 7).err(), Some(LinkDecodeError::StreamTooShort));
    assert_eq!(accept_file(&[0; 28], h, 7).unwrap(), vec![0; 4]);
}

#[test]
fn transmissions_that_cannot_be_planned() {
    let p = params();
    let ps = profiles();
    let fault = |profile: u8, w: usize, h: usize, fps: u32| {
        plan_layouts(&params(), &profiles(), profile, w, h, fps).err().unwrap()
    };
    assert_eq!(fault(2, 640, 640, 30), LinkEncodeError::UnknownProfile { profiles: 2 });
    assert_eq!(fault(0, 641, 640, 30), LinkEncodeError::OddSize);
    assert_eq!(fault(0, 642, 640, 30), LinkEncodeError::NotWholeBlocks { width: 642, height: 640 });
    assert_eq!(
        fault(0, 65536, 640, 30),
        LinkEncodeError::FrameTooLarge { width: 65536, height: 640 }
    );
    assert_eq!(fault(0, 640, 640, 65536), LinkEncodeError::FpsTooLarge { fps: 65536 });
    assert_eq!(fault(0, 64, 640, 30), LinkEncodeError::Layout(LinkLayoutError::NoHorizontalBlocks));
    let mut mute = profiles();
    mute[0].bits_per_plane = 0;
    assert_eq!(
        plan_layouts(&p, &mute, 0, 640, 640, 30).err(),
        Some(LinkEncodeError::NoCapacity { key: 0, tracking: 0 })
    );
    let l = layouts();
    let mut code = LdpcCode::from_profile(&ps[0]);
    assert_eq!(plan_stream(&p, &code, &l, 0, 9).err(), Some(LinkEncodeError::EmptyInput));
    assert_eq!(
        plan_stream(&p, &code, &l, (1 << 20) + 1, 9).err(),
        Some(LinkEncodeError::InputTooLarge { len: (1 << 20) + 1, max: 1 << 20 })
    );
    assert_eq!(
        plan_stream(&p, &code, &l, 700, 12).err(),
        Some(LinkEncodeError::NotEnoughFrames { need: 13, got: 12 })
    );
    let mut wide = params();
    wide.max_file_len = u64::MAX;
    assert_eq!(plan_stream(&wide, &code, &l, u64::MAX, 9).err(), Some(LinkEncodeError::StreamTooLong));
    assert_eq!(
        plan_stream(&wide, &code, &l, u64::MAX / 2, 9).err(),
        Some(LinkEncodeError::CodedTooLong)
    );
    code.k = 3;
    assert!(matches!(plan_stream(&p, &code, &l, 7, 9), Err(LinkEncodeError::Envelope(_))));
}

#[test]
fn layouts_of_the_link() {
    let p = params();
    let pcfg = profile(0);
    let boot = build_boot_layout(&p, WIDTH, HEIGHT, 1, 8).ok().unwrap();
    assert_eq!(boot.copies.len(), 1);
    assert_eq!(boot.copies[0].len(), 160);
    assert_eq!(boot.copies[0][0], (18, 1));
    assert_eq!(boot.copies[0][9], (9, 1));
    assert_eq!(boot.copies[0][10], (18, 2));
    let key = build_profile_layout(&p, WIDTH, HEIGHT, &boot, &pcfg).ok().unwrap();
    assert_eq!(key.cal_pos[0], (1, 1, 0));
    assert_eq!(key.cal_pos[7], (8, 1, 3));
    assert_eq!((key.payload_by_start, key.payload_by_end), (11, 19));
    assert_eq!(key.payload_pos.len(), 18 * 8);
    let tracking = build_tracking_layout(WIDTH, HEIGHT).ok().unwrap();
    let mut pos = tracking.payload_pos.clone();
    assert_eq!(pos.len(), 18 * 18);
    pos.sort();
    pos.dedup();
    assert_eq!(pos.len(), 18 * 18);
    assert_eq!((pos[0], pos[323]), ((1, 1), (18, 18)));
    assert_eq!(payload_tile_index(&tracking, 9, 9), 4);
    assert_eq!(payload_phase(5), 0);
    assert!(frame_uses_boot_cal(16) && !frame_uses_boot_cal(17));
    assert_eq!(locator_corner_positions(20, 16, 3), [(0, 0), (17, 0), (0, 13), (17, 13)]);
    assert_eq!(locator_corner_positions(20, 16, 0), [(0, 0), (19, 0), (0, 15), (19, 15)]);
}

#[test]
fn layouts_of_the_link_that_do_not_exist() {
    let p = params();
    let pcfg = profile(0);
    let boot_err = |w, h, copies| build_boot_layout(&params(), w, h, copies, 8).err().unwrap();
    assert_eq!(boot_err(31, 640, 1), LinkLayoutError::InvalidGeometry);
    assert_eq!(boot_err(64, 640, 1), LinkLayoutError::NoHorizontalBlocks);
    assert_eq!(boot_err(640, 384, 1), LinkLayoutError::NoVerticalBlocks);
    assert_eq!(boot_err(640, 640, 2), LinkLayoutError::HeaderTooSmall { need: 320, have: 172 });
    let clear = build_boot_layout(&p, WIDTH, HEIGHT, 1, 8).ok().unwrap();
    let over = build_boot_layout(&p, WIDTH, HEIGHT, 1, 0).ok().unwrap();
    assert_eq!(
        build_profile_layout(&p, WIDTH, HEIGHT, &over, &pcfg).err(),
        Some(LinkLayoutError::BootOverlap)
    );
    let mut none = profile(0);
    none.cal_repeats = 0;
    assert_eq!(
        build_profile_layout(&p, WIDTH, HEIGHT, &clear, &none).err(),
        Some(LinkLayoutError::NoCalBlocks)
    );
    let mut long = profile(0);
    long.cal_repeats = 5;
    assert_eq!(
        build_profile_layout(&p, WIDTH, HEIGHT, &clear, &long).err(),
        Some(LinkLayoutError::CalTooLong { need: 20, usable: 18 })
    );
    assert_eq!(build_tracking_layout(64, 640).err(), Some(LinkLayoutError::NoTrackingMargins));
}

#[test]
fn plain_payload_is_drawn_in_order() {
    let pcfg = profile(0);
    let mut frame = Yuv420Frame::new(64, 64);
    assert!(frame.y.iter().all(|&v| v == 0));
    frame.clear(50, 60);
    encode_bits_pam_yuv(&mut frame, &pcfg, &[(0, 0), (1, 1), (1, 0)], &[0, 1, 1, 0, 1]);
    assert_eq!(luma(&frame, 0, 0), 96);
    assert_eq!(luma(&frame, 1, 1), 224);
    assert_eq!(luma(&frame, 1, 0), 224);
    assert_eq!(luma(&frame, 0, 1), 50);
    assert_eq!(frame.u[0], 128);
    assert_eq!(frame.u[16 * 32], 60);
}

#[test]
fn boot_messages_are_read_back() {
    let p = params();
    let record = make_boot(&p, 3, 0x0102_0304);
    assert_eq!(record.len(), 20);
    assert_eq!(&record[..8], &[0x53, 0x56, 3, 3, 1, 2, 3, 4]);
    assert_eq!(parse_boot_msg(&p, &record[..12]), Some((3, 0x0102_0304)));
    assert_eq!(parse_boot_msg(&p, &record[..11]), None);
    let mut bent = record[..12].to_vec();
    bent[5] ^= 1;
    assert_eq!(parse_boot_msg(&p, &bent), None);
    let sums = soft(&bytes_to_bits_msb(&record));
    assert_eq!(read_boot_from_sums(&p, &sums, &[sums.clone()]), Some((3, 0x0102_0304)));
    assert_eq!(read_boot_from_sums(&p, &sums, &[]), None);
    assert_eq!(read_boot_from_sums(&p, &sums[..159], &[sums.clone()]), Some((3, 0x0102_0304)));

    let mut twice = params();
    twice.boot_rs_repeat = 2;
    let bits = boot_encode_bits_rs(&twice, &record[..12]);
    assert_eq!(bits.len(), 320);
    assert_eq!(&bits[..4], &[0, 0, 1, 1]);
    let once: Vec<u8> = bits.iter().step_by(2).copied().collect();
    assert_eq!(bits_to_bytes_msb(&once), record);
}

#[test]
fn a_copy_is_read_where_the_sum_of_all_holds_no_message() {
    let p = params();
    let good = soft(&bytes_to_bits_msb(&make_boot(&p, 1, 8)));
    // The zero word is a codeword, but no boot message.
    let zeros = soft(&[0u8; 160]);
    assert_eq!(read_boot_from_sums(&p, &zeros, &[zeros.clone(), good.clone()]), Some((1, 8)));
    assert_eq!(read_boot_from_sums(&p, &zeros, &[zeros.clone()]), None);
}

#[test]
fn corrupted_copies_do_not_spoil_the_others() {
    let p = params();
    let record = make_boot(&p, 1, 8);
    let good = soft(&bytes_to_bits_msb(&record));
    let mut bent = record.clone();
    bent[0] ^= 0x11;
    bent[7] ^= 0x22;
    let bad = soft(&bytes_to_bits_msb(&bent));
    assert_eq!(boot_decode_msg_from_sums(&p, &bad), None);
    assert_eq!(read_one_boot(&p, &bad), None);
    assert_eq!(read_one_boot(&p, &good), Some((1, 8)));
    let copies = [bad.clone(), good.clone()];
    assert_eq!(read_boot_from_sums(&p, &bad, &copies), Some((1, 8)));
    assert_eq!(read_boot_from_sums(&p, &bad, &[bad.clone(), bad.clone()]), None);
    assert_eq!(read_boot_from_sums(&p, &good, &[bad.clone()]), Some((1, 8)));
}

#[test]
fn a_lock_never_changes() {
    assert_eq!(lock_after(None, None, 2), None);
    assert_eq!(lock_after(None, Some((2, 9)), 2), None);
    assert_eq!(lock_after(None, Some((1, 9)), 2), Some(1));
    assert_eq!(lock_after(Some(1), Some((0, 9)), 2), Some(1));
    assert_eq!(lock_after(Some(1), None, 2), Some(1));
}

#[test]
fn frames_are_handled_by_their_plan() {
    let l = layouts();
    let key = frame_steps(&l, plan_frame(Some((1, 8)), None, 0, 1, 2));
    assert_eq!(key.bits, l.key_bits);
    assert_eq!(key.layout.payload_pos, l.key.payload_pos);
    assert!(key.renews_levels);
    let other = frame_steps(&l, plan_frame(Some((0, 8)), None, 0, 1, 2));
    assert_eq!(other.bits, l.key_bits);
    assert!(!other.renews_levels);
    let tracking = frame_steps(&l, plan_frame(Some((1, 9)), None, 0, 1, 2));
    assert_eq!(tracking.bits, l.tracking_bits);
    assert_eq!(tracking.layout.payload_pos, l.tracking.payload_pos);
    assert!(!tracking.renews_levels);
}

#[test]
fn a_stream_is_header_and_file() {
    let file = b"some file";
    let stream = make_stream(3, file);
    assert_eq!(stream[..24], make_stream_header(3, 9, checksum::crc32_bytes(file))[..]);
    assert_eq!(stream[24..], file[..]);
}

#[test]
fn frames_are_read_by_what_is_known() {
    assert_eq!(frame_source(true, false, true), FrameSource::OwnGeometry);
    assert_eq!(frame_source(true, true, true), FrameSource::OwnGeometry);
    assert_eq!(frame_source(false, true, true), FrameSource::TrackedGeometry);
    assert_eq!(frame_source(false, false, true), FrameSource::Erased);
    assert_eq!(frame_source(true, true, false), FrameSource::Erased);
    assert_eq!(frame_source(false, true, false), FrameSource::Erased);
}

#[test]
fn frames_are_planned() {
    let x = plan_frame(Some((1, 16)), Some(3), 40, 1, 2);
    assert_eq!((x.frame_idx, x.is_key, x.boot_ok), (16, true, true));
    let x = plan_frame(Some((0, 17)), Some(3), 40, 1, 2);
    assert_eq!((x.frame_idx, x.is_key, x.boot_ok), (17, false, false));
    let x = plan_frame(None, Some(3), 40, 1, 2);
    assert_eq!((x.frame_idx, x.is_key, x.boot_ok), (3, false, false));
    let x = plan_frame(None, None, 40, 1, 2);
    assert_eq!((x.frame_idx, x.is_key, x.boot_ok), (40, true, false));
    assert_eq!(profile_from_boot(Some((1, 0)), 2), Some(1));
    assert_eq!(profile_from_boot(Some((2, 0)), 2), None);
    let mut ps = profiles();
    ps[0].locator_size = 5;
    ps[1].cal_repeats = 3;
    assert_eq!(boot_locator_size(&ps, None), 5);
    assert_eq!(boot_locator_size(&ps, Some(1)), 2);
    assert_eq!(boot_locator_size(&[], None), 1);
    assert_eq!(cal_max_blocks_all_profiles(&ps), 12);
}

#[test]
fn stream_headers_are_read_back() {
    let raw = make_stream_header(2, 0x0102, 0xDEAD_BEEF);
    assert_eq!(raw.len(), 24);
    assert_eq!(&raw[..8], b"SLD1\x04\x02\x00\x00");
    assert_eq!(&raw[8..20], &[0, 0, 0, 0, 0, 0, 1, 2, 0xDE, 0xAD, 0xBE, 0xEF]);
    let h = parse_stream_header(&raw).unwrap();
    assert_eq!((h.profile, h.file_len, h.file_crc), (2, 0x0102, 0xDEAD_BEEF));
    let mut bent = raw.clone();
    bent[9] ^= 4;
    assert!(parse_stream_header(&bent).is_none());
    assert!(parse_stream_header(&raw[..23]).is_none());
}

#[test]
fn frames_are_put_in_order() {
    let mut a = LlrAssembler::new(3);
    assert_eq!(a.next_expected_frame(), None);
    a.append_frame_llr(5, vec![1, 2]);
    a.append_frame_llr(7, vec![5, 6]);
    a.append_frame_llr(7, vec![9, 9]);
    assert_eq!(a.next_expected_frame(), Some(6));
    assert_eq!(a.available_llr_len(), 2);
    assert!(a.next_codeword().is_none());
    a.append_frame_llr(6, vec![3, 4]);
    assert_eq!(a.available_llr_len(), 6);
    assert_eq!(a.next_codeword().unwrap().values, vec![1, 2, 3]);
    assert_eq!(a.next_codeword().unwrap().values, vec![4, 5, 6]);
    assert!(a.next_codeword().is_none());
    assert_eq!(a.next_expected_frame(), Some(8));
}

#[test]
fn permutations_undo_themselves() {
    assert_eq!(gcd_usize(84, 36), 12);
    assert_eq!(gcd_usize(7, 0), 7);
    for len in [1usize, 2, 9, 64, 648] {
        let seed = frame_bit_permute_seed(1, 12);
        assert_eq!(seed, frame_bit_permute_seed(1, 15));
        assert_ne!(seed, frame_bit_permute_seed(1, 16));
        let (a, b) = affine_prp_params(len, seed);
        assert_eq!(gcd_usize(a, len), 1);
        let bits: Vec<u32> = (0..len as u32).collect();
        let raw: Vec<u32> = (0..len).map(|i| bits[affine_prp_map(i, len, a, b)]).collect();
        assert_eq!(deinterleave(&raw, len, len, seed), Some(bits));
    }
    assert_eq!(deinterleave(&[1, 2], 3, 2, 0), None);
    assert_eq!(deinterleave(&[1], 1, 2, 0), None);
}

#[test]
fn gray_codes() {
    let codes: Vec<u8> = (0..8).map(binary_to_gray_u8).collect();
    assert_eq!(codes, vec![0, 1, 3, 2, 6, 7, 5, 4]);
    for x in 0..=255u8 {
        assert_eq!(gray_to_binary_u8(binary_to_gray_u8(x)), x);
    }
}

#[test]
fn containers_are_told_by_their_extension() {
    assert!(is_mp4_like(Some("mp4")));
    assert!(is_mp4_like(Some("MoV")));
    assert!(!is_mp4_like(Some("mpv")));
    assert!(!is_mp4_like(Some("mp44")));
    assert!(!is_mp4_like(Some("yuv")));
    assert!(!is_mp4_like(None));
}

#[test]
fn sizes_are_read_from_a_probe() {
    let parse = |s: &str| parse_size(&s.chars().collect::<Vec<char>>());
    assert_eq!(parse("1920\n1080\n"), Ok((1920, 1080)));
    assert_eq!(parse(" 640\r\n+480"), Ok((640, 480)));
    assert_eq!(parse(""), Err(ProbeError::MissingWidth));
    assert_eq!(parse("\n5"), Err(ProbeError::BadWidth));
    assert_eq!(parse("12x\n5"), Err(ProbeError::BadWidth));
    assert_eq!(parse("12\n"), Err(ProbeError::MissingHeight));
    assert_eq!(parse("12\n\n"), Err(ProbeError::BadHeight));
    assert_eq!(parse("12\n-5"), Err(ProbeError::BadHeight));
    assert_eq!(parse("12\n99999999999999999999999"), Err(ProbeError::BadHeight));
    assert_eq!(parse(&format!("{}\n0", usize::MAX)), Ok((usize::MAX, 0)));
}

#[test]
fn rectangles_are_cut_to_the_image() {
    assert_eq!(clip_rect(10, 8, 6, 2, 32, 3), Some(Rect { x0: 6, y0: 2, x1: 10, y1: 5 }));
    assert_eq!(clip_rect(10, 8, 10, 2, 3, 3), None);
    assert_eq!(clip_rect(10, 8, 1, 2, 0, 3), None);
    assert_eq!(clip_rect(10, 8, 0, 7, usize::MAX, usize::MAX), Some(Rect { x0: 0, y0: 7, x1: 10, y1: 8 }));
    assert_eq!(sum_places(10, 8, Rect { x0: 6, y0: 2, x1: 10, y1: 5 }), [65, 32, 61, 28]);
}

#[test]
fn geometry_search_decisions() {
    let mut two = BestTwo::new();
    let mut best = None;
    for (i, s) in [5.0f64, 7.0, f64::NAN, 3.0, 4.0, 3.0].iter().enumerate() {
        if two.offer(s.to_bits()) {
            best = Some(i);
        }
    }
    assert_eq!(best, Some(3));
    assert_eq!((f64::from_bits(two.best), f64::from_bits(two.second)), (3.0, 3.0));
    assert_eq!(first_search_px(6, true), 3);
    assert_eq!(first_search_px(2, true), 2);
    assert_eq!(first_search_px(6, false), 6);
    assert_eq!(wide_search_px(6), 12);
    assert_eq!(wide_search_px(1), 3);
    assert!(wants_wide_search(None, 0.01f64.to_bits()));
    assert!(!wants_wide_search(None, 0.02f64.to_bits()));
    assert!(!wants_wide_search(Some(1), 0.01f64.to_bits()));
    assert!(wants_wide_search(Some(2), 0.0f64.to_bits()));
    assert_eq!(next_low_streak(4, 0.01f64.to_bits()), 5);
    assert_eq!(next_low_streak(4, 0.5f64.to_bits()), 0);
    assert_eq!(next_low_streak(usize::MAX, 0.0f64.to_bits()), usize::MAX);
    assert_eq!(shift_grid(1)[..4], [(-1, -1), (0, -1), (1, -1), (-1, 0)]);
    assert_eq!(shift_grid(6).len(), 169);
    assert!(shift_grid(-1).is_empty());
    assert_eq!((trim_of(3), trim_of(4), trim_of(9)), (0, 1, 2));
}

#[test]
fn levels_never_fall() {
    let mut pools = Pools::new();
    for x in [1.0f64, 5.0, 3.0, 4.0, 10.0, 9.0] {
        pools.push(x.to_bits());
        while let Some(((v0, c0), (v1, c1))) = pools.falling() {
            let sum = f64::from_bits(v0) * c0 as f64 + f64::from_bits(v1) * c1 as f64;
            pools.merge((sum / (c0 + c1) as f64).to_bits());
        }
    }
    let levels: Vec<f64> = pools.levels().into_iter().map(f64::from_bits).collect();
    assert_eq!(levels, vec![1.0, 4.0, 4.0, 4.0, 9.5, 9.5]);
}

#[test]
fn samples_go_to_their_levels() {
    let strip = [(1usize, 1usize, 0u8), (2, 1, 1), (3, 1, 0), (4, 1, 1)];
    assert_eq!(level_places(&strip, 2), Some(vec![vec![0, 2], vec![1, 3]]));
    assert_eq!(level_places(&strip, 3), None);
}

#[test]
fn a_check_confirms_a_codeword() {
    let q: Vec<u32> = [-2.0f32, 1.5, -0.5, 4.0].iter().map(|x| x.to_bits()).collect();
    let said: Vec<(bool, f32)> =
        check_messages(&q).iter().map(|m| (m.negative, f32::from_bits(m.magnitude))).collect();
    assert_eq!(said, vec![(true, 0.5), (false, 0.5), (true, 1.5), (false, 0.5)]);
}

#[test]
fn sealed_headers_and_messages() {
    let body = make_header_body(7, 0x0102, 0xA0B0_C0D0);
    assert_eq!(
        body,
        vec![0x53, 0x4C, 0x44, 0x31, 4, 7, 0, 0, 0, 0, 0, 0, 0, 0, 1, 2, 0xA0, 0xB0, 0xC0, 0xD0]
    );
    let crc = checksum::crc32_bytes(&body);
    let sealed = seal(body, crc);
    assert_eq!(sealed.len(), 24);
    assert_eq!(sealed[20..], crc.to_be_bytes());
    assert_eq!(sealed, make_stream_header(7, 0x0102, 0xA0B0_C0D0));
    let header = parse_stream_header(&sealed).unwrap();
    assert_eq!((header.profile, header.file_len, header.file_crc), (7, 0x0102, 0xA0B0_C0D0));

    let p = params();
    let body = make_boot_body(&p, 1, 0x0304);
    assert_eq!(body, vec![0x53, 0x56, 3, 1, 0, 0, 3, 4]);
    let crc = checksum::crc32_bytes(&body);
    let msg = seal(body, crc);
    assert_eq!(parse_boot_msg(&p, &msg), Some((1, 0x0304)));
    let record = make_record(&p, &msg);
    assert_eq!(record[..12], msg[..]);
    assert_eq!(record, make_boot(&p, 1, 0x0304));
}
