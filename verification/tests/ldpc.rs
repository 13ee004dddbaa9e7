use file2video::envelope::{
    ldpc_info_bytes, ldpc_user_payload_bytes, pack_cw_info_block, unpack_cw_info_block,
    EnvelopeError,
};
use file2video::gf2::{dense_from_sparse_rows, gf2_invert_dense};
use file2video::ldpc::{LdpcCode, LdpcEncodeScratch};
use file2video::link_profile::LinkProfile;
use file2video::parity_rows::gen_ldpc_h2_rows_and_inv;
use file2video::qc::{qc_base_h1, qc_base_h2, qc_expand_rows, QcLdpcSpec};
use file2video::soft_decisions::{bit_metrics, check_messages};

fn profile(number: u8, k: usize) -> LinkProfile {
    LinkProfile {
        profile: number,
        pam_m: 2,
        bits_per_plane: 1,
        y_levels: vec![48, 208],
        u_levels: vec![96, 160],
        v_levels: vec![96, 160],
        cal_repeats: 4,
        boot_copies: 1,
        locator_size: 2,
        ldpc_n: 768,
        ldpc_k: k,
        ldpc_seed: 0x1234_5678,
        ldpc_col_w: 3,
        ldpc_iters: 8,
    }
}

fn decode_soft(code: &LdpcCode, ch_llr: &[f32], max_iters: usize) -> Option<Vec<u8>> {
    let mut post = ch_llr.to_vec();
    let mut c2v = vec![0f32; code.edge_cols.len()];
    for _ in 0..max_iters.max(1) {
        for r in 0..code.m {
            let row = &code.row_edge_flat[code.row_edge_offsets[r]..code.row_edge_offsets[r + 1]];
            let q: Vec<u32> = row
                .iter()
                .map(|&e| (post[code.edge_cols[e]] - c2v[e]).to_bits())
                .collect();
            for (&e, m) in row.iter().zip(check_messages(&q)) {
                let mag = 0.875 * f32::from_bits(m.magnitude);
                let new_r = if m.negative { -mag } else { mag };
                post[code.edge_cols[e]] += new_r - c2v[e];
                c2v[e] = new_r;
            }
        }
        let hard: Vec<u8> = post.iter().map(|&x| if x < 0.0 { 1 } else { 0 }).collect();
        if let Some(info) = code.accept_hard(&hard) {
            return Some(info);
        }
    }
    None
}

#[test]
fn ldpc_noiseless_roundtrip_all_profiles() {
    for pcfg in [profile(0, 640), profile(1, 512), profile(2, 384)].iter() {
        let code = LdpcCode::from_profile(pcfg);
        let mut info = vec![0u8; code.k];
        for (i, b) in info.iter_mut().enumerate() {
            *b = (((i * 17 + pcfg.profile as usize) ^ (i >> 1)) & 1) as u8;
        }
        let cw = code.encode(&info);
        for r in 0..code.m {
            let rs = code.row_edge_offsets[r];
            let re = code.row_edge_offsets[r + 1];
            let mut p = 0u8;
            for &e in &code.row_edge_flat[rs..re] {
                p ^= cw[code.edge_cols[e]] & 1;
            }
            assert_eq!(p, 0, "encoded codeword parity check failed: profile {} row {}", pcfg.profile, r);
        }
        let llr: Vec<f32> = cw
            .iter()
            .map(|&b| if b == 0 { 12.0 } else { -12.0 })
            .collect();
        let got = decode_soft(&code, &llr, pcfg.ldpc_iters.max(4))
            .expect("ldpc decode should succeed on noiseless llr");
        assert_eq!(got, info, "profile {}", pcfg.profile);
    }
}

#[test]
fn codeword_envelope_roundtrip() {
    let code = LdpcCode::from_profile(&profile(0, 640));
    let payload_cap = ldpc_user_payload_bytes(&code).unwrap();
    let mut payload = vec![0u8; payload_cap - 3];
    for (i, b) in payload.iter_mut().enumerate() {
        *b = (i as u8).wrapping_mul(13).wrapping_add(7);
    }
    let packed = pack_cw_info_block(&code, &payload).unwrap();
    let unpacked = unpack_cw_info_block(&code, &packed).unwrap();
    assert_eq!(&unpacked[..payload.len()], &payload[..]);
    assert!(unpacked[payload.len()..].iter().all(|&x| x == 0));
}

#[test]
fn envelope_sizes_and_faults() {
    let mut code = LdpcCode::from_profile(&profile(0, 640));
    assert_eq!(ldpc_info_bytes(&code), Ok(80));
    assert_eq!(ldpc_user_payload_bytes(&code), Ok(80));
    assert_eq!(
        pack_cw_info_block(&code, &[0u8; 81]).err(),
        Some(EnvelopeError::PayloadTooLarge { len: 81, cap: 80 })
    );
    assert_eq!(unpack_cw_info_block(&code, &[0u8; 79]), None);
    code.k = 641;
    assert_eq!(ldpc_info_bytes(&code), Err(EnvelopeError::NotByteAligned { k: 641 }));
    assert_eq!(pack_cw_info_block(&code, &[]).err(), Some(EnvelopeError::NotByteAligned { k: 641 }));
    code.k = 0;
    assert_eq!(ldpc_info_bytes(&code), Ok(0));
    assert_eq!(ldpc_user_payload_bytes(&code), Err(EnvelopeError::TooSmall { k: 0 }));
}

#[test]
fn a_changed_codeword_is_not_accepted() {
    let code = LdpcCode::from_profile(&profile(0, 640));
    let info: Vec<u8> = (0..640).map(|i| ((i / 3) % 2) as u8).collect();
    let mut scratch = LdpcEncodeScratch::for_code(&code);
    let word = code.encode_with_scratch(&info, &mut scratch).to_vec();
    assert_eq!(word, code.encode(&info));
    assert_eq!(&word[..640], &info[..]);
    assert!(code.parity_ok(&word));
    assert_eq!(code.accept_hard(&word), Some(info.clone()));
    let mut bent = word.clone();
    bent[700] ^= 1;
    assert!(!code.parity_ok(&bent));
    assert_eq!(code.accept_hard(&bent), None);
    let mut llr: Vec<f32> = word.iter().map(|&b| if b == 0 { 4.0 } else { -4.0 }).collect();
    llr[5] = -llr[5] * 0.25;
    assert_eq!(decode_soft(&code, &llr, 8), Some(info));
}

#[test]
fn short_information_is_filled_with_zeros() {
    let code = LdpcCode::from_profile(&profile(0, 640));
    let mut full = vec![1u8; 10];
    full.resize(640, 0);
    assert_eq!(code.encode(&[1u8; 10]), code.encode(&full));
}

#[test]
fn base_matrices_expand_to_shifted_blocks() {
    let spec = QcLdpcSpec { z: 32, kb: 20, mb: 4 };
    let h1 = qc_base_h1(spec);
    assert_eq!(&h1[1][..3], &[4, 28, -1]);
    let h2 = qc_base_h2(spec);
    assert_eq!(h2[0], vec![0, -1, -1, 1]);
    let rows = qc_expand_rows(&h2, 32);
    assert_eq!(rows.len(), 128);
    assert_eq!(rows[0], vec![0, 97]);
    assert_eq!(rows[31], vec![31, 96]);
    assert_eq!(rows[32], vec![4, 32]);
    assert_eq!(gf2_invert_dense(&dense_from_sparse_rows(&rows, 128)), None);
}

#[test]
fn matrices_over_two_elements_are_inverted() {
    let a = vec![vec![0, 1, 0], vec![1, 1, 0], vec![0, 1, 1]];
    assert_eq!(
        gf2_invert_dense(&a),
        Some(vec![vec![1, 1, 0], vec![1, 0, 0], vec![1, 0, 1]])
    );
    assert_eq!(gf2_invert_dense(&[vec![1, 1], vec![1, 1]]), None);
    assert_eq!(gf2_invert_dense(&[]), None);
    assert_eq!(gf2_invert_dense(&[vec![1], vec![1]]), None);
    assert_eq!(
        dense_from_sparse_rows(&[vec![0, 1, 1], vec![5], vec![0]], 2),
        vec![vec![1, 0], vec![0, 0]]
    );
}

#[test]
fn scattered_parity_rows_come_with_their_inverse() {
    let (rows, inv) = gen_ldpc_h2_rows_and_inv(64, 7, 4);
    assert_eq!(rows.len(), 64);
    for j in 0..64 {
        assert!(rows[j].contains(&j));
    }
    let edges: usize = rows.iter().map(|r| r.len()).sum();
    assert_eq!(edges, 3 * 64);
    let dense = dense_from_sparse_rows(&rows, 64);
    for r in 0..64 {
        for c in 0..64 {
            let mut p = 0u8;
            for t in 0..64 {
                p ^= dense[r][t] & inv[t][c];
            }
            assert_eq!(p & 1, if r == c { 1 } else { 0 });
        }
    }
}

#[test]
fn columns_of_two_ones_give_way_to_two_diagonals() {
    // The rows of a matrix with two ones in each column add up to zero.
    let (rows, inv) = gen_ldpc_h2_rows_and_inv(5, 7, 3);
    assert_eq!(rows, vec![vec![0], vec![1, 0], vec![2, 1], vec![3, 2], vec![4, 3]]);
    for r in 0..5 {
        for c in 0..5 {
            assert_eq!(inv[r][c], if c <= r { 1 } else { 0 });
        }
    }
}

#[test]
fn check_messages_leave_the_own_value_out() {
    let q: Vec<u32> = [3.0f32, -1.5, 2.0, 8.0].iter().map(|x| x.to_bits()).collect();
    let m = check_messages(&q);
    let magnitudes: Vec<f32> = m.iter().map(|x| f32::from_bits(x.magnitude)).collect();
    let signs: Vec<bool> = m.iter().map(|x| x.negative).collect();
    assert_eq!(magnitudes, vec![1.5, 2.0, 1.5, 1.5]);
    assert_eq!(signs, vec![true, false, true, true]);
    let alone = check_messages(&[(-2.0f32).to_bits()]);
    assert_eq!(f32::from_bits(alone[0].magnitude), f32::INFINITY);
    assert!(!alone[0].negative);
    assert!(check_messages(&[]).is_empty());
}

#[test]
fn bit_metrics_split_symbols_by_their_gray_code() {
    // Four levels have the codes 00, 01, 11 and 10.
    let metrics: Vec<u64> = [4.0f64, 1.0, 0.5, 9.0].iter().map(|x| x.to_bits()).collect();
    let r: Vec<(f64, f64)> = bit_metrics(&metrics, 2)
        .iter()
        .map(|&(a, b)| (f64::from_bits(a), f64::from_bits(b)))
        .collect();
    assert_eq!(r, vec![(1.0, 0.5), (4.0, 0.5)]);
    let one = bit_metrics(&metrics[..1], 1);
    assert_eq!(f64::from_bits(one[0].1), f64::INFINITY);
    assert!(bit_metrics(&[], 3).is_empty());
}
