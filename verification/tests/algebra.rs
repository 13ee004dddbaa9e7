use file2video::bytes::{push_le, read_be, read_le, to_be, to_hex};
use file2video::rng::{mix_seed, shuffle_in_place, SplitMix64};
use file2video::rs_codec::RsCodec;

#[test]
fn random_numbers_have_their_published_values() {
    let mut rng = SplitMix64::new(0);
    assert_eq!(rng.next_u64(), 0xE220_A839_7B1D_CDAF);
    assert_eq!(rng.next_u64(), 0x6E78_9E6A_A1B9_65F4);
    assert_eq!(rng.gen_range_usize(1), 0);
    assert_eq!(mix_seed(0, 0), 0xE220_A839_7B1D_CDAF);
}

#[test]
fn shuffling_permutes() {
    let mut v: Vec<usize> = (0..100).collect();
    shuffle_in_place(&mut v, &mut SplitMix64::new(42));
    assert_ne!(v, (0..100).collect::<Vec<usize>>());
    let mut w: Vec<usize> = (0..100).collect();
    shuffle_in_place(&mut w, &mut SplitMix64::new(42));
    assert_eq!(v, w);
    v.sort();
    assert_eq!(v, (0..100).collect::<Vec<usize>>());
}

#[test]
fn the_field_of_bytes() {
    let rs = RsCodec::new(4);
    assert_eq!(rs.pow_alpha(8), 0x1D);
    assert_eq!(rs.pow_alpha(255), 1);
    assert_eq!(rs.mul(0x80, 2), 0x1D);
    assert_eq!(rs.mul(0, 7), 0);
    for a in 1..=255u8 {
        assert_eq!(rs.mul(a, rs.inv(a)), 1);
    }
    assert_eq!(rs.poly_add(&[1, 2, 3], &[1, 2, 4]), vec![7]);
    assert_eq!(rs.poly_add(&[1], &[1]), vec![0]);
    assert_eq!(rs.poly_scale(&[1, 0, 2], 3), vec![3, 0, 6]);
    assert_eq!(rs.poly_mul(&[1, 1], &[1, 2]), vec![1, 3, 2]);
    assert_eq!(rs.poly_eval(&[1, 3, 2], 2), 0);
}

#[test]
fn codewords_are_decoded() {
    let rs = RsCodec::new(8);
    let msg: Vec<u8> = (0..12).map(|i| i * 19 + 1).collect();
    let code = rs.encode(&msg);
    assert_eq!(code.len(), 20);
    assert_eq!(&code[..12], &msg[..]);
    assert_eq!(rs.syndromes(&code), vec![0; 8]);
    assert_eq!(rs.decode(&code), Some(msg));
    assert_eq!(rs.decode(&code[..7]), None);
    let mut bent = code.clone();
    bent[0] ^= 5;
    assert_eq!(rs.decode(&bent), None);
}

#[test]
fn what_is_decoded_with_errors_is_a_codeword_nearby() {
    let rs = RsCodec::new(8);
    let msg: Vec<u8> = (0..12).map(|i| 200 - i * 3).collect();
    let code = rs.encode(&msg);
    let mut some = 0;
    for pos in 0..code.len() {
        let mut bent = code.clone();
        bent[pos] ^= 0x41;
        if let Some(got) = rs.decode(&bent) {
            let back = rs.encode(&got);
            let far = back.iter().zip(&bent).filter(|(a, b)| a != b).count();
            assert!(far <= 4);
            some += 1;
        }
    }
    assert!(some >= 1);
}

#[test]
fn single_errors_are_corrected_in_the_last_byte_alone() {
    for (nsym, len) in [(8usize, 20usize), (2, 9), (10, 255)] {
        let rs = RsCodec::new(nsym);
        let msg: Vec<u8> = (0..len - nsym).map(|i| (i * 7 + 3) as u8).collect();
        let code = rs.encode(&msg);
        for pos in 0..len {
            for e in [1u8, 0x41, 0xFF] {
                let mut bent = code.clone();
                bent[pos] ^= e;
                let want = if pos == len - 1 { Some(msg.clone()) } else { None };
                assert_eq!(rs.decode(&bent), want);
            }
        }
    }
    assert_eq!(RsCodec::new(1).decode(&[1, 2, 4]), None);
}

#[test]
fn few_errors_are_never_miscorrected() {
    let rs = RsCodec::new(8);
    let msg: Vec<u8> = (0..247).map(|i| (i * 11 + 5) as u8).collect();
    let code = rs.encode(&msg);
    let mut corrected = 0;
    for k in 1..255usize {
        let mut bent = code.clone();
        // The powers of these two places are the inverse of each other.
        bent[254 - k] ^= 0x17;
        if 255 - k != k {
            bent[254 - (255 - k)] ^= 0x2A;
        }
        bent[254] ^= (k % 3) as u8;
        let got = rs.decode(&bent);
        assert!(got.is_none() || got.as_ref() == Some(&msg));
        if got.is_some() {
            corrected += 1;
        }
        let mut skew = code.clone();
        skew[k - 1] ^= 9;
        skew[(k * 5 + 7) % 255] ^= 0x33;
        let got = rs.decode(&skew);
        assert!(got.is_none() || got.as_ref() == Some(&msg));
    }
    assert!(corrected > 0);
}

#[test]
fn linear_equations_over_the_field() {
    let rs = RsCodec::new(4);
    let a = vec![vec![0, 1], vec![2, 3]];
    let x = rs.solve_linear(a, vec![7, 9]).unwrap();
    assert_eq!(x[1], 7);
    assert_eq!(rs.mul(2, x[0]) ^ rs.mul(3, x[1]), 9);
    assert_eq!(rs.solve_linear(vec![vec![1, 1], vec![1, 1]], vec![1, 2]), None);
    assert_eq!(rs.solve_linear(vec![], vec![]), None);
    assert_eq!(rs.solve_linear(vec![vec![1, 1]], vec![1]), None);
    assert_eq!(rs.berlekamp_massey(&[0, 0, 0, 0]), None);
    assert_eq!(rs.find_error_positions(&[1, 1], 5), Some(vec![4]));
    assert_eq!(rs.find_error_positions(&[1, 0x1D, 1], 3), None);
}

#[test]
fn integers_in_bytes() {
    assert_eq!(read_be(&[9, 1, 2, 3], 1, 2), 0x0102);
    assert_eq!(read_le(&[9, 1, 2, 3], 1, 2), 0x0201);
    let mut v = vec![7];
    push_le(&mut v, 0x0A0B, 4);
    assert_eq!(v, vec![7, 0x0B, 0x0A, 0, 0]);
    assert_eq!(to_be(0x0A0B, 3), vec![0, 0x0A, 0x0B]);
    assert_eq!(to_hex(&[0, 0x9F, 0xA0]), "009fa0");
}
