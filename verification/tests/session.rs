use file2video::checksum::{crc32_bytes, sha256_bytes};
use file2video::params::{META_MAGIC, META_VERSION_LEGACY_CRC32};
use file2video::session::{
    build_meta_bytes, extract_verified_payload, hash_to_hex, parse_meta_bytes, prefix_strengthen,
    recover_meta_from_prefix, recover_meta_from_prefix_with_len, same_meta, FileIntegrity,
    PayloadError, StreamMeta, META_LEN_CURRENT,
    META_LEN_LEGACY_CRC32, META_LEN_SHA256,
};

fn meta_of(data: &[u8], profile: u8) -> StreamMeta {
    StreamMeta {
        profile,
        file_len: data.len() as u64,
        file_integrity: FileIntegrity::Sha256(sha256_bytes(data)),
        meta_len: META_LEN_CURRENT,
    }
}

#[test]
fn recover_meta_prefers_majority_copy() {
    let meta = StreamMeta {
        profile: 1,
        file_len: 12345,
        file_integrity: FileIntegrity::Sha256([0x11; 32]),
        meta_len: META_LEN_SHA256,
    };
    let good = build_meta_bytes(&meta);

    let mut bad_meta = meta.clone();
    bad_meta.file_len += 7;
    let bad = build_meta_bytes(&bad_meta);

    let mut sys = Vec::new();
    sys.extend_from_slice(&bad);
    sys.extend_from_slice(&good);
    sys.extend_from_slice(&good);
    sys.extend_from_slice(&good);
    sys.extend_from_slice(b"payload");

    let got = recover_meta_from_prefix(&sys, 4).expect("meta");
    assert_eq!(got, meta);
}

#[test]
fn parse_legacy_crc32_meta_is_supported() {
    let mut raw = Vec::new();
    raw.extend_from_slice(&META_MAGIC);
    raw.push(META_VERSION_LEGACY_CRC32);
    raw.push(2);
    raw.extend_from_slice(&123u64.to_le_bytes());
    raw.extend_from_slice(&0xAABBCCDDu32.to_le_bytes());

    let meta = parse_meta_bytes(&raw).expect("legacy meta");
    assert_eq!(meta.profile, 2);
    assert_eq!(meta.file_len, 123);
    assert_eq!(meta.meta_len, META_LEN_LEGACY_CRC32);
    assert_eq!(meta.file_integrity, FileIntegrity::LegacyCrc32(0xAABBCCDD));
}

#[test]
fn checksums_have_their_standard_values() {
    assert_eq!(crc32_bytes(b"123456789"), 0xCBF4_3926);
    assert_eq!(crc32_bytes(b""), 0);
    for n in [1usize, 7, 8, 31, 64, 129, 1000] {
        let data: Vec<u8> = (0..n).map(|i| (i * 37 + n) as u8).collect();
        let mut reg = u32::MAX;
        for &b in &data {
            reg ^= b as u32;
            for _ in 0..8 {
                reg = if reg & 1 == 1 { (reg >> 1) ^ 0xEDB8_8320 } else { reg >> 1 };
            }
        }
        assert_eq!(crc32_bytes(&data), !reg);
    }
    assert_eq!(
        hash_to_hex(&FileIntegrity::Sha256(sha256_bytes(b"abc"))),
        "ba7816bf8f01cfea414140de5dae2223b00361a396177a9cb410ff61f20015ad"
    );
    assert_eq!(hash_to_hex(&FileIntegrity::LegacyCrc32(0x0102_A0FF)), "0102a0ff");
}

#[test]
fn built_meta_is_parsed_back() {
    let meta = meta_of(b"some data", 2);
    let raw = build_meta_bytes(&meta);
    assert_eq!(raw.len(), META_LEN_CURRENT);
    assert_eq!(parse_meta_bytes(&raw), Some(meta));
    let mut broken = raw.clone();
    broken[0] ^= 1;
    assert_eq!(parse_meta_bytes(&broken), None);
    assert_eq!(parse_meta_bytes(&raw[..45]), None);
    assert!(same_meta(&meta, &meta));
    assert!(!same_meta(&meta, &meta_of(b"some datb", 2)));
}

#[test]
fn strengthened_payload_is_extracted() {
    let data: Vec<u8> = (0..300u32).map(|i| (i * 7) as u8).collect();
    let meta = meta_of(&data, 0);
    let raw = build_meta_bytes(&meta);
    let mut sys = prefix_strengthen(&raw, &data, 4);
    assert_eq!(sys.len(), 4 * META_LEN_CURRENT + data.len());
    assert_eq!(recover_meta_from_prefix(&sys, 4), Some(meta));
    sys.extend_from_slice(&[0, 0, 0]);
    assert_eq!(extract_verified_payload(&sys, 4, false).unwrap(), data);
}

#[test]
fn payload_faults() {
    let data = vec![9u8; 50];
    let raw = build_meta_bytes(&meta_of(&data, 0));
    let sys = prefix_strengthen(&raw, &data, 4);
    assert!(matches!(
        extract_verified_payload(&[1, 2, 3], 4, false),
        Err(PayloadError::MetaNotRecovered)
    ));
    assert!(matches!(
        extract_verified_payload(&sys[..sys.len() - 1], 4, true),
        Err(PayloadError::TooShort { .. })
    ));
    let mut bent = sys.clone();
    let last = bent.len() - 1;
    bent[last] ^= 0x80;
    assert!(extract_verified_payload(&bent, 4, false).is_err());
    assert_eq!(extract_verified_payload(&bent, 4, true).unwrap(), &bent[last - 49..]);
    let mut huge = meta_of(&data, 0);
    huge.file_len = u64::MAX;
    let sys = prefix_strengthen(&build_meta_bytes(&huge), &data, 4);
    assert!(matches!(
        extract_verified_payload(&sys, 4, false),
        Err(PayloadError::LengthOverflow)
    ));
}

#[test]
fn legacy_payload_is_held_against_its_crc() {
    let data = b"legacy payload";
    let mut raw = Vec::new();
    raw.extend_from_slice(&META_MAGIC);
    raw.push(META_VERSION_LEGACY_CRC32);
    raw.push(1);
    raw.extend_from_slice(&(data.len() as u64).to_le_bytes());
    raw.extend_from_slice(&crc32_bytes(data).to_le_bytes());
    let sys = prefix_strengthen(&raw, data, 4);
    assert_eq!(extract_verified_payload(&sys, 4, false).unwrap(), data);
    let mut bent = sys.clone();
    let last = bent.len() - 1;
    bent[last] ^= 1;
    assert!(extract_verified_payload(&bent, 4, false).is_err());
}

#[test]
fn copies_of_no_length_elect_nothing() {
    let meta = StreamMeta {
        profile: 1,
        file_len: 5,
        file_integrity: FileIntegrity::Sha256([7; 32]),
        meta_len: 46,
    };
    let record = build_meta_bytes(&meta);
    assert!(recover_meta_from_prefix_with_len(&record, 1, 46).is_some());
    assert!(recover_meta_from_prefix_with_len(&record, 4, 0).is_none());
    assert!(recover_meta_from_prefix_with_len(&[], 0, 0).is_none());
    assert!(recover_meta_from_prefix_with_len(&record, 4, 45).is_none());
}

#[test]
fn streams_without_metadata_have_no_payload() {
    let r = extract_verified_payload(&[0xAB; 100], usize::MAX, false);
    assert_eq!(r, Err(PayloadError::MetaNotRecovered));
}
