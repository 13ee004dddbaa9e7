use file2video::chunks::{chunk_crc32, commit_chunks_from_decoded, ChunkTracker};

#[test]
fn chunk_tracker_basic_functionality() {
    let chunk_bytes = 8;
    let total_len = 20; // 3 chunks: 8 + 8 + 4

    let mut tracker = ChunkTracker::new(chunk_bytes, total_len);
    assert_eq!(tracker.total_chunks(), 3);
    assert!(!tracker.all_converged());
    assert_eq!(tracker.first_unconverged(), Some(0));

    // Commit chunk 0
    assert!(tracker.try_commit_chunk(0, &[1u8; 8]));
    assert!(!tracker.all_converged());
    assert_eq!(tracker.first_unconverged(), Some(1));
    assert_eq!(tracker.converged_count(), 1);

    // Duplicate commit returns false
    assert!(!tracker.try_commit_chunk(0, &[1u8; 8]));

    // Commit chunk 2 (partial, last chunk)
    assert!(tracker.try_commit_chunk(2, &[3u8; 4]));
    assert_eq!(tracker.first_unconverged(), Some(1));

    // Commit chunk 1
    assert!(tracker.try_commit_chunk(1, &[2u8; 8]));
    assert!(tracker.all_converged());
    assert_eq!(tracker.first_unconverged(), None);

    // Verify output
    let out = tracker.output_bytes();
    assert_eq!(&out[0..8], &[1u8; 8]);
    assert_eq!(&out[8..16], &[2u8; 8]);
    assert_eq!(&out[16..20], &[3u8; 4]);
}

#[test]
fn chunk_crc32_is_consistent() {
    let data = b"hello world";
    let c1 = chunk_crc32(data);
    let c2 = chunk_crc32(data);
    assert_eq!(c1, c2);
    assert_ne!(c1, 0);
}

#[test]
fn commit_chunks_from_decoded_marks_all_converged() {
    // No valid metadata prefix: all bytes are tracked as data
    let data = vec![0xABu8; 100];
    let tracker = commit_chunks_from_decoded(&data, 32, 1);
    assert!(tracker.all_converged());
    assert_eq!(tracker.output_bytes(), &data[..]);
}

#[test]
fn without_metadata_all_bytes_are_data() {
    let data = vec![0xABu8; 100];
    let tracker = commit_chunks_from_decoded(&data, 32, usize::MAX);
    assert!(tracker.all_converged());
    assert_eq!(tracker.total_chunks(), 4);
    assert_eq!(tracker.output_bytes(), &data[..]);
}
