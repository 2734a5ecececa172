use zipmount::integrity::{
    check_entry, chunk_len, chunk_offsets, verdict, CheckFailure, Verdict, VerifyOptions,
    VerifyOutcome, CHUNK,
};
use zipmount::zipfmt::crc32;

#[test]
fn pieces_cover_the_entry_once_in_either_order() {
    assert!(chunk_offsets(0, false, 1).is_empty());
    assert_eq!(chunk_offsets(1, false, 1), vec![0]);
    assert_eq!(chunk_offsets(65536, false, 1), vec![0]);
    assert_eq!(chunk_offsets(65537, false, 1), vec![0, 65536]);
    let straight = chunk_offsets(10 * CHUNK as u64 + 3, false, 7);
    assert_eq!(straight.len(), 11);
    let mut shuffled = chunk_offsets(10 * CHUNK as u64 + 3, true, 7);
    assert_ne!(shuffled, straight);
    shuffled.sort();
    assert_eq!(shuffled, straight);
    // The same entry is shuffled the same way every time.
    assert_eq!(
        chunk_offsets(10 * CHUNK as u64, true, 7),
        chunk_offsets(10 * CHUNK as u64, true, 7)
    );
}

#[test]
fn the_last_piece_is_short() {
    assert_eq!(chunk_len(100_000, 65536), 100_000 - 65536);
    assert_eq!(chunk_len(200_000, 0), 65536);
}

#[test]
fn verdicts_compare_checksums() {
    assert_eq!(verdict(Some(5), 5), Verdict::Matches);
    assert_eq!(verdict(None, 5), Verdict::NoChecksum);
    assert_eq!(
        verdict(Some(5), 6),
        Verdict::Mismatch { actual: 6, expected: 5 }
    );
}

#[test]
fn whole_contents_pass_against_their_checksum() {
    let data: Vec<u8> = (0..200_000u32).map(|i| (i % 251) as u8).collect();
    let crc = crc32(&data);
    assert_eq!(check_entry(&data, 200_000, Some(crc), false, 1), Ok((200_000, true)));
    assert_eq!(check_entry(&data, 200_000, Some(crc), true, 9), Ok((200_000, true)));
    assert_eq!(check_entry(&data, 200_000, None, true, 9), Ok((200_000, false)));
    assert_eq!(
        check_entry(&data, 200_000, Some(crc ^ 1), false, 1),
        Err(CheckFailure::CrcMismatch {
            actual: crc,
            expected: crc ^ 1
        })
    );
    // Only the entry's own bytes count.
    assert_eq!(check_entry(&data, 10, Some(crc32(&data[..10])), false, 1), Ok((10, true)));
}

#[test]
fn a_short_read_names_the_piece_where_it_stopped() {
    let data = vec![7u8; 70_000];
    assert_eq!(
        check_entry(&data, 140_000, None, false, 1),
        Err(CheckFailure::ShortRead {
            offset: 65536,
            got: 70_000 - 65536,
            want: 65536
        })
    );
    match check_entry(&data, 140_000, None, true, 1) {
        Err(CheckFailure::ShortRead { offset, got, want }) => {
            assert!(offset % CHUNK as u64 == 0 && offset < 140_000);
            assert!(got < want);
        }
        other => panic!("expected a short read, got {other:?}"),
    }
    assert_eq!(check_entry(&[], 0, None, false, 1), Ok((0, false)));
}

#[test]
fn outcome_counts_and_orders_failures() {
    let mut o = VerifyOutcome::new();
    o.passed(10, true);
    o.passed(5, false);
    o.failed("b".to_string(), "bad".to_string());
    o.failed("a".to_string(), "worse".to_string());
    let o = o.finish();
    assert_eq!(o.files_ok, 1);
    assert_eq!(o.files_without_checksum, 1);
    assert_eq!(o.bytes_read, 15);
    let paths: Vec<&str> = o.failures.iter().map(|f| f.path.as_str()).collect();
    assert_eq!(paths, vec!["a", "b"]);
}

#[test]
fn default_verification_reads_in_order() {
    let o = VerifyOptions::default();
    assert!(!o.random_access);
    assert_eq!(o.cache_budget, 128 * 1024 * 1024);
}
