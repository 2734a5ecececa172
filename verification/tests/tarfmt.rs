use zipmount::tarfmt::{
    looks_like_tar, numeric_field, parse_tar, TarError, BLOCK, LEN_CHKSUM, OFF_CHKSUM, OFF_MAGIC,
    OFF_MTIME, OFF_PREFIX, OFF_SIZE, OFF_TYPEFLAG,
};

/// Builds a valid tar header with a correct checksum.
fn make_header(name: &str, size: u64, typeflag: u8) -> Vec<u8> {
    let mut h = vec![0u8; BLOCK];
    h[..name.len()].copy_from_slice(name.as_bytes());
    let size_field = format!("{size:011o}\0");
    h[OFF_SIZE..OFF_SIZE + size_field.len()].copy_from_slice(size_field.as_bytes());
    let mtime_field = format!("{:011o}\0", 1_700_000_000u64);
    h[OFF_MTIME..OFF_MTIME + mtime_field.len()].copy_from_slice(mtime_field.as_bytes());
    h[OFF_TYPEFLAG] = typeflag;
    h[OFF_MAGIC..OFF_MAGIC + 6].copy_from_slice(b"ustar\0");

    // The sum is taken with the field filled with spaces.
    h[OFF_CHKSUM..OFF_CHKSUM + LEN_CHKSUM].fill(b' ');
    let sum: u64 = h.iter().map(|&b| b as u64).sum();
    let sum_field = format!("{sum:06o}\0 ");
    h[OFF_CHKSUM..OFF_CHKSUM + sum_field.len()].copy_from_slice(sum_field.as_bytes());
    h
}

fn with_body(header: Vec<u8>, body: &[u8]) -> Vec<u8> {
    let mut out = header;
    out.extend_from_slice(body);
    let pad = (BLOCK - body.len() % BLOCK) % BLOCK;
    out.extend(std::iter::repeat_n(0u8, pad));
    out
}

#[test]
fn parses_single_file() {
    let data = with_body(make_header("hello.txt", 5, b'0'), b"world");
    let entries = parse_tar(&data).unwrap();
    assert_eq!(entries.len(), 1);
    assert_eq!(entries[0].path, "hello.txt");
    assert_eq!(entries[0].size, 5);
    assert_eq!(entries[0].data_offset, BLOCK as u64);
    assert!(!entries[0].is_dir);
}

#[test]
fn data_offset_points_at_real_content() {
    let data = with_body(make_header("a.txt", 5, b'0'), b"world");
    let e = &parse_tar(&data).unwrap()[0];
    let start = e.data_offset as usize;
    assert_eq!(&data[start..start + e.size as usize], b"world");
}

#[test]
fn parses_directory_entry() {
    let data = with_body(make_header("docs/", 0, b'5'), b"");
    let entries = parse_tar(&data).unwrap();
    assert_eq!(entries.len(), 1);
    assert!(entries[0].is_dir);
}

#[test]
fn several_entries_follow_each_other() {
    let mut data = with_body(make_header("a.txt", 3, b'0'), b"aaa");
    data.extend(with_body(make_header("b.txt", 600, b'0'), &[b'b'; 600]));
    let entries = parse_tar(&data).unwrap();
    assert_eq!(entries.len(), 2);
    assert_eq!(entries[1].path, "b.txt");
    // The second file is longer than a block: check that padding is honoured.
    let start = entries[1].data_offset as usize;
    assert_eq!(data[start], b'b');
    assert_eq!(data[start + 599], b'b');
}

#[test]
fn gnu_long_name_overrides_header_name() {
    let long = "очень/длинный/путь/".repeat(8) + "файл.txt";
    let mut data = with_body(
        make_header("././@LongLink", long.len() as u64, b'L'),
        long.as_bytes(),
    );
    data.extend(with_body(make_header("short.txt", 2, b'0'), b"hi"));
    let entries = parse_tar(&data).unwrap();
    assert_eq!(entries.len(), 1);
    assert_eq!(entries[0].path, long);
}

/// Builds a PAX record. The leading length includes itself, so it has to
/// be found by iteration — exactly as a real tar does it.
fn pax_record(key: &str, value: &str) -> Vec<u8> {
    let payload = format!("{key}={value}\n");
    let mut len = payload.len() + 2;
    loop {
        let candidate = format!("{len} {payload}");
        if candidate.len() == len {
            return candidate.into_bytes();
        }
        len = candidate.len();
    }
}

#[test]
fn pax_record_length_includes_itself() {
    let r = pax_record("path", "a.txt");
    let space = r.iter().position(|&b| b == b' ').unwrap();
    let declared: usize = std::str::from_utf8(&r[..space]).unwrap().parse().unwrap();
    assert_eq!(declared, r.len());
}

#[test]
fn pax_path_overrides_header_name() {
    let record = pax_record("path", "путь/а.txt");
    let mut data = with_body(
        make_header("PaxHeaders/0", record.len() as u64, b'x'),
        &record,
    );
    data.extend(with_body(make_header("short.txt", 2, b'0'), b"hi"));
    let entries = parse_tar(&data).unwrap();
    assert_eq!(entries.len(), 1);
    assert_eq!(entries[0].path, "путь/а.txt");
}

#[test]
fn pax_size_overrides_header_size() {
    // For files over 8 GB the size comes in PAX, with zero in the header.
    let record = pax_record("size", "5");
    let mut data = with_body(
        make_header("PaxHeaders/0", record.len() as u64, b'x'),
        &record,
    );
    data.extend(with_body(make_header("big.bin", 0, b'0'), b"12345"));
    let entries = parse_tar(&data).unwrap();
    assert_eq!(entries[0].size, 5);
}

#[test]
fn ustar_prefix_is_joined_with_name() {
    let mut h = make_header("name.txt", 1, b'0');
    h[OFF_PREFIX..OFF_PREFIX + 7].copy_from_slice(b"pre/fix");
    // Recompute the checksum after the edit.
    h[OFF_CHKSUM..OFF_CHKSUM + LEN_CHKSUM].fill(b' ');
    let sum: u64 = h.iter().map(|&b| b as u64).sum();
    let sum_field = format!("{sum:06o}\0 ");
    h[OFF_CHKSUM..OFF_CHKSUM + sum_field.len()].copy_from_slice(sum_field.as_bytes());

    let data = with_body(h, b"x");
    assert_eq!(parse_tar(&data).unwrap()[0].path, "pre/fix/name.txt");
}

#[test]
fn symlinks_and_devices_are_skipped() {
    let mut data = with_body(make_header("link", 0, b'2'), b"");
    data.extend(with_body(make_header("real.txt", 1, b'0'), b"x"));
    let entries = parse_tar(&data).unwrap();
    assert_eq!(entries.len(), 1);
    assert_eq!(entries[0].path, "real.txt");
}

#[test]
fn stops_at_end_of_archive_blocks() {
    let mut data = with_body(make_header("a.txt", 1, b'0'), b"x");
    data.extend(std::iter::repeat_n(0u8, BLOCK * 2));
    assert_eq!(parse_tar(&data).unwrap().len(), 1);
}

#[test]
fn base256_size_field_is_understood() {
    // GNU writes sizes over 8 GB as a binary field flagged by the high bit.
    let mut field = [0u8; 12];
    field[0] = 0x80;
    field[11] = 0x2a;
    assert_eq!(numeric_field(&field), Some(42));
}

#[test]
fn octal_field_with_spaces_is_understood() {
    assert_eq!(numeric_field(b"0000644 \0   "), Some(0o644));
}

#[test]
fn detects_tar_by_magic_and_checksum() {
    let data = with_body(make_header("a.txt", 1, b'0'), b"x");
    assert!(looks_like_tar(&data));
    assert!(!looks_like_tar(&[0u8; BLOCK]));
    assert!(!looks_like_tar(b"PK\x03\x04"));
}

#[test]
fn rejects_garbage_as_first_header() {
    let data = vec![0x41u8; BLOCK * 2];
    assert!(parse_tar(&data).is_err());
}

#[test]
fn garbage_first_header_is_a_bad_header() {
    let data = vec![0x41u8; BLOCK * 2];
    assert_eq!(parse_tar(&data).err(), Some(TarError::BadHeader));
}

#[test]
fn garbage_after_valid_entries_ends_the_walk() {
    let mut data = with_body(make_header("a.txt", 1, b'0'), b"x");
    data.extend(vec![0x41u8; BLOCK]);
    assert_eq!(parse_tar(&data).unwrap().len(), 1);
}

#[test]
fn numeric_field_edge_cases() {
    assert_eq!(numeric_field(b""), None);
    assert_eq!(numeric_field(b"\0\0\0"), Some(0));
    assert_eq!(numeric_field(b"   "), Some(0));
    assert_eq!(numeric_field(b"+17\0"), Some(0o17));
    assert_eq!(numeric_field(b"18\0"), None);
    // 23 octal digits of 7 overflow 64 bits.
    assert_eq!(numeric_field(&[b'7'; 23]), None);
    let mut huge = [0xFFu8; 12];
    huge[0] = 0x80;
    assert_eq!(numeric_field(&huge), None);
}

#[test]
fn header_mtime_reaches_the_entry() {
    let data = with_body(make_header("a.txt", 1, b'0'), b"x");
    let e = &parse_tar(&data).unwrap()[0];
    assert_eq!(e.mtime, zipmount::zipfmt::unix_to_filetime(1_700_000_000));
}
