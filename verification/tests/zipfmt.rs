use zipmount::zipfmt::{
    crc32, data_offset, dos_to_filetime, find_eocd, locate_central_directory,
    parse_central_directory, unix_to_filetime, ZipError, FILETIME_TICKS_PER_SEC,
    DAYS_1601_TO_1970,
};

fn filetime_to_unix(ft: u64) -> i64 {
    ft as i64 / FILETIME_TICKS_PER_SEC - DAYS_1601_TO_1970 * 86_400
}

#[test]
fn dos_time_epoch_start() {
    // 1980-01-01 00:00:00 — the earliest representable DOS time.
    let date = (((1980 - 1980) as u16) << 9) | (1 << 5) | 1;
    assert_eq!(filetime_to_unix(dos_to_filetime(date, 0)), 315_532_800);
}

#[test]
fn dos_time_known_date() {
    // 2024-03-15 14:30:20; DOS stores seconds divided by 2.
    let date = (((2024 - 1980) as u16) << 9) | (3 << 5) | 15;
    let time = (14u16 << 11) | (30 << 5) | 10;
    assert_eq!(filetime_to_unix(dos_to_filetime(date, time)), 1_710_513_020);
}

#[test]
fn malformed_dos_time_is_not_garbage() {
    assert_eq!(dos_to_filetime(0, 0), 0);
}

#[test]
fn unix_and_dos_agree_on_same_moment() {
    let date = (((2024 - 1980) as u16) << 9) | (3 << 5) | 15;
    let time = (14u16 << 11) | (30 << 5) | 10;
    assert_eq!(dos_to_filetime(date, time), unix_to_filetime(1_710_513_020));
}

#[test]
fn eocd_rejects_non_zip() {
    assert!(find_eocd(&vec![0u8; 1000]).is_err());
}

#[test]
fn eocd_rejects_tiny_file() {
    assert!(find_eocd(b"PK").is_err());
}

#[test]
fn crc32_matches_known_vector() {
    assert_eq!(crc32(b"123456789"), 0xCBF4_3926);
}

/// A minimal archive: one stored entry "a.txt" holding "hi", built by hand.
fn tiny_zip() -> Vec<u8> {
    let name = b"a.txt";
    let body = b"hi";
    let crc = crc32(body);
    let mut z = Vec::new();
    // Local header.
    z.extend_from_slice(&0x0403_4b50u32.to_le_bytes());
    z.extend_from_slice(&[20, 0, 0, 0, 0, 0, 0, 0, 0x21, 0]);
    z.extend_from_slice(&crc.to_le_bytes());
    z.extend_from_slice(&2u32.to_le_bytes());
    z.extend_from_slice(&2u32.to_le_bytes());
    z.extend_from_slice(&(name.len() as u16).to_le_bytes());
    z.extend_from_slice(&0u16.to_le_bytes());
    z.extend_from_slice(name);
    z.extend_from_slice(body);
    let cd_start = z.len();
    // Central directory header.
    z.extend_from_slice(&0x0201_4b50u32.to_le_bytes());
    z.extend_from_slice(&[20, 3, 20, 0, 0, 0, 0, 0, 0, 0, 0x21, 0]);
    z.extend_from_slice(&crc.to_le_bytes());
    z.extend_from_slice(&2u32.to_le_bytes());
    z.extend_from_slice(&2u32.to_le_bytes());
    z.extend_from_slice(&(name.len() as u16).to_le_bytes());
    z.extend_from_slice(&[0, 0, 0, 0, 0, 0, 0, 0]);
    z.extend_from_slice(&0u32.to_le_bytes());
    z.extend_from_slice(&0u32.to_le_bytes());
    z.extend_from_slice(name);
    let cd_size = z.len() - cd_start;
    // EOCD.
    z.extend_from_slice(&0x0605_4b50u32.to_le_bytes());
    z.extend_from_slice(&[0, 0, 0, 0, 1, 0, 1, 0]);
    z.extend_from_slice(&(cd_size as u32).to_le_bytes());
    z.extend_from_slice(&(cd_start as u32).to_le_bytes());
    z.extend_from_slice(&0u16.to_le_bytes());
    z
}

#[test]
fn central_directory_of_a_tiny_archive() {
    let z = tiny_zip();
    let cd = locate_central_directory(&z).unwrap();
    assert_eq!(cd.entries, 1);
    let entries = parse_central_directory(&z).unwrap();
    assert_eq!(entries.len(), 1);
    assert_eq!(entries[0].name_raw, b"a.txt");
    assert_eq!(entries[0].crc32, crc32(b"hi"));
    assert_eq!(entries[0].uncomp_size, 2);
    assert!(!entries[0].is_dir());
    let start = data_offset(&z, entries[0].local_header_offset).unwrap() as usize;
    assert_eq!(&z[start..start + 2], b"hi");
}

#[test]
fn a_comment_that_does_not_reach_the_end_is_no_eocd() {
    let mut z = tiny_zip();
    z.push(0);
    assert_eq!(find_eocd(&z), Err(ZipError::NoEocd));
}

#[test]
fn too_small_reports_the_size() {
    assert_eq!(find_eocd(b"PK"), Err(ZipError::TooSmall { size: 2 }));
}

#[test]
fn bad_local_header_is_reported() {
    let z = tiny_zip();
    assert_eq!(data_offset(&z, 1), Err(ZipError::BadLocalHeader { offset: 1 }));
}
