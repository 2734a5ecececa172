use std::io::Write;

use zipmount::backend::{
    compressed_bytes, encrypted_entry_count, gunzip_bounded, inflate_exact, open_targz, GzipError, TarGzError, read_zip_entry, tar_entries_meta,
    tar_entry_range, zip_entries_meta, zip_entry_range, EntryError, InflateFailure,
};
use zipmount::names::NameEncoding;
use zipmount::tarfmt::TarEntry;
use zipmount::zipfmt::{crc32, parse_central_directory};

/// Pseudo-text that compresses well without degenerating into one repeat.
fn sample(len: usize) -> Vec<u8> {
    let mut out = Vec::with_capacity(len);
    let mut i = 0usize;
    while out.len() < len {
        out.extend_from_slice(format!("line {i} of text to search\n").as_bytes());
        i += 1;
    }
    out.truncate(len);
    out
}

fn deflate(data: &[u8]) -> Vec<u8> {
    let mut c = libdeflater::Compressor::new(libdeflater::CompressionLvl::default());
    let mut out = vec![0u8; c.deflate_compress_bound(data.len())];
    let n = c.deflate_compress(data, &mut out).unwrap();
    out.truncate(n);
    out
}

/// One entry `name` with `method` and the given stored bytes.
fn one_entry_zip(name: &[u8], method: u16, stored: &[u8], plain: &[u8], flags: u16) -> Vec<u8> {
    let crc = crc32(plain);
    let mut z = Vec::new();
    z.extend_from_slice(&0x0403_4b50u32.to_le_bytes());
    z.extend_from_slice(&20u16.to_le_bytes());
    z.extend_from_slice(&flags.to_le_bytes());
    z.extend_from_slice(&method.to_le_bytes());
    z.extend_from_slice(&[0, 0, 0x21, 0]);
    z.extend_from_slice(&crc.to_le_bytes());
    z.extend_from_slice(&(stored.len() as u32).to_le_bytes());
    z.extend_from_slice(&(plain.len() as u32).to_le_bytes());
    z.extend_from_slice(&(name.len() as u16).to_le_bytes());
    z.extend_from_slice(&0u16.to_le_bytes());
    z.extend_from_slice(name);
    z.extend_from_slice(stored);
    let cd_start = z.len();
    z.extend_from_slice(&0x0201_4b50u32.to_le_bytes());
    z.extend_from_slice(&[20, 3, 20, 0]);
    z.extend_from_slice(&flags.to_le_bytes());
    z.extend_from_slice(&method.to_le_bytes());
    z.extend_from_slice(&[0, 0, 0x21, 0]);
    z.extend_from_slice(&crc.to_le_bytes());
    z.extend_from_slice(&(stored.len() as u32).to_le_bytes());
    z.extend_from_slice(&(plain.len() as u32).to_le_bytes());
    z.extend_from_slice(&(name.len() as u16).to_le_bytes());
    z.extend_from_slice(&[0, 0, 0, 0, 0, 0, 0, 0]);
    z.extend_from_slice(&0u32.to_le_bytes());
    z.extend_from_slice(&0u32.to_le_bytes());
    z.extend_from_slice(name);
    let cd_size = z.len() - cd_start;
    z.extend_from_slice(&0x0605_4b50u32.to_le_bytes());
    z.extend_from_slice(&[0, 0, 0, 0, 1, 0, 1, 0]);
    z.extend_from_slice(&(cd_size as u32).to_le_bytes());
    z.extend_from_slice(&(cd_start as u32).to_le_bytes());
    z.extend_from_slice(&0u16.to_le_bytes());
    z
}

#[test]
fn inflate_exact_round_trips() {
    let data = sample(100_000);
    let comp = deflate(&data);
    assert_eq!(inflate_exact(&comp, data.len() as u64).unwrap(), data);
}

#[test]
fn inflate_exact_handles_empty() {
    assert!(inflate_exact(&[], 0).unwrap().is_empty());
}

#[test]
fn inflate_reports_damage_and_a_short_size() {
    let data = sample(10_000);
    let comp = deflate(&data);
    assert_eq!(
        inflate_exact(&comp, 100),
        Err(EntryError::Deflate(InflateFailure::InsufficientSpace))
    );
    assert_eq!(
        inflate_exact(&[0xff, 0xff, 0xff], 10),
        Err(EntryError::Deflate(InflateFailure::BadData))
    );
}

#[test]
fn stored_and_deflated_entries_read_whole() {
    let z = one_entry_zip(b"a.txt", 0, b"hi", b"hi", 0);
    let entries = parse_central_directory(&z).unwrap();
    assert_eq!(read_zip_entry(&z, &entries[0], None).unwrap(), b"hi");
    let (start, len) = zip_entry_range(&z, &entries[0]).unwrap();
    assert_eq!(&z[start..start + len], b"hi");
    let bytes = compressed_bytes(&z, &entries[0], None).unwrap();
    assert!(bytes.decrypted.is_none());
    assert_eq!((bytes.start, bytes.len), (start, len));

    let data = sample(5_000);
    let z = one_entry_zip(b"log.txt", 8, &deflate(&data), &data, 0);
    let entries = parse_central_directory(&z).unwrap();
    assert_eq!(read_zip_entry(&z, &entries[0], None).unwrap(), data);
}

#[test]
fn unknown_methods_and_missing_passwords_are_errors() {
    let z = one_entry_zip(b"a.bz2", 12, b"xx", b"xx", 0);
    let entries = parse_central_directory(&z).unwrap();
    assert_eq!(read_zip_entry(&z, &entries[0], None), Err(EntryError::Method(12)));

    let z = one_entry_zip(b"secret.txt", 0, &[0u8; 14], b"hi", 1);
    let entries = parse_central_directory(&z).unwrap();
    assert_eq!(encrypted_entry_count(&entries), 1);
    assert!(matches!(
        read_zip_entry(&z, &entries[0], None),
        Err(EntryError::Crypt(_))
    ));
}

#[test]
fn zip_entries_are_described() {
    let z = one_entry_zip(b"dir/a.txt", 0, b"hi", b"hi", 0);
    let entries = parse_central_directory(&z).unwrap();
    let meta = zip_entries_meta(&entries, NameEncoding::Auto);
    assert_eq!(meta.len(), 1);
    assert_eq!(meta[0].path, "dir/a.txt");
    assert!(!meta[0].is_dir);
    assert_eq!(meta[0].size, 2);
    assert_eq!(encrypted_entry_count(&entries), 0);
}

#[test]
fn tar_ranges_stay_inside_the_stream() {
    let e = TarEntry {
        path: "a.txt".to_string(),
        size: 10,
        mtime: 7,
        data_offset: 512,
        is_dir: false,
    };
    assert_eq!(tar_entry_range(&e, 1024), Ok((512, 10)));
    assert_eq!(tar_entry_range(&e, 521), Err(EntryError::OutOfBounds));
    assert_eq!(tar_entry_range(&e, 522), Ok((512, 10)));
    let meta = tar_entries_meta(&vec![e]);
    assert_eq!((meta[0].path.as_str(), meta[0].size, meta[0].mtime), ("a.txt", 10, 7));
}

#[test]
fn gzip_expands_within_the_budget() {
    let data = sample(20_000);
    let mut enc = flate2::write::GzEncoder::new(Vec::new(), flate2::Compression::default());
    enc.write_all(&data).unwrap();
    let gz = enc.finish().unwrap();
    assert_eq!(gunzip_bounded(&gz, 20_000).ok().unwrap(), data);
    assert!(matches!(gunzip_bounded(&gz, 19_999), Err(GzipError::TooLarge)));
    let mut broken = gz.clone();
    let n = broken.len();
    broken[n - 8] ^= 0xff; // the stored CRC32
    assert!(matches!(gunzip_bounded(&broken, 1 << 20), Err(GzipError::Damaged(_))));
    // Not a tar inside.
    assert!(matches!(open_targz(&gz, 1 << 20), Err(TarGzError::NotTar)));
}

#[test]
fn targz_opens_as_a_tar() {
    let mut tar = vec![0u8; 512];
    tar[..5].copy_from_slice(b"a.txt");
    tar[100..107].copy_from_slice(b"0000644");
    tar[124..135].copy_from_slice(b"00000000005");
    tar[136..147].copy_from_slice(b"00000000000");
    tar[156] = b'0';
    tar[257..262].copy_from_slice(b"ustar");
    tar[148..156].copy_from_slice(b"        ");
    let sum: u32 = tar.iter().map(|&b| b as u32).sum();
    let field = format!("{sum:06o}\0 ");
    tar[148..156].copy_from_slice(field.as_bytes());
    let mut body = b"hello".to_vec();
    body.resize(512, 0);
    tar.extend_from_slice(&body);
    tar.extend_from_slice(&[0u8; 1024]);
    let mut enc = flate2::write::GzEncoder::new(Vec::new(), flate2::Compression::default());
    enc.write_all(&tar).unwrap();
    let gz = enc.finish().unwrap();
    let (data, entries) = open_targz(&gz, 1 << 20).ok().unwrap();
    assert_eq!(data, tar);
    assert_eq!(entries.len(), 1);
    assert_eq!(entries[0].path, "a.txt");
    assert_eq!(entries[0].size, 5);
}
