use std::sync::Arc;

use zipmount::backend::EntryError;
use zipmount::cache::ContentCache;
use zipmount::reader::{FileHandle, ReadOutcome, ZipHandle, DEFAULT_MATERIALIZE_MAX};
use zipmount::tarfmt::TarEntry;
use zipmount::zipfmt::{crc32, parse_central_directory};

/// Pseudo-text that compresses well without degenerating into one repeat.
fn sample(len: usize) -> Vec<u8> {
    let mut out = Vec::with_capacity(len);
    let mut i = 0usize;
    while out.len() < len {
        out.extend_from_slice(format!("line {i} of text to search\n").as_bytes());
        i += 1;
    }
    out.truncate(len);
    out
}

fn deflate(data: &[u8]) -> Vec<u8> {
    let mut c = libdeflater::Compressor::new(libdeflater::CompressionLvl::default());
    let mut out = vec![0u8; c.deflate_compress_bound(data.len())];
    let n = c.deflate_compress(data, &mut out).unwrap();
    out.truncate(n);
    out
}

/// One entry `name` with `method` and the given stored bytes.
fn one_entry_zip(name: &[u8], method: u16, stored: &[u8], plain: &[u8], flags: u16) -> Vec<u8> {
    let crc = crc32(plain);
    let mut z = Vec::new();
    z.extend_from_slice(&0x0403_4b50u32.to_le_bytes());
    z.extend_from_slice(&20u16.to_le_bytes());
    z.extend_from_slice(&flags.to_le_bytes());
    z.extend_from_slice(&method.to_le_bytes());
    z.extend_from_slice(&[0, 0, 0x21, 0]);
    z.extend_from_slice(&crc.to_le_bytes());
    z.extend_from_slice(&(stored.len() as u32).to_le_bytes());
    z.extend_from_slice(&(plain.len() as u32).to_le_bytes());
    z.extend_from_slice(&(name.len() as u16).to_le_bytes());
    z.extend_from_slice(&0u16.to_le_bytes());
    z.extend_from_slice(name);
    z.extend_from_slice(stored);
    let cd_start = z.len();
    z.extend_from_slice(&0x0201_4b50u32.to_le_bytes());
    z.extend_from_slice(&[20, 3, 20, 0]);
    z.extend_from_slice(&flags.to_le_bytes());
    z.extend_from_slice(&method.to_le_bytes());
    z.extend_from_slice(&[0, 0, 0x21, 0]);
    z.extend_from_slice(&crc.to_le_bytes());
    z.extend_from_slice(&(stored.len() as u32).to_le_bytes());
    z.extend_from_slice(&(plain.len() as u32).to_le_bytes());
    z.extend_from_slice(&(name.len() as u16).to_le_bytes());
    z.extend_from_slice(&[0, 0, 0, 0, 0, 0, 0, 0]);
    z.extend_from_slice(&0u32.to_le_bytes());
    z.extend_from_slice(&0u32.to_le_bytes());
    z.extend_from_slice(name);
    let cd_size = z.len() - cd_start;
    z.extend_from_slice(&0x0605_4b50u32.to_le_bytes());
    z.extend_from_slice(&[0, 0, 0, 0, 1, 0, 1, 0]);
    z.extend_from_slice(&(cd_size as u32).to_le_bytes());
    z.extend_from_slice(&(cd_start as u32).to_le_bytes());
    z.extend_from_slice(&0u16.to_le_bytes());
    z
}

fn read(h: &FileHandle, data: &[u8], cache: &mut ContentCache, offset: u64, len: usize) -> Vec<u8> {
    let mut buf = vec![0u8; len];
    match h.read_at(data, cache, offset, &mut buf) {
        Ok(ReadOutcome::Served(n)) => {
            buf.truncate(n);
            buf
        }
        other => panic!("unexpected read result {other:?}"),
    }
}

#[test]
fn whole_entries_read_at_any_offset() {
    let h = FileHandle::SevenZ {
        data: Arc::from(b"hello world".to_vec()),
    };
    let mut cache = ContentCache::new(1 << 20);
    assert_eq!(h.size(), 11);
    assert_eq!(read(&h, &[], &mut cache, 0, 5), b"hello");
    assert_eq!(read(&h, &[], &mut cache, 6, 100), b"world");
    assert!(read(&h, &[], &mut cache, 11, 4).is_empty());
    assert!(read(&h, &[], &mut cache, 3, 0).is_empty());
}

#[test]
fn tar_entries_read_inside_their_range() {
    let stream = b"....abcdef....".to_vec();
    let e = TarEntry {
        path: "f".to_string(),
        is_dir: false,
        size: 6,
        mtime: 0,
        data_offset: 4,
    };
    let h = FileHandle::open_tar(&e, stream.len()).unwrap();
    let mut cache = ContentCache::new(1 << 20);
    assert_eq!(h.size(), 6);
    assert_eq!(read(&h, &stream, &mut cache, 2, 10), b"cdef");
    assert!(read(&h, &stream, &mut cache, 6, 10).is_empty());
    let far = TarEntry {
        data_offset: 10,
        ..e
    };
    assert!(matches!(
        FileHandle::open_tar(&far, stream.len()),
        Err(EntryError::OutOfBounds)
    ));
}

#[test]
fn stored_zip_entries_are_slices() {
    let z = one_entry_zip(b"a.txt", 0, b"stored bytes", b"stored bytes", 0);
    let entries = parse_central_directory(&z).unwrap();
    let h = FileHandle::Zip(ZipHandle::open(&z, &entries[0], 0, None, DEFAULT_MATERIALIZE_MAX).unwrap());
    let mut cache = ContentCache::new(1 << 20);
    assert_eq!(h.size(), 12);
    assert_eq!(read(&h, &z, &mut cache, 7, 100), b"bytes");
    assert_eq!(cache.stats().entries, 0);
}

#[test]
fn small_deflate_entries_are_expanded_once_and_cached() {
    let data = sample(50_000);
    let z = one_entry_zip(b"log.txt", 8, &deflate(&data), &data, 0);
    let entries = parse_central_directory(&z).unwrap();
    let h = FileHandle::Zip(ZipHandle::open(&z, &entries[0], 3, None, DEFAULT_MATERIALIZE_MAX).unwrap());
    let mut cache = ContentCache::new(1 << 20);
    assert_eq!(read(&h, &z, &mut cache, 1000, 64), &data[1000..1064]);
    assert_eq!(cache.stats().misses, 1);
    assert_eq!(cache.stats().entries, 1);
    // Backwards, from the cache this time.
    assert_eq!(read(&h, &z, &mut cache, 10, 20), &data[10..30]);
    assert_eq!(cache.stats().hits, 1);
    assert_eq!(read(&h, &z, &mut cache, 49_990, 64), &data[49_990..]);
}

#[test]
fn large_deflate_entries_go_to_the_stream() {
    let data = sample(50_000);
    let z = one_entry_zip(b"log.txt", 8, &deflate(&data), &data, 0);
    let entries = parse_central_directory(&z).unwrap();
    let h = ZipHandle::open(&z, &entries[0], 0, None, 1000).unwrap();
    let mut cache = ContentCache::new(1 << 20);
    let mut buf = vec![0u8; 10];
    assert_eq!(h.read_at(&z, &mut cache, 0, &mut buf), Ok(ReadOutcome::Streamed));
    // Past the end there is nothing to stream.
    assert_eq!(
        h.read_at(&z, &mut cache, 50_000, &mut buf),
        Ok(ReadOutcome::Served(0))
    );
}

#[test]
fn unknown_methods_are_refused_at_open() {
    let z = one_entry_zip(b"a.bin", 14, b"xx", b"xx", 0);
    let entries = parse_central_directory(&z).unwrap();
    assert!(matches!(
        ZipHandle::open(&z, &entries[0], 0, None, DEFAULT_MATERIALIZE_MAX),
        Err(EntryError::Method(14))
    ));
}
