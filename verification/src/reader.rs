//! Reading entry contents at an offset.
//!
//! Zip has three read paths, and that is not premature optimization but a
//! direct consequence of scale:
//!
//! * `stored` — a slice of the mapped file, no copying, no decompression;
//! * small `deflate` — decompressed whole into an LRU cache, then slices from
//!   memory;
//! * large `deflate` — a streaming decoder with a checkpoint index (see
//!   `seek`): forwards it streams at constant memory, backwards it jumps to
//!   the nearest checkpoint. That decoder drives zlib directly; a handle
//!   here says when a read is its to serve.
//!
//! 7z and RAR leave no choice: an entry is handed out whole, so a read is a
//! slice of it. tar data lies in one contiguous piece of the stream.

use std::sync::Arc;

use vstd::prelude::*;

use crate::backend::{compressed_bytes, inflate_exact, secret_view, spec_compressed, spec_inflate_exact, spec_read_zip_entry, entry_bytes_result, EntryError};
use crate::cache::{after_insert, ContentCache, Lru};
use crate::lru::{lookup, touched};
use crate::secret::Secret;
use crate::zipfmt::{data_offset, spec_data_offset, RawEntry, METHOD_DEFLATE, METHOD_STORED};

verus! {

/// Entries above this size are streamed rather than materialized.
pub const DEFAULT_MATERIALIZE_MAX: u64 = 8388608;

/// `Arc::from` on a vector: the same bytes, shared.
#[verifier::external_body]
fn shared_bytes(v: Vec<u8>) -> (res: Arc<[u8]>)
    ensures
        res@ == v@,
{
    Arc::from(v)
}

/// How many bytes a read of `room` bytes at `offset` gets from `len`
/// bytes: none at or past the end.
pub open spec fn read_count(len: int, offset: u64, room: int) -> int {
    if room == 0 || offset >= len {
        0
    } else if len - offset < room {
        len - offset
    } else {
        room
    }
}

/// `buf` after the `n` bytes of `src` at `start` are copied to its front.
pub open spec fn filled(buf: Seq<u8>, src: Seq<u8>, start: int, n: int) -> Seq<u8> {
    if n == 0 {
        buf
    } else {
        src.subrange(start, start + n) + buf.skip(n)
    }
}

/// Copies the `n` bytes of `src` at `start` to the front of `buf`.
fn copy_into(buf: &mut [u8], src: &[u8], start: usize, n: usize)
    requires
        n <= old(buf)@.len(),
        start + n <= src@.len(),
    ensures
        final(buf)@ == filled(old(buf)@, src@, start as int, n as int),
{
    let ghost before = buf@;
    let sl = src.len();
    for i in 0..n
        invariant
            n <= buf@.len(),
            start + n <= sl,
            sl == src@.len(),
            buf@.len() == before.len(),
            forall|j: int| 0 <= j < i ==> buf@[j] == src@[start + j],
            forall|j: int| i <= j < buf@.len() ==> buf@[j] == before[j],
    {
        buf[i] = src[start + i];
    }
    assert(buf@ =~= filled(before, src@, start as int, n as int));
}

/// Copies what a read of `buf.len()` bytes at `offset` gets from `data`.
fn read_from(data: &[u8], offset: u64, buf: &mut [u8]) -> (n: usize)
    ensures
        n == read_count(data@.len() as int, offset, old(buf)@.len() as int),
        final(buf)@ == filled(old(buf)@, data@, offset as int, n as int),
{
    if buf.len() == 0 || offset >= data.len() as u64 {
        return 0;
    }
    let start = offset as usize;
    let n = if data.len() - start < buf.len() {
        data.len() - start
    } else {
        buf.len()
    };
    copy_into(buf, data, start, n);
    n
}

/// An open zip entry, as its reads see it.
pub struct ZipState {
    pub entry_idx: u32,
    pub method: u16,
    pub size: u64,
    pub data_off: u64,
    pub comp_size: u64,
    pub materialize_max: u64,
    pub decrypted: Option<Seq<u8>>,
}

/// An open zip entry.
pub struct ZipHandle {
    entry_idx: u32,
    /// The real compression method: encrypted entries carry a placeholder in
    /// the main header, with the method in an extra field.
    method: u16,
    size: u64,
    data_off: u64,
    comp_size: u64,
    materialize_max: u64,
    /// The decrypted compressed stream. `None` for unencrypted entries, whose
    /// data is then read as a slice of the mapped file without copying.
    decrypted: Option<Vec<u8>>,
}

impl View for ZipHandle {
    type V = ZipState;

    closed spec fn view(&self) -> ZipState {
        ZipState {
            entry_idx: self.entry_idx,
            method: self.method,
            size: self.size,
            data_off: self.data_off,
            comp_size: self.comp_size,
            materialize_max: self.materialize_max,
            decrypted: match self.decrypted {
                Some(d) => Some(d@),
                None => None,
            },
        }
    }
}

/// The method an entry's data is in: for WinZip AES, the one in its extra
/// field.
pub open spec fn actual_method(e: RawEntry) -> u16 {
    match e.aes {
        Some(info) => info.actual_method,
        None => e.method,
    }
}

/// The compressed stream a handle reads: the decrypted one, or its range of
/// the archive.
pub open spec fn comp_of(h: ZipState, data: Seq<u8>) -> Result<Seq<u8>, EntryError> {
    match h.decrypted {
        Some(d) => Ok(d),
        None => if h.data_off > usize::MAX || h.comp_size > usize::MAX {
            Err(EntryError::TooLarge)
        } else if h.data_off + h.comp_size > data.len() {
            Err(EntryError::OutOfBounds)
        } else {
            Ok(data.subrange(h.data_off as int, h.data_off + h.comp_size))
        },
    }
}

/// Where a materialized entry's contents come from: the cache, or else its
/// expansion.
pub open spec fn materialized(cached: Lru, key: u32, comp: Seq<u8>, size: u64) -> Result<Seq<u8>, EntryError> {
    match lookup(cached, key) {
        Some(d) => Ok(d),
        None => spec_inflate_exact(comp, size),
    }
}

/// What a read does.
#[derive(Debug, Clone, Copy, PartialEq, Eq, Structural)]
pub enum ReadOutcome {
    /// This many bytes were read into the front of the buffer; 0 means end
    /// of file.
    Served(usize),
    /// A large deflate entry: the streaming decoder serves it.
    Streamed,
}

impl ZipHandle {
    /// Opens entry `index`, whose table-of-contents record is `e`.
    ///
    /// Decrypts once, at open time: ZipCrypto keys evolve byte by byte, so an
    /// arbitrary piece cannot be decrypted apart from the start of the entry
    /// at all.
    pub fn open(data: &[u8], e: &RawEntry, index: u32, password: Option<&Secret>, materialize_max: u64) -> (res: Result<ZipHandle, EntryError>)
        ensures
            actual_method(*e) != 0 && actual_method(*e) != 8 ==> res == Err::<ZipHandle, EntryError>(EntryError::Method(actual_method(*e))),
            actual_method(*e) == 0 || actual_method(*e) == 8 ==> match spec_data_offset(data@, e.local_header_offset as int) {
                Err(z) => res == Err::<ZipHandle, EntryError>(EntryError::Zip(z)),
                Ok(off) => if e.flags & 1 != 0 {
                    match spec_compressed(data@, *e, secret_view(password)) {
                        Err(err) => res == Err::<ZipHandle, EntryError>(err),
                        Ok((_, _, plain)) => res matches Ok(h) && h@ == (ZipState {
                            entry_idx: index,
                            method: actual_method(*e),
                            size: e.uncomp_size,
                            data_off: off,
                            comp_size: e.comp_size,
                            materialize_max,
                            decrypted: plain,
                        }),
                    }
                } else {
                    res matches Ok(h) && h@ == (ZipState {
                        entry_idx: index,
                        method: actual_method(*e),
                        size: e.uncomp_size,
                        data_off: off,
                        comp_size: e.comp_size,
                        materialize_max,
                        decrypted: None,
                    })
                },
            },
    {
        let method = e.effective_method();
        if method != METHOD_STORED && method != METHOD_DEFLATE {
            return Err(EntryError::Method(method));
        }
        let data_off = match data_offset(data, e.local_header_offset) {
            Ok(o) => o,
            Err(z) => return Err(EntryError::Zip(z)),
        };
        let decrypted = if e.is_encrypted() {
            match compressed_bytes(data, e, password) {
                Ok(b) => b.decrypted,
                Err(err) => return Err(err),
            }
        } else {
            None
        };
        Ok(ZipHandle {
            entry_idx: index,
            method,
            size: e.uncomp_size,
            data_off,
            comp_size: e.comp_size,
            materialize_max,
            decrypted,
        })
    }

    pub fn size(&self) -> (res: u64)
        ensures
            res == self@.size,
    {
        self.size
    }
}

/// The cache's entries after `data` is offered under `key` (see
/// `ContentCache::insert`).
pub open spec fn inserted(entries: Lru, exhausted: bool, key: u32, data: Seq<u8>, budget: nat) -> Lru {
    if data.len() > budget / 2 {
        entries
    } else {
        after_insert(if exhausted { Seq::empty() } else { entries }, key, data, budget)
    }
}

/// The bytes a read of `room` bytes at `offset` wants of an entry of
/// `size` bytes.
pub open spec fn wanted(size: u64, offset: u64, room: int) -> int {
    if room < size - offset {
        room
    } else {
        size - offset
    }
}

/// What a read of a materialized entry does to the cache: a hit makes the
/// entry the most recently used; a miss stores the expanded contents, if
/// they could be had.
pub open spec fn cache_after_read(before: ContentCache, after: ContentCache, key: u32, expanded: Result<Seq<u8>, EntryError>) -> bool {
    &&& after.inv()
    &&& after.budget_of() == before.budget_of()
    &&& if lookup(before.entries(), key) is Some {
        &&& after.entries() == (if before.exhausted() {
            before.entries()
        } else {
            touched(before.entries(), key)
        })
        &&& after.hit_count() == before.hit_count().wrapping_add(1)
        &&& after.miss_count() == before.miss_count()
    } else {
        &&& after.entries() == match expanded {
            Ok(d) => inserted(before.entries(), before.exhausted(), key, d, before.budget_of()),
            Err(_) => before.entries(),
        }
        &&& after.hit_count() == before.hit_count()
        &&& after.miss_count() == before.miss_count().wrapping_add(1)
    }
}

impl ZipHandle {
    /// What a read of `buf.len()` bytes at `offset` returns, `cache` being the
    /// cache before it.
    pub open spec fn read_result(&self, data: Seq<u8>, cache: ContentCache, offset: u64, buf: Seq<u8>) -> Result<ReadOutcome, EntryError> {
        let h = self@;
        let want = wanted(h.size, offset, buf.len() as int);
        if buf.len() == 0 || offset >= h.size {
            Ok(ReadOutcome::Served(0))
        } else {
            match comp_of(h, data) {
                Err(e) => Err(e),
                Ok(comp) => if h.method == 0 {
                    if offset + want <= comp.len() {
                        Ok(ReadOutcome::Served(want as usize))
                    } else {
                        Err(EntryError::OutOfBounds)
                    }
                } else if h.size <= h.materialize_max {
                    match materialized(cache.entries(), h.entry_idx, comp, h.size) {
                        Ok(d) => Ok(ReadOutcome::Served(read_count(d.len() as int, offset, want) as usize)),
                        Err(e) => Err(e),
                    }
                } else {
                    Ok(ReadOutcome::Streamed)
                },
            }
        }
    }

    /// What such a read leaves in the buffer (`buf` before, `out` after) and
    /// the cache (`before`, `after`): the bytes read at the buffer's front,
    /// the rest as it was; the cache touched only by a materialized read.
    pub open spec fn read_effect(
        &self,
        data: Seq<u8>,
        before: ContentCache,
        after: ContentCache,
        offset: u64,
        buf: Seq<u8>,
        out: Seq<u8>,
    ) -> bool {
        let h = self@;
        let want = wanted(h.size, offset, buf.len() as int);
        if buf.len() == 0 || offset >= h.size {
            out == buf && after == before
        } else {
            match comp_of(h, data) {
                Err(_) => out == buf && after == before,
                Ok(comp) => if h.method == 0 {
                    &&& after == before
                    &&& out == (if offset + want <= comp.len() {
                        filled(buf, comp, offset as int, want)
                    } else {
                        buf
                    })
                } else if h.size <= h.materialize_max {
                    &&& cache_after_read(before, after, h.entry_idx, spec_inflate_exact(comp, h.size))
                    &&& out == match materialized(before.entries(), h.entry_idx, comp, h.size) {
                        Ok(d) => filled(buf, d, offset as int, read_count(d.len() as int, offset, want)),
                        Err(_) => buf,
                    }
                } else {
                    out == buf && after == before
                },
            }
        }
    }

    /// Reads up to `buf.len()` bytes at `offset` of the entry, out of the
    /// archive `data`; a read at or past the end gets nothing.
    ///
    /// A stored entry is a slice of its data. A deflate entry no larger than
    /// the materialization limit is expanded whole once and kept in `cache`
    /// under its index; reads slice the expansion. A larger one is the
    /// streaming decoder's (`Streamed`), and nothing is read here.
    pub fn read_at(&self, data: &[u8], cache: &mut ContentCache, offset: u64, buf: &mut [u8]) -> (res: Result<ReadOutcome, EntryError>)
        requires
            old(cache).inv(),
            self@.method == 0 || self@.method == 8,
        ensures
            final(cache).inv(),
            res == self.read_result(data@, *old(cache), offset, old(buf)@),
            self.read_effect(data@, *old(cache), *final(cache), offset, old(buf)@, final(buf)@),
    {
        if buf.len() == 0 || offset >= self.size {
            return Ok(ReadOutcome::Served(0));
        }
        let left = self.size - offset;
        let want: usize = if (buf.len() as u64) < left {
            buf.len()
        } else {
            left as usize
        };
        let comp: &[u8] = match &self.decrypted {
            Some(d) => d.as_slice(),
            None => {
                if self.data_off > usize::MAX as u64 || self.comp_size > usize::MAX as u64 {
                    return Err(EntryError::TooLarge);
                }
                let start = self.data_off as usize;
                let len = self.comp_size as usize;
                if start > data.len() || len > data.len() - start {
                    return Err(EntryError::OutOfBounds);
                }
                vstd::slice::slice_subrange(data, start, start + len)
            },
        };
        if self.method == METHOD_STORED {
            if offset > comp.len() as u64 || (want as u64) > (comp.len() as u64) - offset {
                return Err(EntryError::OutOfBounds);
            }
            copy_into(buf, comp, offset as usize, want);
            return Ok(ReadOutcome::Served(want));
        }
        if self.size <= self.materialize_max {
            let contents: Arc<[u8]> = match cache.get(self.entry_idx) {
                Some(d) => d,
                None => {
                    let decoded = match inflate_exact(comp, self.size) {
                        Ok(v) => shared_bytes(v),
                        Err(e) => return Err(e),
                    };
                    cache.insert(self.entry_idx, decoded.clone());
                    decoded
                },
            };
            let mut piece = vec![0u8; want];
            let n = read_from(&contents, offset, piece.as_mut_slice());
            proof {
                if n > 0 {
                    assert(piece@.subrange(0, n as int) =~= contents@.subrange(offset as int, offset + n));
                }
            }
            copy_into(buf, piece.as_slice(), 0, n);
            return Ok(ReadOutcome::Served(n));
        }
        Ok(ReadOutcome::Streamed)
    }
}

/// An open file of any archive format.
pub enum FileHandle {
    Zip(ZipHandle),
    /// 7z and RAR hand an entry out whole: its contents.
    SevenZ { data: Arc<[u8]> },
    /// tar: data lies in one contiguous piece of the stream, so a range is
    /// enough.
    Tar { offset: usize, len: usize },
}

impl FileHandle {
    /// Whether the handle fits the archive bytes `data` its reads go to.
    pub open spec fn fits(&self, data: Seq<u8>) -> bool {
        match self {
            FileHandle::Zip(h) => h@.method == 0 || h@.method == 8,
            FileHandle::SevenZ { .. } => true,
            FileHandle::Tar { offset, len } => *offset + *len <= data.len(),
        }
    }

    /// The handle of a tar entry, `data_len` being the stream's length.
    pub fn open_tar(e: &crate::tarfmt::TarEntry, data_len: usize) -> (res: Result<FileHandle, EntryError>)
        ensures
            match crate::backend::spec_tar_range(*e, data_len as nat) {
                Ok((start, len)) => res == Ok::<FileHandle, EntryError>(FileHandle::Tar { offset: start, len }),
                Err(err) => res == Err::<FileHandle, EntryError>(err),
            },
    {
        match crate::backend::tar_entry_range(e, data_len) {
            Ok((start, len)) => Ok(FileHandle::Tar { offset: start, len }),
            Err(err) => Err(err),
        }
    }

    pub fn size(&self) -> (res: u64)
        ensures
            res == match self {
                FileHandle::Zip(h) => h@.size,
                FileHandle::SevenZ { data } => data@.len() as u64,
                FileHandle::Tar { len, .. } => *len as u64,
            },
    {
        match self {
            FileHandle::Zip(h) => h.size(),
            FileHandle::SevenZ { data } => data.len() as u64,
            FileHandle::Tar { len, .. } => *len as u64,
        }
    }

    /// Reads up to `buf.len()` bytes starting at `offset`, out of the
    /// archive bytes `data` (the mapped zip, or the tar stream); a read at
    /// or past the end gets nothing.
    pub fn read_at(&self, data: &[u8], cache: &mut ContentCache, offset: u64, buf: &mut [u8]) -> (res: Result<ReadOutcome, EntryError>)
        requires
            old(cache).inv(),
            self.fits(data@),
        ensures
            final(cache).inv(),
            match self {
                FileHandle::Zip(_) => true,
                FileHandle::SevenZ { data: whole } => {
                    let n = read_count(whole@.len() as int, offset, old(buf)@.len() as int);
                    &&& res == Ok::<ReadOutcome, EntryError>(ReadOutcome::Served(n as usize))
                    &&& final(buf)@ == filled(old(buf)@, whole@, offset as int, n)
                    &&& *final(cache) == *old(cache)
                },
                FileHandle::Tar { offset: base, len } => {
                    let piece = data@.subrange(*base as int, *base + *len);
                    let n = read_count(*len as int, offset, old(buf)@.len() as int);
                    &&& res == Ok::<ReadOutcome, EntryError>(ReadOutcome::Served(n as usize))
                    &&& final(buf)@ == filled(old(buf)@, piece, offset as int, n)
                    &&& *final(cache) == *old(cache)
                },
            },
            // A zip entry reads as `ZipHandle::read_at` says.
            self matches FileHandle::Zip(h) ==> (res == h.read_result(data@, *old(cache), offset, old(buf)@)
                && h.read_effect(data@, *old(cache), *final(cache), offset, old(buf)@, final(buf)@)),
    {
        match self {
            FileHandle::Zip(h) => h.read_at(data, cache, offset, buf),
            FileHandle::SevenZ { data: whole } => {
                let n = read_from(whole, offset, buf);
                Ok(ReadOutcome::Served(n))
            },
            FileHandle::Tar { offset: base, len } => {
                let dl = data.len();
                assert(*base + *len <= dl);
                let piece = vstd::slice::slice_subrange(data, *base, *base + *len);
                let n = read_from(piece, offset, buf);
                Ok(ReadOutcome::Served(n))
            },
        }
    }
}

/// A handle that holds a decrypted stream reads from that stream alone: the
/// bytes of the archive it is handed make no difference to what a read
/// returns, leaves in the buffer or does to the cache.
pub proof fn decrypted_reads_ignore_the_archive(
    h: &ZipHandle,
    data1: Seq<u8>,
    data2: Seq<u8>,
    before: ContentCache,
    after: ContentCache,
    offset: u64,
    buf: Seq<u8>,
    out: Seq<u8>,
)
    requires
        h@.decrypted is Some,
    ensures
        h.read_result(data1, before, offset, buf) == h.read_result(data2, before, offset, buf),
        h.read_effect(data1, before, after, offset, buf, out) == h.read_effect(data2, before, after, offset, buf, out),
{
}

/// A read of a stored, encrypted entry copies the decrypted bytes at the
/// offset: the `n` bytes asked for (no more than are left of the entry) are
/// the decrypted stream's bytes `offset .. offset + n`, at the front of the
/// buffer, the rest of the buffer untouched.
pub proof fn stored_encrypted_reads_are_plaintext(
    h: &ZipHandle,
    data: Seq<u8>,
    before: ContentCache,
    after: ContentCache,
    offset: u64,
    buf: Seq<u8>,
    out: Seq<u8>,
    n: int,
)
    requires
        h@.method == 0,
        h@.decrypted is Some,
        offset < h@.size,
        0 < n,
        n == (if buf.len() < h@.size - offset { buf.len() as int } else { h@.size - offset }),
        offset + n <= h@.decrypted->0.len(),
        h.read_effect(data, before, after, offset, buf, out),
    ensures
        h.read_result(data, before, offset, buf) == Ok::<ReadOutcome, EntryError>(ReadOutcome::Served(n as usize)),
        out.len() == buf.len(),
        out.take(n) == h@.decrypted->0.subrange(offset as int, offset + n),
        out.skip(n) == buf.skip(n),
        after == before,
{
    let d = h@.decrypted->0;
    assert(out == d.subrange(offset as int, offset + n) + buf.skip(n));
    assert(out.take(n) =~= d.subrange(offset as int, offset + n));
    assert(out.skip(n) =~= buf.skip(n));
}

/// A handle on a stored entry, as `open` makes it, reads what the entry
/// holds: the bytes a read at `offset` copies are the entry's contents, as
/// `read_zip_entry` returns them whole, at `offset` — decrypted where the
/// entry is encrypted.
pub proof fn stored_reads_agree_with_whole_reads(
    h: &ZipHandle,
    data: Seq<u8>,
    e: RawEntry,
    password: Option<Seq<u8>>,
    before: ContentCache,
    after: ContentCache,
    offset: u64,
    buf: Seq<u8>,
    out: Seq<u8>,
    n: int,
)
    requires
        actual_method(e) == 0,
        spec_compressed(data, e, password) is Ok,
        h@.method == 0,
        h@.decrypted == spec_compressed(data, e, password)->Ok_0.2,
        h@.data_off == spec_compressed(data, e, password)->Ok_0.0,
        h@.comp_size == spec_compressed(data, e, password)->Ok_0.1,
        spec_read_zip_entry(data, e, password) is Ok,
        offset < h@.size,
        0 < n,
        n == (if buf.len() < h@.size - offset { buf.len() as int } else { h@.size - offset }),
        offset + n <= spec_read_zip_entry(data, e, password)->Ok_0.len(),
        h.read_effect(data, before, after, offset, buf, out),
    ensures
        out.take(n) == spec_read_zip_entry(data, e, password)->Ok_0.subrange(offset as int, offset + n),
        out.skip(n) == buf.skip(n),
{
    let contents = spec_read_zip_entry(data, e, password)->Ok_0;
    let c = spec_compressed(data, e, password)->Ok_0;
    assert(comp_of(h@, data) == Ok::<Seq<u8>, EntryError>(contents));
    assert(out == contents.subrange(offset as int, offset + n) + buf.skip(n));
    assert(out.take(n) =~= contents.subrange(offset as int, offset + n));
    assert(out.skip(n) =~= buf.skip(n));
}

} // verus!
