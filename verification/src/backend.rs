//! What the backends do with an archive's bytes once they are in memory
//! (mapped, or expanded): describe the entries in a format-independent way,
//! find an entry's data, take its encryption off and decompress it.

use vstd::prelude::*;

use std::io::Read;

use flate2::read::MultiGzDecoder;

use crate::entry::EntryMeta;
use crate::names::{decode_name, spec_decode_name, NameEncoding};
use crate::secret::Secret;
use crate::tarfmt::{looks_like_tar, parse_tar, spec_looks_like_tar, spec_parse_tar, tar_views, TarEntry, TarEntryView, TarError};
use crate::zipcrypt::{decrypt_entry, CryptError};
use crate::zipfmt::{
    data_offset, spec_data_offset, spec_raw_is_dir, spec_raw_mtime, unix_time_in_range, RawEntry,
    ZipError, METHOD_DEFLATE, METHOD_STORED,
};

verus! {

// ---------------------------------------------------------------------------
// Entry descriptions
// ---------------------------------------------------------------------------

/// Whether a zip entry can be described: a name no longer than the format
/// allows, and a Unix time inside the range a FILETIME holds.
pub open spec fn describable(e: RawEntry) -> bool {
    &&& e.name_raw@.len() <= 0xFFFF
    &&& e.unix_mtime matches Some(unix) ==> unix_time_in_range(unix as int)
}

/// Whether a zip entry can be described (see `describable`).
pub fn is_describable(e: &RawEntry) -> (res: bool)
    ensures
        res == describable(*e),
{
    if e.name_raw.len() > 0xFFFF {
        return false;
    }
    match e.unix_mtime {
        Some(unix) => {
            let ticks: i128 = (unix as i128 + 11_644_473_600) * 10_000_000;
            ticks >= i64::MIN as i128 && ticks <= i64::MAX as i128
        },
        None => true,
    }
}

/// A zip entry described: its name decoded, whether it is a directory, its
/// size and modification time.
pub open spec fn zip_meta(e: RawEntry, encoding: NameEncoding) -> (Seq<char>, bool, u64, u64) {
    (
        spec_decode_name(
            e.name_raw@,
            match e.unicode_path {
                Some(p) => Some(p@),
                None => None,
            },
            e.flags & 2048 != 0,
            encoding,
        ),
        spec_raw_is_dir(e@),
        e.uncomp_size,
        spec_raw_mtime(e@),
    )
}

pub open spec fn meta_view(m: EntryMeta) -> (Seq<char>, bool, u64, u64) {
    (m.path@, m.is_dir, m.size, m.mtime)
}

/// The zip entries described, in order.
pub fn zip_entries_meta(entries: &Vec<RawEntry>, encoding: NameEncoding) -> (res: Vec<EntryMeta>)
    requires
        forall|i: int| 0 <= i < entries@.len() ==> describable(#[trigger] entries@[i]),
    ensures
        res@.len() == entries@.len(),
        forall|i: int|
            0 <= i < entries@.len() ==> meta_view(#[trigger] res@[i]) == zip_meta(entries@[i], encoding),
{
    let mut out: Vec<EntryMeta> = Vec::new();
    let mut i: usize = 0;
    while i < entries.len()
        invariant
            i <= entries@.len(),
            out@.len() == i,
            forall|j: int| 0 <= j < entries@.len() ==> describable(#[trigger] entries@[j]),
            forall|j: int| 0 <= j < i ==> meta_view(#[trigger] out@[j]) == zip_meta(entries@[j], encoding),
        decreases entries.len() - i,
    {
        let raw = &entries[i];
        assert(describable(entries@[i as int]));
        let path = decode_name(
            raw.name_raw.as_slice(),
            match &raw.unicode_path {
                Some(p) => Some(p.as_str()),
                None => None,
            },
            raw.has_utf8_flag(),
            encoding,
        );
        out.push(
            EntryMeta {
                path,
                is_dir: raw.is_dir(),
                size: raw.uncomp_size,
                mtime: raw.mtime_filetime(),
            },
        );
        i = i + 1;
    }
    out
}

/// The tar entries described, in order.
pub fn tar_entries_meta(entries: &Vec<TarEntry>) -> (res: Vec<EntryMeta>)
    ensures
        res@.len() == entries@.len(),
        forall|i: int|
            0 <= i < entries@.len() ==> meta_view(#[trigger] res@[i]) == (
                entries@[i].path@,
                entries@[i].is_dir,
                entries@[i].size,
                entries@[i].mtime,
            ),
{
    let mut out: Vec<EntryMeta> = Vec::new();
    let mut i: usize = 0;
    while i < entries.len()
        invariant
            i <= entries@.len(),
            out@.len() == i,
            forall|j: int|
                0 <= j < i ==> meta_view(#[trigger] out@[j]) == (
                    entries@[j].path@,
                    entries@[j].is_dir,
                    entries@[j].size,
                    entries@[j].mtime,
                ),
        decreases entries.len() - i,
    {
        let e = &entries[i];
        out.push(
            EntryMeta { path: e.path.clone(), is_dir: e.is_dir, size: e.size, mtime: e.mtime },
        );
        i = i + 1;
    }
    out
}

/// How many zip entries are encrypted.
pub open spec fn count_encrypted(entries: Seq<RawEntry>) -> nat
    decreases entries.len(),
{
    if entries.len() == 0 {
        0
    } else {
        count_encrypted(entries.drop_last()) + if entries.last().flags & 1 != 0 {
            1nat
        } else {
            0nat
        }
    }
}

pub fn encrypted_entry_count(entries: &Vec<RawEntry>) -> (res: usize)
    ensures
        res == count_encrypted(entries@),
{
    let mut n: usize = 0;
    let mut i: usize = 0;
    while i < entries.len()
        invariant
            i <= entries@.len(),
            n == count_encrypted(entries@.take(i as int)),
            n <= i,
        decreases entries.len() - i,
    {
        proof {
            assert(entries@.take(i + 1).drop_last() =~= entries@.take(i as int));
        }
        if entries[i].is_encrypted() {
            n = n + 1;
        }
        i = i + 1;
    }
    assert(entries@.take(i as int) =~= entries@);
    n
}

// ---------------------------------------------------------------------------
// Where an entry's data lies
// ---------------------------------------------------------------------------

/// Why an entry's contents could not be had.
#[derive(Debug, Clone, Copy, PartialEq, Eq, Structural)]
pub enum EntryError {
    /// An offset or size larger than memory addresses.
    TooLarge,
    /// The entry's data reaches past the end of the archive.
    OutOfBounds,
    /// The zip structure around the entry is broken.
    Zip(ZipError),
    /// The entry could not be decrypted.
    Crypt(CryptError),
    /// A compression method other than stored and deflate.
    Method(u16),
    /// The deflate data is damaged, or expands to more than the stated size.
    Deflate(InflateFailure),
}

/// Where a tar entry's data lies in the stream: start and length.
pub open spec fn spec_tar_range(e: TarEntry, data_len: nat) -> Result<(usize, usize), EntryError> {
    if e.data_offset > usize::MAX || e.size > usize::MAX {
        Err(EntryError::TooLarge)
    } else if e.data_offset + e.size > data_len {
        Err(EntryError::OutOfBounds)
    } else {
        Ok((e.data_offset as usize, e.size as usize))
    }
}

pub fn tar_entry_range(e: &TarEntry, data_len: usize) -> (res: Result<(usize, usize), EntryError>)
    ensures
        res == spec_tar_range(*e, data_len as nat),
{
    if e.data_offset > usize::MAX as u64 || e.size > usize::MAX as u64 {
        return Err(EntryError::TooLarge);
    }
    let start = e.data_offset as usize;
    let len = e.size as usize;
    if start > data_len || len > data_len - start {
        return Err(EntryError::OutOfBounds);
    }
    Ok((start, len))
}

/// Where a zip entry's compressed data lies in the archive: after its local
/// header, as long as the central directory says.
pub open spec fn spec_zip_range(data: Seq<u8>, e: RawEntry) -> Result<(usize, usize), EntryError> {
    match spec_data_offset(data, e.local_header_offset as int) {
        Err(z) => Err(EntryError::Zip(z)),
        Ok(off) => if off > usize::MAX || e.comp_size > usize::MAX {
            Err(EntryError::TooLarge)
        } else if off + e.comp_size > data.len() {
            Err(EntryError::OutOfBounds)
        } else {
            Ok((off as usize, e.comp_size as usize))
        },
    }
}

pub fn zip_entry_range(data: &[u8], e: &RawEntry) -> (res: Result<(usize, usize), EntryError>)
    ensures
        res == spec_zip_range(data@, *e),
{
    let off = match data_offset(data, e.local_header_offset) {
        Ok(o) => o,
        Err(z) => return Err(EntryError::Zip(z)),
    };
    if off > usize::MAX as u64 || e.comp_size > usize::MAX as u64 {
        return Err(EntryError::TooLarge);
    }
    let start = off as usize;
    let len = e.comp_size as usize;
    if start > data.len() || len > data.len() - start {
        return Err(EntryError::OutOfBounds);
    }
    Ok((start, len))
}

/// A zip entry's compressed bytes: where they lie, and, for an encrypted
/// entry, the same bytes decrypted (a read-only mapping has nowhere to hold
/// them). An unencrypted entry is read straight from the range.
pub struct ZipBytes {
    pub start: usize,
    pub len: usize,
    pub decrypted: Option<Vec<u8>>,
}

/// What `compressed_bytes` gives: the range, and the decryption of the bytes
/// in it for an encrypted entry.
pub open spec fn spec_compressed(data: Seq<u8>, e: RawEntry, password: Option<Seq<u8>>) -> Result<
    (usize, usize, Option<Seq<u8>>),
    EntryError,
> {
    match spec_zip_range(data, e) {
        Err(err) => Err(err),
        Ok((start, len)) => if e.flags & 1 != 0 {
            match crate::zipcrypt::spec_decrypt_entry(
                data.subrange(start as int, start + len),
                e,
                password,
            ) {
                Ok(plain) => Ok((start, len, Some(plain))),
                Err(c) => Err(EntryError::Crypt(c)),
            }
        } else {
            Ok((start, len, None))
        },
    }
}

/// A password as bytes.
pub open spec fn secret_view(password: Option<&Secret>) -> Option<Seq<u8>> {
    match password {
        Some(p) => Some(p@),
        None => None,
    }
}

pub open spec fn zip_bytes_view(b: ZipBytes) -> (usize, usize, Option<Seq<u8>>) {
    (
        b.start,
        b.len,
        match b.decrypted {
            Some(v) => Some(v@),
            None => None,
        },
    )
}

pub fn compressed_bytes(data: &[u8], e: &RawEntry, password: Option<&Secret>) -> (res: Result<
    ZipBytes,
    EntryError,
>)
    ensures
        match res {
            Ok(b) => spec_compressed(data@, *e, secret_view(password)) == Ok::<
                (usize, usize, Option<Seq<u8>>),
                EntryError,
            >(zip_bytes_view(b)),
            Err(err) => spec_compressed(data@, *e, secret_view(password)) == Err::<
                (usize, usize, Option<Seq<u8>>),
                EntryError,
            >(err),
        },
{
    let (start, len) = match zip_entry_range(data, e) {
        Ok(r) => r,
        Err(err) => return Err(err),
    };
    if e.is_encrypted() {
        let dl = data.len();
        assert(start + len <= dl);
        let raw = &data[start..start + len];
        assert(raw@ == data@.subrange(start as int, start + len));
        match decrypt_entry(raw, e, password) {
            Ok(plain) => Ok(ZipBytes { start, len, decrypted: Some(plain) }),
            Err(c) => Err(EntryError::Crypt(c)),
        }
    } else {
        Ok(ZipBytes { start, len, decrypted: None })
    }
}

// ---------------------------------------------------------------------------
// Decompression
// ---------------------------------------------------------------------------

/// Why libdeflate stopped.
#[derive(Debug, Clone, Copy, PartialEq, Eq, Structural)]
pub enum InflateFailure {
    /// The data is not valid deflate.
    BadData,
    /// The data expands to more than the room given.
    InsufficientSpace,
}

/// What libdeflate's raw deflate decoder makes of `comp` given `room` bytes
/// of output: the bytes it wrote, or why it stopped.
pub uninterp spec fn deflate_output(comp: Seq<u8>, room: nat) -> Result<Seq<u8>, InflateFailure>;

/// `libdeflater::Decompressor::deflate_decompress` into a buffer of `room`
/// bytes: the bytes written (never more than `room`), or the decoder's error.
#[verifier::external_body]
fn deflate_into(comp: &[u8], room: usize) -> (res: Result<Vec<u8>, InflateFailure>)
    ensures
        match res {
            Ok(v) => deflate_output(comp@, room as nat) == Ok::<Seq<u8>, InflateFailure>(v@)
                && v@.len() <= room,
            Err(e) => deflate_output(comp@, room as nat) == Err::<Seq<u8>, InflateFailure>(e),
        },
{
    let mut out = vec![0u8; room];
    let mut dec = libdeflater::Decompressor::new();
    match dec.deflate_decompress(comp, &mut out) {
        Ok(written) => {
            out.truncate(written);
            Ok(out)
        },
        Err(libdeflater::DecompressionError::BadData) => Err(InflateFailure::BadData),
        Err(libdeflater::DecompressionError::InsufficientSpace) => Err(
            InflateFailure::InsufficientSpace,
        ),
    }
}

/// Decompression into a buffer of the entry's stated size: libdeflate is
/// noticeably faster than a streaming decoder, so it is used wherever the
/// size is known.
pub open spec fn spec_inflate_exact(comp: Seq<u8>, size: u64) -> Result<Seq<u8>, EntryError> {
    if size == 0 {
        Ok(Seq::empty())
    } else if size > usize::MAX {
        Err(EntryError::TooLarge)
    } else {
        match deflate_output(comp, size as nat) {
            Ok(out) => Ok(out),
            Err(f) => Err(EntryError::Deflate(f)),
        }
    }
}

pub open spec fn entry_bytes_result(res: Result<Vec<u8>, EntryError>) -> Result<Seq<u8>, EntryError> {
    match res {
        Ok(v) => Ok(v@),
        Err(e) => Err(e),
    }
}

pub fn inflate_exact(comp: &[u8], size: u64) -> (res: Result<Vec<u8>, EntryError>)
    ensures
        entry_bytes_result(res) == spec_inflate_exact(comp@, size),
{
    if size == 0 {
        return Ok(Vec::new());
    }
    if size > usize::MAX as u64 {
        return Err(EntryError::TooLarge);
    }
    match deflate_into(comp, size as usize) {
        Ok(out) => Ok(out),
        Err(f) => Err(EntryError::Deflate(f)),
    }
}

/// The whole contents of a zip entry: decrypted if it was encrypted, then
/// stored bytes as they are, deflate data expanded.
pub open spec fn spec_read_zip_entry(data: Seq<u8>, e: RawEntry, password: Option<Seq<u8>>) -> Result<
    Seq<u8>,
    EntryError,
> {
    match spec_compressed(data, e, password) {
        Err(err) => Err(err),
        Ok((start, len, plain)) => {
            let comp = match plain {
                Some(p) => p,
                None => data.subrange(start as int, start + len),
            };
            let method = match e.aes {
                Some(info) => info.actual_method,
                None => e.method,
            };
            if method == 0 {
                Ok(comp)
            } else if method == 8 {
                spec_inflate_exact(comp, e.uncomp_size)
            } else {
                Err(EntryError::Method(method))
            }
        },
    }
}

/// A WinZip AES entry is read by the method in its extra field, not by the
/// placeholder in its main header: it reads exactly as the same record with
/// that method in the header would, and where that method is stored or
/// deflate no "unknown method" comes of it.
pub proof fn aes_entries_read_by_their_actual_method(data: Seq<u8>, e: RawEntry, password: Option<Seq<u8>>)
    requires
        e.aes is Some,
    ensures
        spec_read_zip_entry(data, e, password) == spec_read_zip_entry(
            data,
            RawEntry { method: e.aes->0.actual_method, ..e },
            password,
        ),
        e.aes->0.actual_method == 0 || e.aes->0.actual_method == 8 ==> !(spec_read_zip_entry(
            data,
            e,
            password,
        ) is Err && spec_read_zip_entry(data, e, password)->Err_0 is Method),
{
    let f = RawEntry { method: e.aes->0.actual_method, ..e };
    assert(spec_zip_range(data, f) == spec_zip_range(data, e));
    assert(spec_compressed(data, f, password) == spec_compressed(data, e, password));
}

/// The size an entry is listed with is the size its contents expand to: a
/// deflated entry is read as its compressed stream inflated into exactly
/// the listed number of bytes.
pub proof fn listed_size_is_the_expanded_size(
    data: Seq<u8>,
    e: RawEntry,
    password: Option<Seq<u8>>,
    encoding: NameEncoding,
)
    requires
        (match e.aes {
            Some(info) => info.actual_method,
            None => e.method,
        }) == 8,
        spec_compressed(data, e, password) is Ok,
    ensures
        spec_read_zip_entry(data, e, password) == spec_inflate_exact(
            match spec_compressed(data, e, password)->Ok_0.2 {
                Some(p) => p,
                None => data.subrange(
                    spec_compressed(data, e, password)->Ok_0.0 as int,
                    spec_compressed(data, e, password)->Ok_0.0 + spec_compressed(data, e, password)->Ok_0.1,
                ),
            },
            zip_meta(e, encoding).2,
        ),
{
}

pub fn read_zip_entry(data: &[u8], e: &RawEntry, password: Option<&Secret>) -> (res: Result<
    Vec<u8>,
    EntryError,
>)
    ensures
        entry_bytes_result(res) == spec_read_zip_entry(data@, *e, secret_view(password)),
{
    let bytes = match compressed_bytes(data, e, password) {
        Ok(b) => b,
        Err(err) => return Err(err),
    };
    let dl = data.len();
    assert(bytes.start + bytes.len <= dl);
    let comp = match bytes.decrypted {
        Some(p) => p,
        None => vstd::slice::slice_to_vec(&data[bytes.start..bytes.start + bytes.len]),
    };
    let method = e.effective_method();
    if method == METHOD_STORED {
        Ok(comp)
    } else if method == METHOD_DEFLATE {
        inflate_exact(comp.as_slice(), e.uncomp_size)
    } else {
        Err(EntryError::Method(method))
    }
}

// ---------------------------------------------------------------------------
// Expanding a tar.gz
// ---------------------------------------------------------------------------

#[verifier::external_type_specification]
#[verifier::external_body]
pub struct ExIoError(std::io::Error);

/// What `flate2::read::MultiGzDecoder` makes of a whole gzip stream (all its
/// members, each checked against its CRC32): the expanded bytes, or `None`
/// where the stream is damaged.
pub uninterp spec fn gzip_expansion(comp: Seq<u8>) -> Option<Seq<u8>>;

/// `MultiGzDecoder` over `comp`, read to the end through `Read::take(limit)`:
/// at most `limit` expanded bytes, which begin the expansion where the
/// stream is sound. Fewer than `limit` means the stream ended there, so they
/// are its whole expansion; an error means it is damaged.
#[verifier::external_body]
fn gunzip_at_most(comp: &[u8], limit: u64) -> (res: Result<Vec<u8>, std::io::Error>)
    ensures
        match res {
            Ok(v) => {
                &&& v@.len() <= limit
                &&& v@.len() < limit ==> gzip_expansion(comp@) == Some(v@)
                &&& gzip_expansion(comp@) matches Some(e) ==> v@.len() <= e.len() && v@ == e.take(v@.len() as int)
            },
            Err(_) => gzip_expansion(comp@) is None,
        },
{
    let mut out = Vec::new();
    match MultiGzDecoder::new(comp).take(limit).read_to_end(&mut out) {
        Ok(_) => Ok(out),
        Err(e) => Err(e),
    }
}

/// Why a gzip stream could not be expanded.
pub enum GzipError {
    /// The stream is damaged: a bad header or a CRC mismatch, say.
    Damaged(std::io::Error),
    /// It expands to more than the memory budget.
    TooLarge,
}

/// Expands a gzip stream in full, within `budget` bytes: the expansion, or
/// why not. `MultiGzDecoder` checks the CRC32 of every member on the way, so
/// a successful expansion doubles as an integrity check.
pub fn gunzip_bounded(comp: &[u8], budget: usize) -> (res: Result<Vec<u8>, GzipError>)
    requires
        budget < u64::MAX,
    ensures
        match res {
            Ok(v) => gzip_expansion(comp@) == Some(v@) && v@.len() <= budget,
            Err(GzipError::Damaged(_)) => gzip_expansion(comp@) is None,
            Err(GzipError::TooLarge) => gzip_expansion(comp@) is None || gzip_expansion(comp@)->0.len()
                > budget,
        },
{
    let limit: u64 = budget as u64 + 1;
    match gunzip_at_most(comp, limit) {
        Ok(v) => {
            if v.len() > budget {
                Err(GzipError::TooLarge)
            } else {
                Ok(v)
            }
        },
        Err(e) => Err(GzipError::Damaged(e)),
    }
}

/// Why a `.tar.gz` could not be opened.
pub enum TarGzError {
    Gzip(GzipError),
    /// The gzip holds something other than a tar.
    NotTar,
    Tar(TarError),
}

/// Opens a `.tar.gz`: one compressed stream with no entry points, so it is
/// expanded once, in full (within `budget` bytes), and read as a tar from
/// then on. Returns the expanded stream and its entries.
pub fn open_targz(comp: &[u8], budget: usize) -> (res: Result<(Vec<u8>, Vec<TarEntry>), TarGzError>)
    requires
        budget < u64::MAX,
    ensures
        match res {
            Ok((data, entries)) => {
                &&& gzip_expansion(comp@) == Some(data@)
                &&& data@.len() <= budget
                &&& spec_looks_like_tar(data@)
                &&& spec_parse_tar(data@) == Ok::<Seq<TarEntryView>, TarError>(tar_views(entries@))
            },
            Err(TarGzError::Gzip(GzipError::Damaged(_))) => gzip_expansion(comp@) is None,
            Err(TarGzError::Gzip(GzipError::TooLarge)) => gzip_expansion(comp@) is None
                || gzip_expansion(comp@)->0.len() > budget,
            Err(TarGzError::NotTar) => gzip_expansion(comp@) matches Some(d) && d.len() <= budget
                && !spec_looks_like_tar(d),
            Err(TarGzError::Tar(e)) => gzip_expansion(comp@) matches Some(d) && d.len() <= budget
                && spec_looks_like_tar(d) && spec_parse_tar(d) == Err::<Seq<TarEntryView>, TarError>(e),
        },
{
    let data = match gunzip_bounded(comp, budget) {
        Ok(d) => d,
        Err(e) => return Err(TarGzError::Gzip(e)),
    };
    if !looks_like_tar(data.as_slice()) {
        return Err(TarGzError::NotTar);
    }
    match parse_tar(data.as_slice()) {
        Ok(entries) => Ok((data, entries)),
        Err(e) => Err(TarGzError::Tar(e)),
    }
}

} // verus!
