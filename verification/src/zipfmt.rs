//! Parsing ZIP structures: EOCD, zip64 and the central directory.
//!
//! The parser is our own on purpose rather than a zip library: we need raw
//! local header offsets, full control over name encodings, and access to the
//! extra fields (zip64, NTFS times, Info-ZIP Unicode Path).

use vstd::prelude::*;
use vstd::utf8::{decode_utf8, valid_utf8};

use crate::crc::spec_crc32;
use crate::text::utf8_to_string;

verus! {

pub const SIG_EOCD: u32 = 0x0605_4b50;
pub const SIG_EOCD64_LOCATOR: u32 = 0x0706_4b50;
pub const SIG_EOCD64: u32 = 0x0606_4b50;
pub const SIG_CENTRAL: u32 = 0x0201_4b50;
pub const SIG_LOCAL: u32 = 0x0403_4b50;

pub const METHOD_STORED: u16 = 0;
pub const METHOD_DEFLATE: u16 = 8;

pub const FLAG_ENCRYPTED: u16 = 1;
pub const FLAG_UTF8: u16 = 2048;

/// The fixed part of a central directory file header.
pub const CENTRAL_HEADER_LEN: usize = 46;
/// The fixed part of a local file header.
pub const LOCAL_HEADER_LEN: u64 = 30;
/// Minimum EOCD size without a comment.
pub const EOCD_MIN: usize = 22;
/// The longest comment an EOCD can carry.
pub const MAX_COMMENT: usize = 0xFFFF;

/// Why a zip structure could not be read.
#[derive(Debug, Clone, Copy, PartialEq, Eq, Structural)]
pub enum ZipError {
    /// A little-endian field of `width` bytes at `offset` runs past the end of
    /// the buffer.
    ReadPastEnd { width: u8, offset: usize },
    /// The file is shorter than the smallest possible EOCD.
    TooSmall { size: usize },
    /// No end-of-central-directory record was found.
    NoEocd,
    /// A field says "see zip64", but there is no zip64 record.
    Zip64Missing,
    /// An offset or size does not fit in `usize`.
    OffsetTooLarge,
    /// The central directory reaches outside the file.
    CdOutOfBounds,
    /// No local file header signature at the offset the central directory gives.
    BadLocalHeader { offset: usize },
}

/// A little-endian 16-bit number at `off`.
pub open spec fn le16(s: Seq<u8>, off: int) -> int {
    s[off] as int + 256 * s[off + 1] as int
}

/// A little-endian 32-bit number at `off`.
pub open spec fn le32(s: Seq<u8>, off: int) -> int {
    le16(s, off) + 65536 * le16(s, off + 2)
}

/// A little-endian 64-bit number at `off`.
pub open spec fn le64(s: Seq<u8>, off: int) -> int {
    le32(s, off) + 0x1_0000_0000 * le32(s, off + 4)
}

/// Whether a field of `width` bytes at `off` lies inside `s`.
pub open spec fn fits(s: Seq<u8>, off: int, width: int) -> bool {
    0 <= off && off + width <= s.len()
}

/// The error for a field at `off`; an offset beyond `usize` is reported as
/// `usize::MAX`.
pub open spec fn read_past_end(width: u8, off: int) -> ZipError {
    ZipError::ReadPastEnd {
        width,
        offset: if off <= usize::MAX {
            off as usize
        } else {
            usize::MAX
        },
    }
}

pub fn rd_u16(buf: &[u8], off: usize) -> (res: Result<u16, ZipError>)
    ensures
        match res {
            Ok(v) => fits(buf@, off as int, 2) && v == le16(buf@, off as int),
            Err(e) => !fits(buf@, off as int, 2) && e == read_past_end(2, off as int),
        },
{
    if off > buf.len() || buf.len() - off < 2 {
        return Err(ZipError::ReadPastEnd { width: 2, offset: off });
    }
    Ok(buf[off] as u16 + (buf[off + 1] as u16) * 256)
}

pub fn rd_u32(buf: &[u8], off: usize) -> (res: Result<u32, ZipError>)
    ensures
        match res {
            Ok(v) => fits(buf@, off as int, 4) && v == le32(buf@, off as int),
            Err(e) => !fits(buf@, off as int, 4) && e == read_past_end(4, off as int),
        },
{
    if off > buf.len() || buf.len() - off < 4 {
        return Err(ZipError::ReadPastEnd { width: 4, offset: off });
    }
    let lo = buf[off] as u32 + (buf[off + 1] as u32) * 256;
    let hi = buf[off + 2] as u32 + (buf[off + 3] as u32) * 256;
    Ok(lo + hi * 65536)
}

pub fn rd_u64(buf: &[u8], off: usize) -> (res: Result<u64, ZipError>)
    ensures
        match res {
            Ok(v) => fits(buf@, off as int, 8) && v == le64(buf@, off as int),
            Err(e) => !fits(buf@, off as int, 8) && e == read_past_end(8, off as int),
        },
{
    if off > buf.len() || buf.len() - off < 8 {
        return Err(ZipError::ReadPastEnd { width: 8, offset: off });
    }
    let b0 = buf[off] as u64 + (buf[off + 1] as u64) * 256;
    let b1 = buf[off + 2] as u64 + (buf[off + 3] as u64) * 256;
    let b2 = buf[off + 4] as u64 + (buf[off + 5] as u64) * 256;
    let b3 = buf[off + 6] as u64 + (buf[off + 7] as u64) * 256;
    let lo = b0 + b1 * 65536;
    let hi = b2 + b3 * 65536;
    Ok(lo + hi * 0x1_0000_0000)
}

/// An EOCD record stands at `i`: the signature is there, and the comment
/// length it declares reaches exactly to the end of the file.
pub open spec fn is_eocd_at(s: Seq<u8>, i: int) -> bool {
    &&& 0 <= i
    &&& i + EOCD_MIN <= s.len()
    &&& le32(s, i) == SIG_EOCD
    &&& i + EOCD_MIN + le16(s, i + 20) == s.len()
}

/// The lowest offset an EOCD can start at: a maximal comment follows it.
pub open spec fn eocd_scan_start(len: int) -> int {
    if len > EOCD_MIN + MAX_COMMENT {
        len - (EOCD_MIN + MAX_COMMENT)
    } else {
        0
    }
}

/// The last EOCD at or below `i`, down to `start`.
pub open spec fn last_eocd(s: Seq<u8>, i: int, start: int) -> Option<int>
    decreases i - start + 1,
{
    if i < start {
        None
    } else if is_eocd_at(s, i) {
        Some(i)
    } else {
        last_eocd(s, i - 1, start)
    }
}

pub open spec fn spec_find_eocd(s: Seq<u8>) -> Result<usize, ZipError> {
    if s.len() < EOCD_MIN {
        Err(ZipError::TooSmall { size: s.len() as usize })
    } else {
        match last_eocd(s, s.len() - EOCD_MIN, eocd_scan_start(s.len() as int)) {
            Some(i) => Ok(i as usize),
            None => Err(ZipError::NoEocd),
        }
    }
}

/// What `last_eocd` finds is the highest EOCD position in the window, and
/// when it finds nothing there is none.
pub proof fn lemma_last_eocd(s: Seq<u8>, i: int, start: int)
    requires
        0 <= start,
    ensures
        match last_eocd(s, i, start) {
            Some(k) => start <= k <= i && is_eocd_at(s, k) && forall|j: int|
                k < j <= i ==> !is_eocd_at(s, j),
            None => forall|j: int| start <= j <= i ==> !is_eocd_at(s, j),
        },
    decreases i - start + 1,
{
    if i >= start && !is_eocd_at(s, i) {
        lemma_last_eocd(s, i - 1, start);
    }
}

/// Finds the EOCD from the end of the file: the last offset within reach of a
/// maximal comment at which the signature stands and the comment length
/// reaches exactly to the end of the file. A stray signature inside a comment
/// or compressed data is not taken for it.
pub fn find_eocd(buf: &[u8]) -> (res: Result<usize, ZipError>)
    ensures
        res == spec_find_eocd(buf@),
        res matches Ok(i) ==> is_eocd_at(buf@, i as int) && eocd_scan_start(buf@.len() as int)
            <= i && forall|j: int| i < j ==> !is_eocd_at(buf@, j),
        res matches Err(ZipError::NoEocd) ==> forall|j: int|
            eocd_scan_start(buf@.len() as int) <= j ==> !is_eocd_at(buf@, j),
{
    let len = buf.len();
    if len < EOCD_MIN {
        return Err(ZipError::TooSmall { size: len });
    }
    proof {
        lemma_last_eocd(buf@, len - EOCD_MIN, eocd_scan_start(len as int));
    }
    let scan_start = if len > EOCD_MIN + MAX_COMMENT {
        len - (EOCD_MIN + MAX_COMMENT)
    } else {
        0
    };
    let mut i = len - EOCD_MIN;
    loop
        invariant
            len == buf@.len(),
            len >= EOCD_MIN,
            scan_start == eocd_scan_start(len as int),
            scan_start <= i <= len - EOCD_MIN,
            last_eocd(buf@, len - EOCD_MIN, scan_start as int) == last_eocd(
                buf@,
                i as int,
                scan_start as int,
            ),
        decreases i,
    {
        let sig = match rd_u32(buf, i) {
            Ok(v) => v,
            Err(_) => 0,
        };
        if sig == SIG_EOCD {
            let comment_len = match rd_u16(buf, i + 20) {
                Ok(v) => v,
                Err(_) => 0,
            } as usize;
            if comment_len == len - i - EOCD_MIN {
                proof {
                    lemma_last_eocd(buf@, len - EOCD_MIN, scan_start as int);
                    assert(is_eocd_at(buf@, i as int));
                    assert forall|j: int| i < j implies !is_eocd_at(buf@, j) by {
                        if j <= len - EOCD_MIN {
                        }
                    }
                }
                return Ok(i);
            }
        }
        if i == scan_start {
            assert(last_eocd(buf@, i - 1, scan_start as int) == None::<int>);
            proof {
                lemma_last_eocd(buf@, len - EOCD_MIN, scan_start as int);
            }
            assert forall|j: int| scan_start <= j implies !is_eocd_at(buf@, j) by {
                if j <= len - EOCD_MIN {
                }
            }
            return Err(ZipError::NoEocd);
        }
        i = i - 1;
    }
}


/// Where the central directory lies. Values are already taken from zip64, if
/// there was one.
#[derive(Debug, Clone, Copy, PartialEq, Eq, Structural)]
pub struct CdLocation {
    pub offset: u64,
    pub size: u64,
    pub entries: u64,
}

/// The central directory location an EOCD at `eocd` describes, following the
/// zip64 locator right before it where there is one.
pub open spec fn spec_cd_location(s: Seq<u8>, eocd: int) -> Result<CdLocation, ZipError> {
    let entries = le16(s, eocd + 10);
    let size = le32(s, eocd + 12);
    let offset = le32(s, eocd + 16);
    // Any field at its maximum means the real value is in zip64.
    let needs_zip64 = entries == 0xFFFF || size == 0xFFFF_FFFF || offset == 0xFFFF_FFFF;
    let plain = CdLocation { offset: offset as u64, size: size as u64, entries: entries as u64 };
    let loc = eocd - 20;
    if eocd >= 20 && le32(s, loc) == SIG_EOCD64_LOCATOR {
        let z = le64(s, loc + 8);
        if z > usize::MAX {
            Err(ZipError::OffsetTooLarge)
        } else if fits(s, z, 4) && le32(s, z) == SIG_EOCD64 {
            if !fits(s, z + 32, 8) {
                Err(read_past_end(8, z + 32))
            } else if !fits(s, z + 40, 8) {
                Err(read_past_end(8, z + 40))
            } else if !fits(s, z + 48, 8) {
                Err(read_past_end(8, z + 48))
            } else {
                Ok(
                    CdLocation {
                        offset: le64(s, z + 48) as u64,
                        size: le64(s, z + 40) as u64,
                        entries: le64(s, z + 32) as u64,
                    },
                )
            }
        } else if needs_zip64 {
            Err(ZipError::Zip64Missing)
        } else {
            Ok(plain)
        }
    } else if needs_zip64 {
        Err(ZipError::Zip64Missing)
    } else {
        Ok(plain)
    }
}

pub open spec fn spec_locate_central_directory(s: Seq<u8>) -> Result<CdLocation, ZipError> {
    match spec_find_eocd(s) {
        Ok(eocd) => spec_cd_location(s, eocd as int),
        Err(e) => Err(e),
    }
}

/// A zip64 archive is read through its zip64 record: where the EOCD is
/// preceded by a zip64 locator whose eight bytes at its offset 8 (12 bytes
/// before the EOCD) point at a zip64 EOCD record lying whole in the file,
/// the central directory's entry count, size and offset are that record's
/// (at its offsets 32, 40 and 48), whatever the EOCD's own fields say.
pub proof fn zip64_record_is_followed(s: Seq<u8>, eocd: usize)
    requires
        s.len() <= usize::MAX,
        spec_find_eocd(s) == Ok::<usize, ZipError>(eocd),
        eocd >= 20,
        le32(s, eocd - 20) == SIG_EOCD64_LOCATOR,
        0 <= le64(s, eocd - 12),
        le64(s, eocd - 12) + 56 <= s.len(),
        le32(s, le64(s, eocd - 12)) == SIG_EOCD64,
    ensures
        spec_locate_central_directory(s) == Ok::<CdLocation, ZipError>(
            CdLocation {
                entries: le64(s, le64(s, eocd - 12) + 32) as u64,
                size: le64(s, le64(s, eocd - 12) + 40) as u64,
                offset: le64(s, le64(s, eocd - 12) + 48) as u64,
            },
        ),
{
    let loc = eocd - 20;
    let z = le64(s, eocd - 12);
    assert(loc + 8 == eocd - 12);
    assert(le64(s, loc + 8) == z);
    assert(z <= usize::MAX);
    assert(fits(s, z, 4) && fits(s, z + 32, 8) && fits(s, z + 40, 8) && fits(s, z + 48, 8));
    assert(spec_cd_location(s, eocd as int) == Ok::<CdLocation, ZipError>(
        CdLocation { offset: le64(s, z + 48) as u64, size: le64(s, z + 40) as u64, entries: le64(s, z + 32) as u64 },
    ));
}

/// Locates the central directory, following zip64 where needed.
pub fn locate_central_directory(buf: &[u8]) -> (res: Result<CdLocation, ZipError>)
    ensures
        res == spec_locate_central_directory(buf@),
{
    let eocd = match find_eocd(buf) {
        Ok(i) => i,
        Err(e) => return Err(e),
    };
    assert(is_eocd_at(buf@, eocd as int));
    assert(eocd + EOCD_MIN <= buf.len());
    let entries16 = match rd_u16(buf, eocd + 10) {
        Ok(v) => v,
        Err(e) => return Err(e),
    };
    let size32 = match rd_u32(buf, eocd + 12) {
        Ok(v) => v,
        Err(e) => return Err(e),
    };
    let offset32 = match rd_u32(buf, eocd + 16) {
        Ok(v) => v,
        Err(e) => return Err(e),
    };
    let needs_zip64 = entries16 == 0xFFFF || size32 == 0xFFFF_FFFF || offset32 == 0xFFFF_FFFF;
    let plain = CdLocation { offset: offset32 as u64, size: size32 as u64, entries: entries16 as u64 };
    if eocd >= 20 {
        let loc = eocd - 20;
        let sig = match rd_u32(buf, loc) {
            Ok(v) => v,
            Err(_) => 0,
        };
        if sig == SIG_EOCD64_LOCATOR {
            let z64 = match rd_u64(buf, loc + 8) {
                Ok(v) => v,
                Err(e) => return Err(e),
            };
            if z64 > usize::MAX as u64 {
                return Err(ZipError::OffsetTooLarge);
            }
            let z64_off = z64 as usize;
            let sig64 = match rd_u32(buf, z64_off) {
                Ok(v) => v,
                Err(_) => 0,
            };
            if sig64 == SIG_EOCD64 {
                return zip64_location(buf, z64_off);
            }
        }
    }
    if needs_zip64 {
        return Err(ZipError::Zip64Missing);
    }
    Ok(plain)
}

/// The three values of a zip64 EOCD record at `z`.
fn zip64_location(buf: &[u8], z: usize) -> (res: Result<CdLocation, ZipError>)
    requires
        fits(buf@, z as int, 4),
    ensures
        res == (if !fits(buf@, z + 32, 8) {
            Err(read_past_end(8, z + 32))
        } else if !fits(buf@, z + 40, 8) {
            Err(read_past_end(8, z + 40))
        } else if !fits(buf@, z + 48, 8) {
            Err(read_past_end(8, z + 48))
        } else {
            Ok(
                CdLocation {
                    offset: le64(buf@, z + 48) as u64,
                    size: le64(buf@, z + 40) as u64,
                    entries: le64(buf@, z + 32) as u64,
                },
            )
        }),
{
    let len = buf.len();
    if len - z < 40 {
        let at = if z <= usize::MAX - 32 {
            z + 32
        } else {
            usize::MAX
        };
        return Err(ZipError::ReadPastEnd { width: 8, offset: at });
    }
    let entries = match rd_u64(buf, z + 32) {
        Ok(v) => v,
        Err(e) => return Err(e),
    };
    if len - z < 48 {
        return Err(ZipError::ReadPastEnd { width: 8, offset: z + 40 });
    }
    let size = match rd_u64(buf, z + 40) {
        Ok(v) => v,
        Err(e) => return Err(e),
    };
    if len - z < 56 {
        return Err(ZipError::ReadPastEnd { width: 8, offset: z + 48 });
    }
    let offset = match rd_u64(buf, z + 48) {
        Ok(v) => v,
        Err(e) => return Err(e),
    };
    Ok(CdLocation { offset, size, entries })
}


/// WinZip AES encryption details from extra field 0x9901.
///
/// Such an entry has 99 as its main compression method, and the real one
/// lies here: without parsing this field the entry looks like "unknown
/// compression method".
#[derive(Debug, Clone, Copy, PartialEq, Eq, Structural)]
pub struct AesInfo {
    pub vendor_version: u16,
    /// 1 = AES-128, 2 = AES-192, 3 = AES-256.
    pub strength: u8,
    /// The compression method applied before encryption.
    pub actual_method: u16,
}

/// A central directory entry in raw form: the name is not decoded yet,
/// because the encoding is chosen a level up (see the `names` module).
#[derive(Debug)]
pub struct RawEntry {
    pub name_raw: Vec<u8>,
    /// The name from the Info-ZIP Unicode Path Extra Field (0x7075), if there
    /// is one and its CRC matches the raw name.
    pub unicode_path: Option<String>,
    pub flags: u16,
    pub method: u16,
    pub crc32: u32,
    pub comp_size: u64,
    pub uncomp_size: u64,
    pub local_header_offset: u64,
    pub dos_time: u16,
    pub dos_date: u16,
    /// FILETIME from the NTFS extra field (0x000A) — more precise than DOS time.
    pub ntfs_mtime: Option<u64>,
    /// Unix time from the extended timestamp (0x5455).
    pub unix_mtime: Option<i64>,
    pub external_attrs: u32,
    pub host_system: u8,
    /// Set only for WinZip AES entries.
    pub aes: Option<AesInfo>,
}

/// A `RawEntry` as a mathematical value.
pub ghost struct RawEntryView {
    pub name_raw: Seq<u8>,
    pub unicode_path: Option<Seq<char>>,
    pub flags: u16,
    pub method: u16,
    pub crc32: u32,
    pub comp_size: u64,
    pub uncomp_size: u64,
    pub local_header_offset: u64,
    pub dos_time: u16,
    pub dos_date: u16,
    pub ntfs_mtime: Option<u64>,
    pub unix_mtime: Option<i64>,
    pub external_attrs: u32,
    pub host_system: u8,
    pub aes: Option<AesInfo>,
}

pub open spec fn opt_string_view(s: Option<String>) -> Option<Seq<char>> {
    match s {
        Some(s) => Some(s@),
        None => None,
    }
}

impl View for RawEntry {
    type V = RawEntryView;

    open spec fn view(&self) -> RawEntryView {
        RawEntryView {
            name_raw: self.name_raw@,
            unicode_path: opt_string_view(self.unicode_path),
            flags: self.flags,
            method: self.method,
            crc32: self.crc32,
            comp_size: self.comp_size,
            uncomp_size: self.uncomp_size,
            local_header_offset: self.local_header_offset,
            dos_time: self.dos_time,
            dos_date: self.dos_date,
            ntfs_mtime: self.ntfs_mtime,
            unix_mtime: self.unix_mtime,
            external_attrs: self.external_attrs,
            host_system: self.host_system,
            aes: self.aes,
        }
    }
}

/// Which fields of the main header turned out to be placeholders and must be
/// read from the zip64 extra field — strictly in this order.
#[derive(Clone, Copy)]
pub struct Zip64Sentinels {
    pub uncomp: bool,
    pub comp: bool,
    pub offset: bool,
    pub disk: bool,
}

/// The NTFS times extra field: the last modification time tag wins.
pub open spec fn spec_ntfs_mtime(body: Seq<u8>, q: int, cur: Option<u64>) -> Option<u64>
    decreases body.len() - q,
{
    if q < 0 || q + 4 > body.len() {
        cur
    } else {
        let tag = le16(body, q);
        let tsize = le16(body, q + 2);
        let cur2 = if tag == 1 && tsize >= 8 && fits(body, q + 4, 8) {
            Some(le64(body, q + 4) as u64)
        } else {
            cur
        };
        let next = q + 4 + tsize;
        if next + 4 > body.len() {
            cur2
        } else {
            spec_ntfs_mtime(body, next, cur2)
        }
    }
}

/// The zip64 extended information field: the placeholders, in order, each
/// eight bytes, each taken where the field is long enough.
pub open spec fn spec_zip64_field(body: Seq<u8>, sent: Zip64Sentinels, e: RawEntryView) -> RawEntryView {
    let q0 = 0int;
    let e1 = if sent.uncomp && fits(body, q0, 8) {
        RawEntryView { uncomp_size: le64(body, q0) as u64, ..e }
    } else {
        e
    };
    let q1 = if sent.uncomp { q0 + 8 } else { q0 };
    let e2 = if sent.comp && fits(body, q1, 8) {
        RawEntryView { comp_size: le64(body, q1) as u64, ..e1 }
    } else {
        e1
    };
    let q2 = if sent.comp { q1 + 8 } else { q1 };
    if sent.offset && fits(body, q2, 8) {
        RawEntryView { local_header_offset: le64(body, q2) as u64, ..e2 }
    } else {
        e2
    }
}

/// What one extra field with the given id and body changes in an entry.
pub open spec fn spec_apply_extra(id: int, body: Seq<u8>, sent: Zip64Sentinels, e: RawEntryView) -> RawEntryView {
    if id == 0x0001 {
        spec_zip64_field(body, sent, e)
    } else if id == 0x000A {
        RawEntryView { ntfs_mtime: spec_ntfs_mtime(body, 4, e.ntfs_mtime), ..e }
    } else if id == 0x7075 {
        // Info-ZIP Unicode Path: version 1, the CRC of the raw name, the UTF-8 name.
        if body.len() > 5 && body[0] == 1 && spec_crc32(e.name_raw) == le32(body, 1) && valid_utf8(
            body.skip(5),
        ) {
            RawEntryView { unicode_path: Some(decode_utf8(body.skip(5))), ..e }
        } else {
            e
        }
    } else if id == 0x9901 && body.len() >= 7 {
        RawEntryView {
            aes: Some(
                AesInfo {
                    vendor_version: le16(body, 0) as u16,
                    strength: body[4],
                    actual_method: le16(body, 5) as u16,
                },
            ),
            ..e
        }
    } else if id == 0x5455 && body.len() >= 1 && body[0] & 1 != 0 {
        if fits(body, 1, 4) {
            RawEntryView { unix_mtime: Some(le32(body, 1) as i64), ..e }
        } else {
            e
        }
    } else {
        e
    }
}

/// All extra fields from offset `p` on, applied in order. A field whose body
/// runs past the end stops the walk.
pub open spec fn spec_extras(extra: Seq<u8>, p: int, sent: Zip64Sentinels, e: RawEntryView) -> RawEntryView
    decreases extra.len() - p,
{
    if p < 0 || p + 4 > extra.len() {
        e
    } else {
        let id = le16(extra, p);
        let size = le16(extra, p + 2);
        let body_at = p + 4;
        if body_at + size > extra.len() {
            e
        } else {
            let e2 = spec_apply_extra(id, extra.subrange(body_at, body_at + size), sent, e);
            let next = body_at + size;
            if next + 4 > extra.len() {
                e2
            } else {
                spec_extras(extra, next, sent, e2)
            }
        }
    }
}

fn ntfs_mtime(body: &[u8], cur: Option<u64>) -> (res: Option<u64>)
    ensures
        res == spec_ntfs_mtime(body@, 4, cur),
{
    let mut found = cur;
    let mut q: usize = 4;
    if q + 4 > body.len() {
        return found;
    }
    loop
        invariant
            q + 4 <= body.len(),
            spec_ntfs_mtime(body@, 4, cur) == spec_ntfs_mtime(body@, q as int, found),
        decreases body.len() - q,
    {
        let tag = match rd_u16(body, q) {
            Ok(v) => v,
            Err(_) => 0,
        };
        let tsize = match rd_u16(body, q + 2) {
            Ok(v) => v,
            Err(_) => 0,
        } as usize;
        if tag == 0x0001 && tsize >= 8 {
            match rd_u64(body, q + 4) {
                Ok(v) => {
                    found = Some(v);
                },
                Err(_) => {},
            }
        }
        if body.len() - q - 4 < tsize || body.len() - q - 4 - tsize < 4 {
            return found;
        }
        q = q + 4 + tsize;
    }
}

fn zip64_field(body: &[u8], sentinels: Zip64Sentinels, entry: &mut RawEntry)
    ensures
        final(entry)@ == spec_zip64_field(body@, sentinels, old(entry)@),
{
    let mut q: usize = 0;
    if sentinels.uncomp {
        if let Ok(v) = rd_u64(body, q) {
            entry.uncomp_size = v;
        }
        q = q + 8;
    }
    if sentinels.comp {
        if let Ok(v) = rd_u64(body, q) {
            entry.comp_size = v;
        }
        q = q + 8;
    }
    if sentinels.offset {
        if let Ok(v) = rd_u64(body, q) {
            entry.local_header_offset = v;
        }
    }
}

fn apply_extra(id: u16, body: &[u8], sentinels: Zip64Sentinels, entry: &mut RawEntry)
    ensures
        final(entry)@ == spec_apply_extra(id as int, body@, sentinels, old(entry)@),
{
    if id == 0x0001 {
        zip64_field(body, sentinels, entry);
    } else if id == 0x000A {
        entry.ntfs_mtime = ntfs_mtime(body, entry.ntfs_mtime);
    } else if id == 0x7075 {
        if body.len() > 5 && body[0] == 1 {
            let name_crc = match rd_u32(body, 1) {
                Ok(v) => v,
                Err(_) => 0,
            };
            if crc32(entry.name_raw.as_slice()) == name_crc {
                let tail = &body[5..body.len()];
                assert(tail@ == body@.skip(5));
                if let Some(s) = utf8_to_string(tail) {
                    entry.unicode_path = Some(s);
                }
            }
        }
    } else if id == 0x9901 && body.len() >= 7 {
        let vendor_version = match rd_u16(body, 0) {
            Ok(v) => v,
            Err(_) => 0,
        };
        let actual_method = match rd_u16(body, 5) {
            Ok(v) => v,
            Err(_) => 0,
        };
        entry.aes = Some(AesInfo { vendor_version, strength: body[4], actual_method });
    } else if id == 0x5455 && body.len() >= 1 && body[0] & 1 != 0 {
        if let Ok(v) = rd_u32(body, 1) {
            entry.unix_mtime = Some(v as i64);
        }
    }
}

/// Applies the extra fields of an entry: zip64 sizes and offset, NTFS times,
/// the Unicode path, WinZip AES details and the extended timestamp.
pub fn parse_extra_fields(extra: &[u8], sentinels: Zip64Sentinels, entry: &mut RawEntry)
    ensures
        final(entry)@ == spec_extras(extra@, 0, sentinels, old(entry)@),
{
    let mut p: usize = 0;
    if extra.len() < 4 {
        return;
    }
    loop
        invariant
            p + 4 <= extra.len(),
            spec_extras(extra@, 0, sentinels, old(entry)@) == spec_extras(
                extra@,
                p as int,
                sentinels,
                entry@,
            ),
        decreases extra.len() - p,
    {
        let id = match rd_u16(extra, p) {
            Ok(v) => v,
            Err(_) => return,
        };
        let size = match rd_u16(extra, p + 2) {
            Ok(v) => v,
            Err(_) => return,
        } as usize;
        let body_at = p + 4;
        if extra.len() - body_at < size {
            return;
        }
        let body = &extra[body_at..body_at + size];
        apply_extra(id, body, sentinels, entry);
        let next = body_at + size;
        if extra.len() - next < 4 {
            return;
        }
        p = next;
    }
}

/// `libdeflater::crc32`: the standard CRC-32 checksum (the one zip and gzip
/// store) of the bytes, trusted to equal `spec_crc32`.
#[verifier::external_body]
pub fn crc32(data: &[u8]) -> (res: u32)
    ensures
        res == spec_crc32(data@),
{
    libdeflater::crc32(data)
}


/// The entry a central directory header at `p` describes before its extra
/// fields are applied.
pub open spec fn spec_base_entry(cdb: Seq<u8>, p: int) -> RawEntryView {
    let name_len = le16(cdb, p + 28);
    let name_at = p + CENTRAL_HEADER_LEN;
    RawEntryView {
        name_raw: cdb.subrange(name_at, name_at + name_len),
        unicode_path: None,
        flags: le16(cdb, p + 8) as u16,
        method: le16(cdb, p + 10) as u16,
        crc32: le32(cdb, p + 16) as u32,
        comp_size: le32(cdb, p + 20) as u64,
        uncomp_size: le32(cdb, p + 24) as u64,
        local_header_offset: le32(cdb, p + 42) as u64,
        dos_time: le16(cdb, p + 12) as u16,
        dos_date: le16(cdb, p + 14) as u16,
        ntfs_mtime: None,
        unix_mtime: None,
        external_attrs: le32(cdb, p + 38) as u32,
        host_system: (le16(cdb, p + 4) / 256) as u8,
        aes: None,
    }
}

pub open spec fn spec_sentinels(cdb: Seq<u8>, p: int) -> Zip64Sentinels {
    Zip64Sentinels {
        uncomp: le32(cdb, p + 24) == 0xFFFF_FFFF,
        comp: le32(cdb, p + 20) == 0xFFFF_FFFF,
        offset: le32(cdb, p + 42) == 0xFFFF_FFFF,
        disk: le16(cdb, p + 34) == 0xFFFF,
    }
}

/// Where the header after the one at `p` starts.
pub open spec fn spec_next_header(cdb: Seq<u8>, p: int) -> int {
    p + CENTRAL_HEADER_LEN + le16(cdb, p + 28) + le16(cdb, p + 30) + le16(cdb, p + 32)
}

/// The complete entry of the header at `p`.
pub open spec fn spec_entry_at(cdb: Seq<u8>, p: int) -> RawEntryView {
    let extra_at = p + CENTRAL_HEADER_LEN + le16(cdb, p + 28);
    let comment_at = extra_at + le16(cdb, p + 30);
    spec_extras(cdb.subrange(extra_at, comment_at), 0, spec_sentinels(cdb, p), spec_base_entry(cdb, p))
}

/// Whether a central directory header starts at `p`.
pub open spec fn has_header_at(cdb: Seq<u8>, p: int) -> bool {
    0 <= p && p + CENTRAL_HEADER_LEN <= cdb.len() && le32(cdb, p) == SIG_CENTRAL
}

/// The entries of the headers from `p` on: the chain ends at the first place
/// without a header, and a header whose variable part runs past the end is
/// an error.
pub open spec fn spec_cd_entries(cdb: Seq<u8>, p: int) -> Result<Seq<RawEntryView>, ZipError>
    decreases cdb.len() - p,
{
    if !has_header_at(cdb, p) {
        Ok(Seq::empty())
    } else if spec_next_header(cdb, p) > cdb.len() {
        Err(ZipError::CdOutOfBounds)
    } else {
        match spec_cd_entries(cdb, spec_next_header(cdb, p)) {
            Ok(rest) => Ok(seq![spec_entry_at(cdb, p)] + rest),
            Err(e) => Err(e),
        }
    }
}

/// The whole parse: locate the directory, check its bounds, read its entries.
pub open spec fn spec_parse_central_directory(s: Seq<u8>) -> Result<Seq<RawEntryView>, ZipError> {
    match spec_locate_central_directory(s) {
        Err(e) => Err(e),
        Ok(cd) => if cd.offset > usize::MAX || cd.size > usize::MAX {
            Err(ZipError::OffsetTooLarge)
        } else if cd.offset + cd.size > usize::MAX || cd.offset + cd.size > s.len() {
            Err(ZipError::CdOutOfBounds)
        } else {
            spec_cd_entries(s.subrange(cd.offset as int, cd.offset + cd.size), 0)
        },
    }
}

pub open spec fn views(v: Seq<RawEntry>) -> Seq<RawEntryView> {
    v.map_values(|e: RawEntry| e@)
}

/// Reads one header at `p`, known to be there and to fit.
fn entry_at(cdb: &[u8], p: usize) -> (res: RawEntry)
    requires
        has_header_at(cdb@, p as int),
        spec_next_header(cdb@, p as int) <= cdb@.len(),
    ensures
        res@ == spec_entry_at(cdb@, p as int),
{
    let len = cdb.len();
    assert(p + CENTRAL_HEADER_LEN <= len);
    let version_made_by = match rd_u16(cdb, p + 4) { Ok(v) => v, Err(_) => 0 };
    let flags = match rd_u16(cdb, p + 8) { Ok(v) => v, Err(_) => 0 };
    let method = match rd_u16(cdb, p + 10) { Ok(v) => v, Err(_) => 0 };
    let dos_time = match rd_u16(cdb, p + 12) { Ok(v) => v, Err(_) => 0 };
    let dos_date = match rd_u16(cdb, p + 14) { Ok(v) => v, Err(_) => 0 };
    let crc32_field = match rd_u32(cdb, p + 16) { Ok(v) => v, Err(_) => 0 };
    let comp_size_32 = match rd_u32(cdb, p + 20) { Ok(v) => v, Err(_) => 0 };
    let uncomp_size_32 = match rd_u32(cdb, p + 24) { Ok(v) => v, Err(_) => 0 };
    let name_len = match rd_u16(cdb, p + 28) { Ok(v) => v, Err(_) => 0 } as usize;
    let extra_len = match rd_u16(cdb, p + 30) { Ok(v) => v, Err(_) => 0 } as usize;
    let disk_start = match rd_u16(cdb, p + 34) { Ok(v) => v, Err(_) => 0 };
    let external_attrs = match rd_u32(cdb, p + 38) { Ok(v) => v, Err(_) => 0 };
    let local_offset_32 = match rd_u32(cdb, p + 42) { Ok(v) => v, Err(_) => 0 };

    let name_at = p + CENTRAL_HEADER_LEN;
    let extra_at = name_at + name_len;
    let comment_at = extra_at + extra_len;

    let mut entry = RawEntry {
        name_raw: vstd::slice::slice_to_vec(&cdb[name_at..extra_at]),
        unicode_path: None,
        flags,
        method,
        crc32: crc32_field,
        comp_size: comp_size_32 as u64,
        uncomp_size: uncomp_size_32 as u64,
        local_header_offset: local_offset_32 as u64,
        dos_time,
        dos_date,
        ntfs_mtime: None,
        unix_mtime: None,
        external_attrs,
        host_system: (version_made_by / 256) as u8,
        aes: None,
    };
    let sentinels = Zip64Sentinels {
        uncomp: uncomp_size_32 == 0xFFFF_FFFF,
        comp: comp_size_32 == 0xFFFF_FFFF,
        offset: local_offset_32 == 0xFFFF_FFFF,
        disk: disk_start == 0xFFFF,
    };
    assert(entry@ == spec_base_entry(cdb@, p as int));
    parse_extra_fields(&cdb[extra_at..comment_at], sentinels, &mut entry);
    entry
}

/// Walks the chain of central directory headers in `cdb`.
pub fn parse_cd_entries(cdb: &[u8]) -> (res: Result<Vec<RawEntry>, ZipError>)
    ensures
        match res {
            Ok(v) => spec_cd_entries(cdb@, 0) == Ok::<Seq<RawEntryView>, ZipError>(views(v@)),
            Err(e) => spec_cd_entries(cdb@, 0) == Err::<Seq<RawEntryView>, ZipError>(e),
        },
{
    let mut out: Vec<RawEntry> = Vec::new();
    let mut p: usize = 0;
    while p <= cdb.len() && cdb.len() - p >= CENTRAL_HEADER_LEN
        invariant
            p <= cdb.len() + 1,
            spec_cd_entries(cdb@, 0) == match spec_cd_entries(cdb@, p as int) {
                Ok(rest) => Ok(views(out@) + rest),
                Err(e) => Err(e),
            },
        ensures
            spec_cd_entries(cdb@, p as int) == Ok::<Seq<RawEntryView>, ZipError>(Seq::empty()),
        decreases cdb.len() + 1 - p,
    {
        let sig = match rd_u32(cdb, p) { Ok(v) => v, Err(_) => 0 };
        if sig != SIG_CENTRAL {
            break;
        }
        let name_len = match rd_u16(cdb, p + 28) { Ok(v) => v, Err(_) => 0 } as usize;
        let extra_len = match rd_u16(cdb, p + 30) { Ok(v) => v, Err(_) => 0 } as usize;
        let comment_len = match rd_u16(cdb, p + 32) { Ok(v) => v, Err(_) => 0 } as usize;
        let var_len = name_len + extra_len + comment_len;
        if cdb.len() - p - CENTRAL_HEADER_LEN < var_len {
            return Err(ZipError::CdOutOfBounds);
        }
        let next = p + CENTRAL_HEADER_LEN + var_len;
        let entry = entry_at(cdb, p);
        proof {
            let rest = spec_cd_entries(cdb@, next as int);
            assert(views(out@.push(entry)) =~= views(out@).push(entry@));
            if let Ok(r) = rest {
                assert(views(out@).push(entry@) + r =~= views(out@) + (seq![entry@] + r));
            }
        }
        out.push(entry);
        p = next;
    }
    proof {
        assert(views(out@) + Seq::<RawEntryView>::empty() =~= views(out@));
    }
    Ok(out)
}

/// Full parse of the central directory. One pass, no file bodies read.
pub fn parse_central_directory(buf: &[u8]) -> (res: Result<Vec<RawEntry>, ZipError>)
    ensures
        match res {
            Ok(v) => spec_parse_central_directory(buf@) == Ok::<Seq<RawEntryView>, ZipError>(views(v@)),
            Err(e) => spec_parse_central_directory(buf@) == Err::<Seq<RawEntryView>, ZipError>(e),
        },
{
    let cd = match locate_central_directory(buf) {
        Ok(cd) => cd,
        Err(e) => return Err(e),
    };
    if cd.offset > usize::MAX as u64 || cd.size > usize::MAX as u64 {
        return Err(ZipError::OffsetTooLarge);
    }
    let start = cd.offset as usize;
    let size = cd.size as usize;
    if start > usize::MAX - size || start + size > buf.len() {
        return Err(ZipError::CdOutOfBounds);
    }
    let cdb = &buf[start..start + size];
    parse_cd_entries(cdb)
}


/// Days between 1601-01-01 and 1970-01-01.
pub const DAYS_1601_TO_1970: i64 = 134_774;
pub const FILETIME_TICKS_PER_SEC: i64 = 10_000_000;
/// Seconds between 1601-01-01 and 1970-01-01.
pub const SECS_1601_TO_1970: i64 = 11_644_473_600;

/// FILETIME ticks for a Unix time, before clamping at the FILETIME epoch.
pub open spec fn unix_ticks(unix_secs: int) -> int {
    (unix_secs + DAYS_1601_TO_1970 * 86_400) * FILETIME_TICKS_PER_SEC
}

/// Unix times whose FILETIME fits the signed 64-bit arithmetic it is computed in.
pub open spec fn unix_time_in_range(unix_secs: int) -> bool {
    i64::MIN <= unix_ticks(unix_secs) <= i64::MAX
}

/// A Unix time as a Windows FILETIME; moments before 1601 become 0.
pub open spec fn spec_unix_to_filetime(unix_secs: int) -> u64 {
    if unix_ticks(unix_secs) < 0 {
        0
    } else {
        unix_ticks(unix_secs) as u64
    }
}

pub fn unix_to_filetime(unix_secs: i64) -> (res: u64)
    requires
        unix_time_in_range(unix_secs as int),
    ensures
        res == spec_unix_to_filetime(unix_secs as int),
{
    let ticks = (unix_secs + DAYS_1601_TO_1970 * 86_400) * FILETIME_TICKS_PER_SEC;
    if ticks < 0 {
        0
    } else {
        ticks as u64
    }
}

/// Days since 1970-01-01 in the proleptic Gregorian calendar (Hinnant's
/// algorithm), for years from 0 on.
pub open spec fn spec_days_from_civil(y: int, m: int, d: int) -> int {
    let y = if m <= 2 { y - 1 } else { y };
    let era = y / 400;
    let yoe = y - era * 400;
    let mp = (m + 9) % 12;
    let doy = (153 * mp + 2) / 5 + d - 1;
    let doe = yoe * 365 + yoe / 4 - yoe / 100 + doy;
    era * 146_097 + doe - 719_468
}

fn days_from_civil(y: i64, m: i64, d: i64) -> (res: i64)
    requires
        1 <= y <= 10_000,
        1 <= m <= 15,
        0 <= d <= 31,
    ensures
        res == spec_days_from_civil(y as int, m as int, d as int),
{
    let y = if m <= 2 { y - 1 } else { y };
    let era = y / 400;
    let yoe = y - era * 400;
    let mp = (m + 9) % 12;
    let doy = (153 * mp + 2) / 5 + d - 1;
    let doe = yoe * 365 + yoe / 4 - yoe / 100 + doy;
    era * 146_097 + doe - 719_468
}

/// The fields of a DOS date and time.
pub open spec fn dos_year(date: u16) -> int { (date / 512) as int + 1980 }
pub open spec fn dos_month(date: u16) -> int { ((date / 32) % 16) as int }
pub open spec fn dos_day(date: u16) -> int { (date % 32) as int }
pub open spec fn dos_hour(time: u16) -> int { (time / 2048) as int }
pub open spec fn dos_minute(time: u16) -> int { ((time / 32) % 64) as int }
pub open spec fn dos_second(time: u16) -> int { ((time % 32) * 2) as int }

/// A DOS date and time as a FILETIME; an empty or broken date (month or day
/// zero) is the start of the FILETIME epoch rather than garbage.
pub open spec fn spec_dos_to_filetime(date: u16, time: u16) -> u64 {
    if dos_month(date) == 0 || dos_day(date) == 0 {
        0
    } else {
        let days = spec_days_from_civil(dos_year(date), dos_month(date), dos_day(date));
        let secs = (days + DAYS_1601_TO_1970) * 86_400 + dos_hour(time) * 3600 + dos_minute(time)
            * 60 + dos_second(time);
        let ticks = secs * FILETIME_TICKS_PER_SEC;
        if ticks < 0 {
            0
        } else {
            ticks as u64
        }
    }
}

/// DOS time has a 2-second resolution and counts from 1980.
pub fn dos_to_filetime(date: u16, time: u16) -> (res: u64)
    ensures
        res == spec_dos_to_filetime(date, time),
{
    let year = (date / 512) as i64 + 1980;
    let month = ((date / 32) % 16) as i64;
    let day = (date % 32) as i64;
    let hour = (time / 2048) as i64;
    let min = ((time / 32) % 64) as i64;
    let sec = ((time % 32) * 2) as i64;
    if month == 0 || day == 0 {
        return 0;
    }
    let days = days_from_civil(year, month, day);
    assert(-800_000 <= days <= 3_000_000) by {
        assert(1980 <= year <= 2107);
    }
    let secs = (days + DAYS_1601_TO_1970) * 86_400 + hour * 3600 + min * 60 + sec;
    let ticks = secs * FILETIME_TICKS_PER_SEC;
    if ticks < 0 {
        0
    } else {
        ticks as u64
    }
}

/// Offset of the start of an entry's data. Computed from the local header,
/// because the extra field length there may differ from the one in the
/// central directory.
pub open spec fn spec_data_offset(s: Seq<u8>, lh: int) -> Result<u64, ZipError> {
    if lh > usize::MAX {
        Err(ZipError::OffsetTooLarge)
    } else if !fits(s, lh, 4) {
        Err(read_past_end(4, lh))
    } else if le32(s, lh) != SIG_LOCAL {
        Err(ZipError::BadLocalHeader { offset: lh as usize })
    } else if !fits(s, lh + 26, 2) {
        Err(read_past_end(2, lh + 26))
    } else if !fits(s, lh + 28, 2) {
        Err(read_past_end(2, lh + 28))
    } else if lh + LOCAL_HEADER_LEN + le16(s, lh + 26) + le16(s, lh + 28) > u64::MAX {
        Err(ZipError::OffsetTooLarge)
    } else {
        Ok((lh + LOCAL_HEADER_LEN + le16(s, lh + 26) + le16(s, lh + 28)) as u64)
    }
}

pub fn data_offset(buf: &[u8], local_header_offset: u64) -> (res: Result<u64, ZipError>)
    ensures
        res == spec_data_offset(buf@, local_header_offset as int),
{
    if local_header_offset > usize::MAX as u64 {
        return Err(ZipError::OffsetTooLarge);
    }
    let lh = local_header_offset as usize;
    let sig = match rd_u32(buf, lh) {
        Ok(v) => v,
        Err(e) => return Err(e),
    };
    if sig != SIG_LOCAL {
        return Err(ZipError::BadLocalHeader { offset: lh });
    }
    let len = buf.len();
    if len - lh < 28 {
        let at = if lh <= usize::MAX - 26 {
            lh + 26
        } else {
            usize::MAX
        };
        return Err(ZipError::ReadPastEnd { width: 2, offset: at });
    }
    let name_len = match rd_u16(buf, lh + 26) {
        Ok(v) => v,
        Err(e) => return Err(e),
    } as u64;
    if len - lh < 30 {
        return Err(ZipError::ReadPastEnd { width: 2, offset: lh + 28 });
    }
    let extra_len = match rd_u16(buf, lh + 28) {
        Ok(v) => v,
        Err(e) => return Err(e),
    } as u64;
    if local_header_offset > u64::MAX - (LOCAL_HEADER_LEN + name_len + extra_len) {
        return Err(ZipError::OffsetTooLarge);
    }
    Ok(local_header_offset + LOCAL_HEADER_LEN + name_len + extra_len)
}

/// The directory test of `RawEntry::is_dir`.
pub open spec fn spec_raw_is_dir(e: RawEntryView) -> bool {
    ||| (e.name_raw.len() > 0 && (e.name_raw.last() == 0x2F || e.name_raw.last() == 0x5C))
    ||| e.external_attrs & 0x10 != 0
    ||| (e.host_system == 3 && (e.external_attrs >> 16u32) & 0xF000 == 0x4000)
}

/// The time `RawEntry::mtime_filetime` reports.
pub open spec fn spec_raw_mtime(e: RawEntryView) -> u64 {
    match e.ntfs_mtime {
        Some(ft) => ft,
        None => match e.unix_mtime {
            Some(unix) => spec_unix_to_filetime(unix as int),
            None => spec_dos_to_filetime(e.dos_date, e.dos_time),
        },
    }
}

impl RawEntry {
    /// The compression method, bearing in mind that for encrypted entries the
    /// real method hides in an extra field behind a placeholder 99.
    pub fn effective_method(&self) -> (res: u16)
        ensures
            res == match self.aes {
                Some(info) => info.actual_method,
                None => self.method,
            },
    {
        match self.aes {
            Some(info) => info.actual_method,
            None => self.method,
        }
    }

    /// The entry's CRC32, if it is stored at all.
    ///
    /// In WinZip AES version AE-2 the field is zeroed on purpose: integrity is
    /// confirmed by the HMAC computed during decryption, not by a checksum.
    pub fn stored_crc32(&self) -> (res: Option<u32>)
        ensures
            res == match self.aes {
                Some(info) => if info.vendor_version >= 2 {
                    None
                } else {
                    Some(self.crc32)
                },
                None => Some(self.crc32),
            },
    {
        match self.aes {
            Some(info) => if info.vendor_version >= 2 {
                None
            } else {
                Some(self.crc32)
            },
            None => Some(self.crc32),
        }
    }

    pub fn has_utf8_flag(&self) -> (res: bool)
        ensures
            res == (self.flags & FLAG_UTF8 != 0),
    {
        self.flags & FLAG_UTF8 != 0
    }

    pub fn is_encrypted(&self) -> (res: bool)
        ensures
            res == (self.flags & FLAG_ENCRYPTED != 0),
    {
        self.flags & FLAG_ENCRYPTED != 0
    }

    /// A directory is recognised by three independent signs: the trailing
    /// slash is the most reliable; the others cover archivers that omit it.
    pub fn is_dir(&self) -> (res: bool)
        ensures
            res == spec_raw_is_dir(self@),
    {
        let n = self.name_raw.len();
        if n > 0 {
            let last = self.name_raw[n - 1];
            if last == 0x2F || last == 0x5C {
                return true;
            }
        }
        // FILE_ATTRIBUTE_DIRECTORY in the DOS attributes.
        if self.external_attrs & 0x10 != 0 {
            return true;
        }
        // S_IFDIR in the high 16 bits, if the archive was made on Unix.
        if self.host_system == 3 && (self.external_attrs >> 16u32) & 0xF000 == 0x4000 {
            return true;
        }
        false
    }

    /// Modification time as a Windows FILETIME, from the most precise source
    /// available.
    pub fn mtime_filetime(&self) -> (res: u64)
        requires
            self.unix_mtime matches Some(unix) ==> unix_time_in_range(unix as int),
        ensures
            res == spec_raw_mtime(self@),
    {
        if let Some(ft) = self.ntfs_mtime {
            return ft;
        }
        if let Some(unix) = self.unix_mtime {
            return unix_to_filetime(unix);
        }
        dos_to_filetime(self.dos_date, self.dos_time)
    }
}

} // verus!
