//! A format-independent description of an archive entry, and the archive
//! formats recognised by their signatures.

use vstd::prelude::*;

use crate::bytes::{spec_starts_with, starts_with};
use crate::tarfmt::{looks_like_tar, spec_looks_like_tar};

verus! {

/// Format of an open archive.
#[derive(Debug, Clone, Copy, PartialEq, Eq, Structural)]
pub enum Format {
    Zip,
    SevenZ,
    Tar,
    /// A tar compressed with gzip.
    TarGz,
    Rar,
}

impl Format {
    /// The format's short name, as `info` prints it.
    pub fn name(self) -> (res: &'static str)
        ensures
            res@ == spec_format_name(self),
    {
        match self {
            Format::Zip => "zip",
            Format::SevenZ => "7z",
            Format::Tar => "tar",
            Format::TarGz => "tar.gz",
            Format::Rar => "rar",
        }
    }
}

pub open spec fn spec_format_name(f: Format) -> Seq<char> {
    match f {
        Format::Zip => "zip"@,
        Format::SevenZ => "7z"@,
        Format::Tar => "tar"@,
        Format::TarGz => "tar.gz"@,
        Format::Rar => "rar"@,
    }
}


pub open spec fn sevenz_magic() -> Seq<u8> {
    seq![0x37u8, 0x7A, 0xBC, 0xAF, 0x27, 0x1C]
}

/// The signatures that start a zip: a local header, an empty archive, or a
/// spanning marker.
pub open spec fn zip_magics() -> Seq<Seq<u8>> {
    seq![seq![0x50u8, 0x4B, 3, 4], seq![0x50u8, 0x4B, 5, 6], seq![0x50u8, 0x4B, 7, 8]]
}

pub open spec fn rar_magic() -> Seq<u8> {
    seq![0x52u8, 0x61, 0x72, 0x21, 0x1A, 0x07]
}

pub open spec fn gzip_magic() -> Seq<u8> {
    seq![0x1Fu8, 0x8B]
}

/// The format a file's first bytes show, checked in this order.
pub open spec fn spec_detect(head: Seq<u8>) -> Option<Format> {
    if spec_starts_with(head, sevenz_magic()) {
        Some(Format::SevenZ)
    } else if spec_starts_with(head, zip_magics()[0]) || spec_starts_with(head, zip_magics()[1])
        || spec_starts_with(head, zip_magics()[2]) {
        Some(Format::Zip)
    } else if spec_starts_with(head, rar_magic()) {
        Some(Format::Rar)
    } else if spec_starts_with(head, gzip_magic()) {
        Some(Format::TarGz)
    } else if spec_looks_like_tar(head) {
        Some(Format::Tar)
    } else {
        None
    }
}

impl Format {
    /// Detects the format by the signature at the start of the file, not by
    /// the extension: a file name lies more often than its first bytes do.
    ///
    /// Pass at least 512 bytes: the tar magic sits at offset 257, and very
    /// old tars have none at all, leaving a header checksum that adds up as
    /// the only sign.
    pub fn detect(head: &[u8]) -> (res: Option<Self>)
        ensures
            res == spec_detect(head@),
    {
        let sevenz: [u8; 6] = [0x37, 0x7A, 0xBC, 0xAF, 0x27, 0x1C];
        let zip_local: [u8; 4] = [0x50, 0x4B, 3, 4];
        let zip_empty: [u8; 4] = [0x50, 0x4B, 5, 6];
        let zip_span: [u8; 4] = [0x50, 0x4B, 7, 8];
        let rar: [u8; 6] = [0x52, 0x61, 0x72, 0x21, 0x1A, 0x07];
        let gzip: [u8; 2] = [0x1F, 0x8B];
        assert(sevenz@ =~= sevenz_magic());
        assert(zip_local@ =~= zip_magics()[0]);
        assert(zip_empty@ =~= zip_magics()[1]);
        assert(zip_span@ =~= zip_magics()[2]);
        assert(rar@ =~= rar_magic());
        assert(gzip@ =~= gzip_magic());
        if starts_with(head, &sevenz) {
            return Some(Format::SevenZ);
        }
        if starts_with(head, &zip_local) || starts_with(head, &zip_empty) || starts_with(
            head,
            &zip_span,
        ) {
            return Some(Format::Zip);
        }
        // Both RAR versions start the same way: 4.x adds 0x00, 5.x adds
        // 0x01 0x00. We need not tell them apart; the unpacker does.
        if starts_with(head, &rar) {
            return Some(Format::Rar);
        }
        // gzip. Whether there really is a tar inside only shows after
        // decompression.
        if starts_with(head, &gzip) {
            return Some(Format::TarGz);
        }
        if looks_like_tar(head) {
            return Some(Format::Tar);
        }
        None
    }
}

/// A format-independent description of an archive entry.
///
/// The directory tree is built from this alone: the name is already decoded,
/// so dealing with encodings stays inside the zip backend and does not leak
/// out (7z names are always Unicode, so there is nothing to decode).
#[derive(Debug)]
pub struct EntryMeta {
    /// Path inside the archive as the archiver wrote it, with either separator.
    pub path: String,
    pub is_dir: bool,
    pub size: u64,
    /// Modification time as a Windows FILETIME; 0 means unknown.
    pub mtime: u64,
}

} // verus!
