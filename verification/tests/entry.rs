use zipmount::entry::Format;

#[test]
fn detects_zip_signature() {
    assert_eq!(Format::detect(b"PK\x03\x04rest"), Some(Format::Zip));
    assert_eq!(Format::detect(b"PK\x05\x06"), Some(Format::Zip));
}

#[test]
fn detects_sevenz_signature() {
    assert_eq!(
        Format::detect(&[b'7', b'z', 0xBC, 0xAF, 0x27, 0x1C, 0, 4]),
        Some(Format::SevenZ)
    );
}

#[test]
fn detects_rar_signatures() {
    // RAR 4.x and RAR 5.x differ in the tail of the signature.
    assert_eq!(Format::detect(b"Rar!\x1a\x07\x00rest"), Some(Format::Rar));
    assert_eq!(
        Format::detect(b"Rar!\x1a\x07\x01\x00rest"),
        Some(Format::Rar)
    );
    assert_eq!(Format::detect(b"Rar\x00"), None);
}

#[test]
fn detects_gzip_signature() {
    assert_eq!(
        Format::detect(&[0x1f, 0x8b, 0x08, 0x00]),
        Some(Format::TarGz)
    );
}

#[test]
fn rejects_unknown_and_short_input() {
    assert_eq!(Format::detect(b"RAR!"), None);
    assert_eq!(Format::detect(b"PK"), None);
    assert_eq!(Format::detect(b""), None);
}

#[test]
fn format_names() {
    assert_eq!(Format::Zip.name(), "zip");
    assert_eq!(Format::SevenZ.name(), "7z");
    assert_eq!(Format::Tar.name(), "tar");
    assert_eq!(Format::TarGz.name(), "tar.gz");
    assert_eq!(Format::Rar.name(), "rar");
}

#[test]
fn the_spanning_marker_is_zip_too() {
    assert_eq!(Format::detect(b"PK\x07\x08"), Some(Format::Zip));
}
