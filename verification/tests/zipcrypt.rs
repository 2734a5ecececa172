use aes::cipher::{KeyIvInit, StreamCipher};
use hmac::digest::KeyInit;
use hmac::{Hmac, Mac};
use sha1::Sha1;

use zipmount::crc::crc32_byte;
use zipmount::secret::{needs_password, PasswordError, PasswordKind, Secret};
use zipmount::zipcrypt::{
    aes_auth_code_matches, aes_sizes, aes_verifier_matches, apply_aes_ctr, decrypt_aes,
    decrypt_entry, decrypt_zipcrypto, CryptError, ZipCryptoKeys,
};
use zipmount::zipfmt::{AesInfo, RawEntry};

#[test]
fn crc32_byte_matches_reference_stream() {
    // Running through the byte-wise update must match the ordinary CRC32
    // once its customary inversions are applied.
    let data = b"123456789";
    let mut crc = 0xFFFF_FFFFu32;
    for &b in data {
        crc = crc32_byte(crc, b);
    }
    assert_eq!(crc ^ 0xFFFF_FFFF, 0xCBF4_3926);
}

#[test]
fn zipcrypto_keys_are_deterministic() {
    let a = ZipCryptoKeys::new(b"secret");
    let b = ZipCryptoKeys::new(b"secret");
    assert_eq!((a.k0, a.k1, a.k2), (b.k0, b.k1, b.k2));
}

#[test]
fn zipcrypto_different_passwords_diverge() {
    let a = ZipCryptoKeys::new(b"secret");
    let b = ZipCryptoKeys::new(b"secreT");
    assert_ne!((a.k0, a.k1, a.k2), (b.k0, b.k1, b.k2));
}

fn zipcrypto_encrypt(password: &[u8], plain: &[u8]) -> Vec<u8> {
    let mut keys = ZipCryptoKeys::new(password);
    plain
        .iter()
        .map(|&p| {
            let c = p ^ keys.keystream_byte();
            keys.update(p);
            c
        })
        .collect()
}

#[test]
fn zipcrypto_roundtrip_with_matching_keystream() {
    // Encrypt "by hand" with the same keystream and make sure decryption
    // gives back the original.
    let plain = b"hello, encrypted world";
    let cipher = zipcrypto_encrypt(b"pw", plain);

    let mut dec_keys = ZipCryptoKeys::new(b"pw");
    let got: Vec<u8> = cipher.iter().map(|&c| dec_keys.decrypt(c)).collect();
    assert_eq!(got, plain);
}

#[test]
fn empty_password_leaves_the_initial_keys() {
    let k = ZipCryptoKeys::new(b"");
    assert_eq!((k.k0, k.k1, k.k2), (0x1234_5678, 0x2345_6789, 0x3456_7890));
}

#[test]
fn keystream_byte_of_the_initial_keys() {
    let k = ZipCryptoKeys::new(b"");
    // temp = (0x34567890 | 2) & 0xffff = 0x7892; (temp * (temp ^ 1)) >> 8 & 0xff
    let temp: u32 = 0x7892;
    assert_eq!(k.keystream_byte(), ((temp * (temp ^ 1)) >> 8 & 0xff) as u8);
}

fn entry(flags: u16, crc32: u32, dos_time: u16, aes: Option<AesInfo>) -> RawEntry {
    RawEntry {
        name_raw: b"a.txt".to_vec(),
        unicode_path: None,
        flags,
        method: if aes.is_some() { 99 } else { 0 },
        crc32,
        comp_size: 0,
        uncomp_size: 0,
        local_header_offset: 0,
        dos_time,
        dos_date: 0,
        ntfs_mtime: None,
        unix_mtime: None,
        external_attrs: 0,
        host_system: 0,
        aes,
    }
}

/// A ZipCrypto entry body: twelve header bytes (the last one the check
/// byte), then the data, all encrypted together.
fn zipcrypto_body(password: &[u8], check: u8, data: &[u8]) -> Vec<u8> {
    let mut plain = vec![0x5Au8; 11];
    plain.push(check);
    plain.extend_from_slice(data);
    zipcrypto_encrypt(password, &plain)
}

#[test]
fn zipcrypto_entry_decrypts_with_crc_check_byte() {
    let e = entry(1, 0xAB12_3456, 0, None);
    let raw = zipcrypto_body(b"pw", 0xAB, b"compressed bytes");
    let pw = Secret::from_str_secret("pw");
    assert_eq!(decrypt_zipcrypto(&raw, &e, &pw).unwrap(), b"compressed bytes");
    assert_eq!(decrypt_entry(&raw, &e, Some(&pw)).unwrap(), b"compressed bytes");
}

#[test]
fn zipcrypto_entry_with_descriptor_checks_the_time() {
    let e = entry(1 | 8, 0, 0x7C00, None);
    let raw = zipcrypto_body(b"pw", 0x7C, b"xyz");
    let pw = Secret::from_str_secret("pw");
    assert_eq!(decrypt_zipcrypto(&raw, &e, &pw).unwrap(), b"xyz");
}

#[test]
fn zipcrypto_wrong_password_is_a_password_error() {
    let e = entry(1, 0xAB12_3456, 0, None);
    let raw = zipcrypto_body(b"pw", 0xAB, b"data");
    // Try a handful of wrong passwords: a wrong one passes the one-byte
    // check only by chance, and then the bytes are garbage.
    let mut refused = 0;
    for pw in ["x", "pw2", "PW", "letmein", "hunter2"] {
        match decrypt_zipcrypto(&raw, &e, &Secret::from_str_secret(pw)) {
            Err(err) => {
                assert_eq!(err, CryptError::Password(PasswordKind::Wrong));
                assert!(needs_password(&err));
                refused += 1;
            }
            Ok(bytes) => assert_ne!(bytes, b"data"),
        }
    }
    assert!(refused >= 3);
}

#[test]
fn zipcrypto_too_short() {
    let e = entry(1, 0, 0, None);
    let pw = Secret::from_str_secret("pw");
    assert_eq!(
        decrypt_zipcrypto(&[0u8; 11], &e, &pw),
        Err(CryptError::TooShort)
    );
    assert!(!needs_password(&CryptError::TooShort));
}

#[test]
fn missing_password_is_reported() {
    let e = entry(1, 0, 0, None);
    let err = decrypt_entry(&[0u8; 40], &e, None).unwrap_err();
    assert_eq!(err, CryptError::Password(PasswordKind::Missing));
    assert!(needs_password(&err));
}

#[test]
fn aes_ctr_is_its_own_inverse() {
    let key = [7u8; 32];
    let original = b"AES-CTR is a stream cipher".to_vec();
    let mut buf = original.clone();
    apply_aes_ctr(3, &key, &mut buf).unwrap();
    assert_ne!(buf, original, "the ciphertext must differ");
    apply_aes_ctr(3, &key, &mut buf).unwrap();
    assert_eq!(buf, original);
}

#[test]
fn aes_rejects_unknown_strength() {
    let mut buf = vec![0u8; 16];
    assert!(apply_aes_ctr(9, &[0u8; 32], &mut buf).is_err());
    assert_eq!(
        apply_aes_ctr(0, &[0u8; 32], &mut buf),
        Err(CryptError::UnknownStrength { strength: 0 })
    );
}

#[test]
fn aes_rejects_a_key_of_the_wrong_length() {
    let mut buf = vec![1u8, 2, 3];
    assert_eq!(
        apply_aes_ctr(1, &[0u8; 32], &mut buf),
        Err(CryptError::BadKeyLength)
    );
    assert_eq!(buf, vec![1u8, 2, 3]);
}

#[test]
fn aes_ctr_counts_little_endian_from_one() {
    let key = [3u8; 16];
    let mut buf = vec![0u8; 40];
    apply_aes_ctr(1, &key, &mut buf).unwrap();
    let mut iv = [0u8; 16];
    iv[0] = 1;
    let mut expected = vec![0u8; 40];
    ctr::Ctr128LE::<aes::Aes128>::new_from_slices(&key, &iv)
        .unwrap()
        .apply_keystream(&mut expected);
    assert_eq!(buf, expected);
}

#[test]
fn aes_sizes_follow_the_strength() {
    assert_eq!(aes_sizes(1), Some((8, 16)));
    assert_eq!(aes_sizes(2), Some((12, 24)));
    assert_eq!(aes_sizes(3), Some((16, 32)));
    assert_eq!(aes_sizes(4), None);
}

#[test]
fn aes_checks_compare_the_right_bytes() {
    let derived = [9u8, 9, 9, 9, 1, 2];
    assert!(aes_verifier_matches(&derived, 2, &[1, 2]));
    assert!(!aes_verifier_matches(&derived, 2, &[2, 1]));
    let tag = [5u8; 20];
    assert!(aes_auth_code_matches(&tag, &[5u8; 10]));
    assert!(!aes_auth_code_matches(&tag, &[5u8; 9]));
}

/// A WinZip AES-256 entry body for `data`, built with the crates directly.
fn aes_body(password: &[u8], data: &[u8]) -> Vec<u8> {
    let salt = [0x11u8; 16];
    let mut derived = vec![0u8; 66];
    pbkdf2::pbkdf2_hmac::<Sha1>(password, &salt, 1000, &mut derived);
    let mut iv = [0u8; 16];
    iv[0] = 1;
    let mut ct = data.to_vec();
    ctr::Ctr128LE::<aes::Aes256>::new_from_slices(&derived[..32], &iv)
        .unwrap()
        .apply_keystream(&mut ct);
    let mut mac = <Hmac<Sha1> as KeyInit>::new_from_slice(&derived[32..64]).unwrap();
    mac.update(&ct);
    let tag = mac.finalize().into_bytes();
    let mut raw = salt.to_vec();
    raw.extend_from_slice(&derived[64..66]);
    raw.extend_from_slice(&ct);
    raw.extend_from_slice(&tag[..10]);
    raw
}

fn aes_info(strength: u8) -> AesInfo {
    AesInfo { vendor_version: 2, strength, actual_method: 8 }
}

#[test]
fn aes_entry_decrypts() {
    let raw = aes_body(b"correct horse", b"deflated payload");
    let pw = Secret::from_str_secret("correct horse");
    assert_eq!(decrypt_aes(&raw, aes_info(3), &pw).unwrap(), b"deflated payload");
    let e = entry(1, 0, 0, Some(aes_info(3)));
    assert_eq!(decrypt_entry(&raw, &e, Some(&pw)).unwrap(), b"deflated payload");
}

#[test]
fn aes_wrong_password_or_tampering_is_refused() {
    let raw = aes_body(b"correct horse", b"deflated payload");
    let wrong = decrypt_aes(&raw, aes_info(3), &Secret::from_str_secret("battery staple"));
    // The two verification bytes catch a wrong password almost always.
    if let Err(err) = wrong {
        assert!(err == CryptError::Password(PasswordKind::Wrong) || err == CryptError::AuthFailed);
    } else {
        panic!("a wrong password must not decrypt");
    }
    let mut tampered = raw.clone();
    tampered[20] ^= 1;
    assert_eq!(
        decrypt_aes(&tampered, aes_info(3), &Secret::from_str_secret("correct horse")),
        Err(CryptError::AuthFailed)
    );
}

#[test]
fn aes_entry_too_short_or_unknown_strength() {
    let pw = Secret::from_str_secret("pw");
    assert_eq!(decrypt_aes(&[0u8; 27], aes_info(3), &pw), Err(CryptError::TooShort));
    assert_eq!(
        decrypt_aes(&[0u8; 100], aes_info(7), &pw),
        Err(CryptError::UnknownStrength { strength: 7 })
    );
}

#[test]
fn exposes_exact_bytes() {
    let s = Secret::from_str_secret("пароль");
    assert_eq!(s.bytes(), "пароль".as_bytes());
    assert_eq!(s.as_str(), "пароль");
}

#[test]
fn empty_is_detected() {
    assert!(Secret::new(Vec::new()).is_empty());
    assert!(!Secret::from_str_secret("x").is_empty());
}

#[test]
fn password_errors_carry_their_kind() {
    assert_eq!(PasswordError::missing().kind(), PasswordKind::Missing);
    assert_eq!(PasswordError::wrong().kind(), PasswordKind::Wrong);
    let other = PasswordError::with_message("7z says: maybe a password".to_string());
    assert_eq!(other.kind(), PasswordKind::Other);
    assert_eq!(other.message().map(|m| m.as_str()), Some("7z says: maybe a password"));
    assert!(PasswordError::wrong().message().is_none());
}
