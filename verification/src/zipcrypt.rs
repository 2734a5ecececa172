//! Decrypting zip entries.
//!
//! Zip carries two incompatible schemes:
//!
//! * **WinZip AES** (method 99 plus extra field 0x9901) — the modern one:
//!   PBKDF2-HMAC-SHA1, AES-CTR, and HMAC-SHA1 for integrity;
//! * **ZipCrypto** — the legacy scheme from the 1990s. It is cryptographically
//!   weak (falls to a known-plaintext attack), but archives using it still
//!   turn up, so it has to be read. It is only ever read, never created.
//!
//! Both produce a compressed stream, which the ordinary read paths take from
//! there. Encryption comes off exactly one layer below decompression.

use vstd::prelude::*;

use aes::cipher::{KeyIvInit, StreamCipher};
use hmac::digest::KeyInit;
use hmac::{Hmac, Mac};
use sha1::Sha1;

use crate::bytes::bytes_eq;
use crate::crc::{crc32_byte, spec_crc32_byte};
use crate::secret::{PasswordKind, Secret};
use crate::zipfmt::{AesInfo, RawEntry};

verus! {

/// PBKDF2 iteration count, fixed by the WinZip AES specification.
pub const AES_PBKDF2_ROUNDS: u32 = 1000;

/// The truncated HMAC-SHA1 at the end of the entry.
pub const AES_AUTH_CODE_LEN: usize = 10;

/// Two bytes for a quick password check before decrypting the whole body.
pub const AES_PV_LEN: usize = 2;

/// The encrypted header in front of a ZipCrypto entry.
pub const ZIPCRYPTO_HEADER_LEN: usize = 12;

/// Why an encrypted entry could not be opened.
#[derive(Debug, Clone, Copy, PartialEq, Eq, Structural)]
pub enum CryptError {
    /// No password, or the wrong one.
    Password(PasswordKind),
    /// The AES extra field names a key size other than 128, 192 or 256 bits.
    UnknownStrength { strength: u8 },
    /// Fewer bytes than the scheme's own header and trailer.
    TooShort,
    /// The HMAC at the end of an AES entry does not match its contents.
    AuthFailed,
    /// An AES key of the wrong length for the cipher.
    BadKeyLength,
}

/// Bytewise XOR of `data` with `stream`, as long as `data`.
pub open spec fn xor_bytes(data: Seq<u8>, stream: Seq<u8>) -> Seq<u8> {
    Seq::new(data.len(), |i: int| data[i] ^ stream[i])
}

// ---------------------------------------------------------------------------
// ZipCrypto
// ---------------------------------------------------------------------------

/// Three 32-bit keys that evolve with every byte processed.
#[derive(Debug, Clone, Copy, PartialEq, Eq, Structural)]
pub struct ZipCryptoKeys {
    pub k0: u32,
    pub k1: u32,
    pub k2: u32,
}

impl ZipCryptoKeys {
    /// The keys before any password byte.
    pub open spec fn initial() -> Self {
        ZipCryptoKeys { k0: 0x1234_5678, k1: 0x2345_6789, k2: 0x3456_7890 }
    }

    /// The keys after processing one plaintext byte.
    pub open spec fn updated(self, byte: u8) -> Self {
        let k0 = spec_crc32_byte(self.k0, byte);
        let k1 = self.k1.wrapping_add(k0 & 0xff).wrapping_mul(134_775_813).wrapping_add(1);
        let k2 = spec_crc32_byte(self.k2, (k1 >> 24) as u8);
        ZipCryptoKeys { k0, k1, k2 }
    }

    /// The keys after processing `data`, one byte after another.
    pub open spec fn after(self, data: Seq<u8>) -> Self
        decreases data.len(),
    {
        if data.len() == 0 {
            self
        } else {
            self.after(data.drop_last()).updated(data.last())
        }
    }

    /// The byte these keys XOR onto the next byte of the stream.
    pub open spec fn keystream(self) -> u8 {
        let temp = (self.k2 | 2) & 0xffff;
        ((temp.wrapping_mul(temp ^ 1) >> 8) & 0xff) as u8
    }

    /// The keys a password sets up.
    pub fn new(password: &[u8]) -> (res: Self)
        ensures
            res == Self::initial().after(password@),
    {
        let mut keys = ZipCryptoKeys { k0: 0x1234_5678, k1: 0x2345_6789, k2: 0x3456_7890 };
        for i in 0..password.len()
            invariant
                keys == Self::initial().after(password@.take(i as int)),
        {
            proof {
                assert(password@.take(i + 1).drop_last() =~= password@.take(i as int));
            }
            keys.update(password[i]);
        }
        proof {
            assert(password@.take(password@.len() as int) =~= password@);
        }
        keys
    }

    /// Feeds one plaintext byte into the keys.
    pub fn update(&mut self, byte: u8)
        ensures
            *final(self) == old(self).updated(byte),
    {
        self.k0 = crc32_byte(self.k0, byte);
        self.k1 = self.k1.wrapping_add(self.k0 & 0xff).wrapping_mul(134_775_813).wrapping_add(1);
        self.k2 = crc32_byte(self.k2, (self.k1 >> 24) as u8);
    }

    /// The next keystream byte.
    pub fn keystream_byte(&self) -> (res: u8)
        ensures
            res == self.keystream(),
    {
        let temp = (self.k2 | 2) & 0xffff;
        ((temp.wrapping_mul(temp ^ 1) >> 8) & 0xff) as u8
    }

    /// Decrypts one byte and moves the keys on by the plaintext.
    pub fn decrypt(&mut self, cipher: u8) -> (plain: u8)
        ensures
            plain == cipher ^ old(self).keystream(),
            *final(self) == old(self).updated(plain),
    {
        let plain = cipher ^ self.keystream_byte();
        self.update(plain);
        plain
    }
}

/// The plaintext of a ZipCrypto stream: each byte is XORed with the
/// keystream byte of the keys after all the plaintext before it.
pub open spec fn zipcrypto_decrypt(keys: ZipCryptoKeys, cipher: Seq<u8>) -> Seq<u8>
    decreases cipher.len(),
{
    if cipher.len() == 0 {
        Seq::empty()
    } else {
        let prev = zipcrypto_decrypt(keys, cipher.drop_last());
        prev.push(cipher.last() ^ keys.after(prev).keystream())
    }
}

/// The ciphertext ZipCrypto makes of `plain`: the same keystream, driven by
/// the plaintext.
pub open spec fn zipcrypto_encrypt(keys: ZipCryptoKeys, plain: Seq<u8>) -> Seq<u8> {
    Seq::new(plain.len(), |i: int| plain[i] ^ keys.after(plain.take(i)).keystream())
}

/// Processing two pieces one after the other is processing their
/// concatenation.
pub proof fn lemma_after_concat(keys: ZipCryptoKeys, x: Seq<u8>, y: Seq<u8>)
    ensures
        keys.after(x + y) == keys.after(x).after(y),
    decreases y.len(),
{
    if y.len() == 0 {
        assert(x + y =~= x);
    } else {
        assert((x + y).drop_last() =~= x + y.drop_last());
        assert((x + y).last() == y.last());
        lemma_after_concat(keys, x, y.drop_last());
    }
}

/// Decryption yields one byte per byte.
pub proof fn lemma_decrypt_len(keys: ZipCryptoKeys, cipher: Seq<u8>)
    ensures
        zipcrypto_decrypt(keys, cipher).len() == cipher.len(),
    decreases cipher.len(),
{
    if cipher.len() > 0 {
        lemma_decrypt_len(keys, cipher.drop_last());
    }
}

/// Decrypting a stream in two pieces, carrying the keys over, is decrypting
/// it whole.
pub proof fn lemma_decrypt_concat(keys: ZipCryptoKeys, a: Seq<u8>, b: Seq<u8>)
    ensures
        zipcrypto_decrypt(keys, a + b) == zipcrypto_decrypt(keys, a) + zipcrypto_decrypt(
            keys.after(zipcrypto_decrypt(keys, a)),
            b,
        ),
    decreases b.len(),
{
    let da = zipcrypto_decrypt(keys, a);
    let ka = keys.after(da);
    if b.len() == 0 {
        assert(a + b =~= a);
        assert(da + zipcrypto_decrypt(ka, b) =~= da);
    } else {
        let b1 = b.drop_last();
        assert((a + b).drop_last() =~= a + b1);
        assert((a + b).last() == b.last());
        lemma_decrypt_concat(keys, a, b1);
        let db1 = zipcrypto_decrypt(ka, b1);
        lemma_after_concat(keys, da, db1);
        let x = b.last() ^ ka.after(db1).keystream();
        assert((da + db1).push(x) =~= da + db1.push(x));
    }
}

/// Decrypting what ZipCrypto encrypted with the same keys gives the
/// plaintext back.
pub proof fn zipcrypto_roundtrip(keys: ZipCryptoKeys, plain: Seq<u8>)
    ensures
        zipcrypto_decrypt(keys, zipcrypto_encrypt(keys, plain)) == plain,
    decreases plain.len(),
{
    if plain.len() > 0 {
        let p1 = plain.drop_last();
        let c = zipcrypto_encrypt(keys, plain);
        assert forall|i: int| 0 <= i < p1.len() implies p1.take(i) =~= plain.take(i) by {}
        assert(c.drop_last() =~= zipcrypto_encrypt(keys, p1));
        zipcrypto_roundtrip(keys, p1);
        assert(plain.take(p1.len() as int) =~= p1);
        let p = plain.last();
        let k = keys.after(p1).keystream();
        assert((p ^ k) ^ k == p) by (bit_vector);
        assert(p1.push(p) =~= plain);
    }
}

/// Decrypts `data` with `keys`, leaving the keys where the stream ends.
fn zipcrypto_run(keys: &mut ZipCryptoKeys, data: &[u8]) -> (out: Vec<u8>)
    ensures
        out@ == zipcrypto_decrypt(*old(keys), data@),
        *final(keys) == old(keys).after(out@),
{
    let ghost start = *keys;
    let mut out: Vec<u8> = Vec::new();
    for i in 0..data.len()
        invariant
            out@ == zipcrypto_decrypt(start, data@.take(i as int)),
            *keys == start.after(out@),
    {
        proof {
            assert(data@.take(i + 1).drop_last() =~= data@.take(i as int));
        }
        let ghost before = out@;
        let plain = keys.decrypt(data[i]);
        out.push(plain);
        proof {
            assert(out@.drop_last() =~= before);
        }
    }
    proof {
        assert(data@.take(data@.len() as int) =~= data@);
    }
    out
}

/// The check byte at the end of a ZipCrypto header: the high byte of the DOS
/// time for an entry written as a stream (it has a data descriptor),
/// otherwise the high byte of the CRC32.
pub open spec fn spec_zipcrypto_check_byte(flags: u16, dos_time: u16, crc32: u32) -> u8 {
    if flags & 8 != 0 {
        (dos_time >> 8) as u8
    } else {
        (crc32 >> 24) as u8
    }
}

fn zipcrypto_check_byte(flags: u16, dos_time: u16, crc32: u32) -> (res: u8)
    ensures
        res == spec_zipcrypto_check_byte(flags, dos_time, crc32),
{
    if flags & 8 != 0 {
        (dos_time >> 8) as u8
    } else {
        (crc32 >> 24) as u8
    }
}

/// What ZipCrypto decryption makes of an entry's raw bytes: the whole
/// stream is decrypted with the keys the password sets up; the first twelve
/// bytes are the header, whose last byte must be the check byte.
pub open spec fn spec_decrypt_zipcrypto(raw: Seq<u8>, check: u8, password: Seq<u8>) -> Result<
    Seq<u8>,
    CryptError,
> {
    if raw.len() < ZIPCRYPTO_HEADER_LEN {
        Err(CryptError::TooShort)
    } else {
        let plain = zipcrypto_decrypt(ZipCryptoKeys::initial().after(password), raw);
        if plain[ZIPCRYPTO_HEADER_LEN - 1] != check {
            Err(CryptError::Password(PasswordKind::Wrong))
        } else {
            Ok(plain.skip(ZIPCRYPTO_HEADER_LEN as int))
        }
    }
}

/// A decryption result with the bytes taken by their view.
pub open spec fn bytes_result(res: Result<Vec<u8>, CryptError>) -> Result<Seq<u8>, CryptError> {
    match res {
        Ok(v) => Ok(v@),
        Err(e) => Err(e),
    }
}

/// Takes ZipCrypto off an entry's raw bytes.
pub fn decrypt_zipcrypto(raw: &[u8], entry: &RawEntry, password: &Secret) -> (res: Result<
    Vec<u8>,
    CryptError,
>)
    ensures
        bytes_result(res) == spec_decrypt_zipcrypto(
            raw@,
            spec_zipcrypto_check_byte(entry.flags, entry.dos_time, entry.crc32),
            password@,
        ),
{
    if raw.len() < ZIPCRYPTO_HEADER_LEN {
        return Err(CryptError::TooShort);
    }
    let mut keys = ZipCryptoKeys::new(password.bytes());
    let ghost k0 = keys;
    let header = zipcrypto_run(&mut keys, &raw[0..ZIPCRYPTO_HEADER_LEN]);
    proof {
        lemma_decrypt_len(k0, raw@.subrange(0, ZIPCRYPTO_HEADER_LEN as int));
        lemma_decrypt_concat(
            k0,
            raw@.subrange(0, ZIPCRYPTO_HEADER_LEN as int),
            raw@.skip(ZIPCRYPTO_HEADER_LEN as int),
        );
        assert(raw@.subrange(0, ZIPCRYPTO_HEADER_LEN as int) + raw@.skip(
            ZIPCRYPTO_HEADER_LEN as int,
        ) =~= raw@);
    }
    let expected = zipcrypto_check_byte(entry.flags, entry.dos_time, entry.crc32);
    if header[ZIPCRYPTO_HEADER_LEN - 1] != expected {
        return Err(CryptError::Password(PasswordKind::Wrong));
    }
    let out = zipcrypto_run(&mut keys, &raw[ZIPCRYPTO_HEADER_LEN..raw.len()]);
    proof {
        assert(raw@.subrange(ZIPCRYPTO_HEADER_LEN as int, raw@.len() as int) =~= raw@.skip(
            ZIPCRYPTO_HEADER_LEN as int,
        ));
        let plain = zipcrypto_decrypt(k0, raw@);
        assert(plain.skip(ZIPCRYPTO_HEADER_LEN as int) =~= out@);
    }
    Ok(out)
}

// ---------------------------------------------------------------------------
// WinZip AES
// ---------------------------------------------------------------------------

/// What `pbkdf2::pbkdf2_hmac::<sha1::Sha1>` writes into a buffer of `len`
/// bytes for this password, salt and round count.
pub uninterp spec fn pbkdf2_hmac_sha1(password: Seq<u8>, salt: Seq<u8>, rounds: u32, len: nat) -> Seq<u8>;

/// The tag `hmac::Hmac::<sha1::Sha1>` computes over `data` with `key`.
pub uninterp spec fn hmac_sha1(key: Seq<u8>, data: Seq<u8>) -> Seq<u8>;

/// The first `len` bytes of the AES-128 keystream of `ctr::Ctr128LE` for
/// this key and initial counter block.
pub uninterp spec fn aes128_ctr_le_keystream(key: Seq<u8>, iv: Seq<u8>, len: nat) -> Seq<u8>;

/// The same for AES-192.
pub uninterp spec fn aes192_ctr_le_keystream(key: Seq<u8>, iv: Seq<u8>, len: nat) -> Seq<u8>;

/// The same for AES-256.
pub uninterp spec fn aes256_ctr_le_keystream(key: Seq<u8>, iv: Seq<u8>, len: nat) -> Seq<u8>;

/// Fills a buffer of `len` bytes with `pbkdf2::pbkdf2_hmac::<sha1::Sha1>`.
/// HMAC takes a key of any length, so the derivation does not fail; its
/// block counter is 32 bits wide, which `len` stays far below.
#[verifier::external_body]
fn derive_pbkdf2_hmac_sha1(password: &[u8], salt: &[u8], rounds: u32, len: usize) -> (res: Vec<u8>)
    requires
        len <= 0x1_0000,
    ensures
        res@ == pbkdf2_hmac_sha1(password@, salt@, rounds, len as nat),
        res@.len() == len,
{
    let mut out = vec![0u8; len];
    pbkdf2::pbkdf2_hmac::<Sha1>(password, salt, rounds, &mut out);
    out
}

/// `hmac::Hmac::<sha1::Sha1>` keyed with `key`, fed `data` and finalized:
/// the 20-byte HMAC-SHA1 tag. `new_from_slice` accepts a key of any length.
#[verifier::external_body]
fn compute_hmac_sha1(key: &[u8], data: &[u8]) -> (tag: Vec<u8>)
    ensures
        tag@ == hmac_sha1(key@, data@),
        tag@.len() == 20,
{
    let mut mac = <Hmac<Sha1> as KeyInit>::new_from_slice(key).expect("HMAC accepts a key of any length");
    mac.update(data);
    mac.finalize().into_bytes().to_vec()
}

/// `ctr::Ctr128LE::<aes::Aes128>::new_from_slices(key, iv)` and then
/// `apply_keystream` on `data`. The constructor refuses a key or IV that is
/// not 16 bytes long, and then nothing is touched; otherwise `data` is XORed
/// with the keystream of that key and IV. The counter is 128 bits wide, so
/// the keystream does not run out.
#[verifier::external_body]
fn aes128_ctr_le(key: &[u8], iv: &[u8], data: &mut Vec<u8>) -> (ok: bool)
    ensures
        ok == (key@.len() == 16 && iv@.len() == 16),
        ok ==> final(data)@ == xor_bytes(old(data)@, aes128_ctr_le_keystream(key@, iv@, old(data)@.len())),
        !ok ==> final(data)@ == old(data)@,
{
    match ctr::Ctr128LE::<aes::Aes128>::new_from_slices(key, iv) {
        Ok(mut cipher) => {
            cipher.apply_keystream(data.as_mut_slice());
            true
        },
        Err(_) => false,
    }
}

/// `ctr::Ctr128LE::<aes::Aes192>`, as for AES-128 but with a 24-byte key.
#[verifier::external_body]
fn aes192_ctr_le(key: &[u8], iv: &[u8], data: &mut Vec<u8>) -> (ok: bool)
    ensures
        ok == (key@.len() == 24 && iv@.len() == 16),
        ok ==> final(data)@ == xor_bytes(old(data)@, aes192_ctr_le_keystream(key@, iv@, old(data)@.len())),
        !ok ==> final(data)@ == old(data)@,
{
    match ctr::Ctr128LE::<aes::Aes192>::new_from_slices(key, iv) {
        Ok(mut cipher) => {
            cipher.apply_keystream(data.as_mut_slice());
            true
        },
        Err(_) => false,
    }
}

/// `ctr::Ctr128LE::<aes::Aes256>`, as for AES-128 but with a 32-byte key.
#[verifier::external_body]
fn aes256_ctr_le(key: &[u8], iv: &[u8], data: &mut Vec<u8>) -> (ok: bool)
    ensures
        ok == (key@.len() == 32 && iv@.len() == 16),
        ok ==> final(data)@ == xor_bytes(old(data)@, aes256_ctr_le_keystream(key@, iv@, old(data)@.len())),
        !ok ==> final(data)@ == old(data)@,
{
    match ctr::Ctr128LE::<aes::Aes256>::new_from_slices(key, iv) {
        Ok(mut cipher) => {
            cipher.apply_keystream(data.as_mut_slice());
            true
        },
        Err(_) => false,
    }
}

/// Whether the AES extra field names a key size this reader knows.
pub open spec fn known_strength(strength: u8) -> bool {
    1 <= strength <= 3
}

/// Salt length for each AES strength.
pub open spec fn aes_salt_len(strength: u8) -> nat {
    if strength == 1 {
        8
    } else if strength == 2 {
        12
    } else {
        16
    }
}

/// Key length for each AES strength.
pub open spec fn aes_key_len(strength: u8) -> nat {
    if strength == 1 {
        16
    } else if strength == 2 {
        24
    } else {
        32
    }
}

/// The initial counter block: WinZip counts little-endian from one, which is
/// exactly where it differs from the usual NIST big-endian counter.
pub open spec fn aes_ctr_iv() -> Seq<u8> {
    Seq::new(16, |i: int| if i == 0 { 1u8 } else { 0u8 })
}

/// The keystream for a strength, key and length.
pub open spec fn aes_ctr_keystream(strength: u8, key: Seq<u8>, len: nat) -> Seq<u8> {
    if strength == 1 {
        aes128_ctr_le_keystream(key, aes_ctr_iv(), len)
    } else if strength == 2 {
        aes192_ctr_le_keystream(key, aes_ctr_iv(), len)
    } else {
        aes256_ctr_le_keystream(key, aes_ctr_iv(), len)
    }
}

/// Salt and key length for an AES strength, `None` for an unknown one.
pub fn aes_sizes(strength: u8) -> (res: Option<(usize, usize)>)
    ensures
        match res {
            Some((salt_len, key_len)) => known_strength(strength) && salt_len == aes_salt_len(
                strength,
            ) && key_len == aes_key_len(strength),
            None => !known_strength(strength),
        },
{
    match strength {
        1 => Some((8, 16)),
        2 => Some((12, 24)),
        3 => Some((16, 32)),
        _ => None,
    }
}

/// AES-CTR the WinZip way, in place.
pub fn apply_aes_ctr(strength: u8, key: &[u8], data: &mut Vec<u8>) -> (res: Result<(), CryptError>)
    ensures
        res is Ok <==> known_strength(strength) && key@.len() == aes_key_len(strength),
        res is Ok ==> final(data)@ == xor_bytes(old(data)@, aes_ctr_keystream(strength, key@, old(data)@.len())),
        res is Err ==> final(data)@ == old(data)@,
        res == Err::<(), CryptError>(CryptError::UnknownStrength { strength }) <==> !known_strength(strength),
        res == Err::<(), CryptError>(CryptError::BadKeyLength) <==> known_strength(strength) && key@.len() != aes_key_len(strength),
{
    let iv: Vec<u8> = vec![1u8, 0, 0, 0, 0, 0, 0, 0, 0, 0, 0, 0, 0, 0, 0, 0];
    assert(iv@ =~= aes_ctr_iv());
    let ok = match strength {
        1 => aes128_ctr_le(key, iv.as_slice(), data),
        2 => aes192_ctr_le(key, iv.as_slice(), data),
        3 => aes256_ctr_le(key, iv.as_slice(), data),
        _ => return Err(CryptError::UnknownStrength { strength }),
    };
    if ok {
        Ok(())
    } else {
        Err(CryptError::BadKeyLength)
    }
}

/// Applying the same keystream twice gives the data back: AES-CTR decrypts
/// what it encrypted.
pub proof fn aes_ctr_is_its_own_inverse(strength: u8, key: Seq<u8>, data: Seq<u8>)
    ensures
        xor_bytes(
            xor_bytes(data, aes_ctr_keystream(strength, key, data.len())),
            aes_ctr_keystream(strength, key, data.len()),
        ) == data,
{
    let ks = aes_ctr_keystream(strength, key, data.len());
    let once = xor_bytes(data, ks);
    assert forall|i: int| 0 <= i < data.len() implies #[trigger] xor_bytes(once, ks)[i] == data[i] by {
        let d = data[i];
        let k = ks[i];
        assert((d ^ k) ^ k == d) by (bit_vector);
    }
    assert(xor_bytes(once, ks) =~= data);
}

/// Whether the two password-verification bytes derived from the password
/// match the two stored after the salt.
pub fn aes_verifier_matches(derived: &[u8], key_len: usize, stored: &[u8]) -> (res: bool)
    requires
        derived@.len() == 2 * key_len + AES_PV_LEN,
    ensures
        res == (derived@.subrange(2 * key_len, 2 * key_len + AES_PV_LEN) == stored@),
{
    let start = derived.len() - AES_PV_LEN;
    bytes_eq(&derived[start..derived.len()], stored)
}

/// Whether the stored authentication code is the start of the HMAC tag.
pub fn aes_auth_code_matches(tag: &[u8], auth_code: &[u8]) -> (res: bool)
    requires
        tag@.len() >= AES_AUTH_CODE_LEN,
    ensures
        res == (tag@.take(AES_AUTH_CODE_LEN as int) == auth_code@),
{
    bytes_eq(&tag[0..AES_AUTH_CODE_LEN], auth_code)
}

/// What WinZip AES decryption makes of an entry's raw bytes: salt, two
/// verification bytes, the ciphertext, and ten bytes of HMAC. The key
/// material comes from PBKDF2 over the password and salt; the verification
/// bytes are checked first, then the HMAC over the ciphertext, and only then
/// is the ciphertext decrypted.
pub open spec fn spec_decrypt_aes(raw: Seq<u8>, strength: u8, password: Seq<u8>) -> Result<
    Seq<u8>,
    CryptError,
> {
    if !known_strength(strength) {
        Err(CryptError::UnknownStrength { strength })
    } else {
        let s = aes_salt_len(strength) as int;
        let k = aes_key_len(strength) as int;
        if raw.len() < s + AES_PV_LEN + AES_AUTH_CODE_LEN {
            Err(CryptError::TooShort)
        } else {
            let derived = pbkdf2_hmac_sha1(
                password,
                raw.take(s),
                AES_PBKDF2_ROUNDS,
                (2 * k + AES_PV_LEN) as nat,
            );
            let ciphertext = raw.subrange(s + AES_PV_LEN, raw.len() - AES_AUTH_CODE_LEN);
            if derived.subrange(2 * k, 2 * k + AES_PV_LEN) != raw.subrange(s, s + AES_PV_LEN) {
                Err(CryptError::Password(PasswordKind::Wrong))
            } else if hmac_sha1(derived.subrange(k, 2 * k), ciphertext).take(
                AES_AUTH_CODE_LEN as int,
            ) != raw.skip(raw.len() - AES_AUTH_CODE_LEN) {
                Err(CryptError::AuthFailed)
            } else {
                Ok(
                    xor_bytes(
                        ciphertext,
                        aes_ctr_keystream(strength, derived.take(k), ciphertext.len()),
                    ),
                )
            }
        }
    }
}

/// Takes WinZip AES off an entry's raw bytes.
pub fn decrypt_aes(raw: &[u8], info: AesInfo, password: &Secret) -> (res: Result<Vec<u8>, CryptError>)
    ensures
        bytes_result(res) == spec_decrypt_aes(raw@, info.strength, password@),
{
    let (salt_len, key_len) = match aes_sizes(info.strength) {
        Some(sizes) => sizes,
        None => return Err(CryptError::UnknownStrength { strength: info.strength }),
    };
    let overhead = salt_len + AES_PV_LEN + AES_AUTH_CODE_LEN;
    if raw.len() < overhead {
        return Err(CryptError::TooShort);
    }
    let salt = &raw[0..salt_len];
    let pv = &raw[salt_len..salt_len + AES_PV_LEN];
    let ciphertext = &raw[salt_len + AES_PV_LEN..raw.len() - AES_AUTH_CODE_LEN];
    let auth_code = &raw[raw.len() - AES_AUTH_CODE_LEN..raw.len()];

    // Three things are derived from the password at once: the encryption
    // key, the HMAC key, and two bytes for a quick password check.
    let derived = derive_pbkdf2_hmac_sha1(
        password.bytes(),
        salt,
        AES_PBKDF2_ROUNDS,
        key_len * 2 + AES_PV_LEN,
    );
    if !aes_verifier_matches(derived.as_slice(), key_len, pv) {
        return Err(CryptError::Password(PasswordKind::Wrong));
    }

    // The authentication code is checked before decrypting: if it does not
    // match, no "decrypted" bytes are handed out.
    let tag = compute_hmac_sha1(&derived[key_len..key_len * 2], ciphertext);
    if !aes_auth_code_matches(tag.as_slice(), auth_code) {
        return Err(CryptError::AuthFailed);
    }

    let mut out = vstd::slice::slice_to_vec(ciphertext);
    let applied = apply_aes_ctr(info.strength, &derived[0..key_len], &mut out);
    assert(applied is Ok);
    assert(raw@.subrange(raw@.len() - AES_AUTH_CODE_LEN, raw@.len() as int) =~= raw@.skip(
        raw@.len() - AES_AUTH_CODE_LEN,
    ));
    assert(raw@.subrange(0, salt_len as int) =~= raw@.take(salt_len as int));
    assert(derived@.subrange(0, key_len as int) =~= derived@.take(key_len as int));
    Ok(out)
}

/// An entry's raw bytes with the encryption taken off: WinZip AES where the
/// entry has the AES extra field, ZipCrypto otherwise.
pub open spec fn spec_decrypt_entry(raw: Seq<u8>, entry: RawEntry, password: Option<Seq<u8>>) -> Result<
    Seq<u8>,
    CryptError,
> {
    match password {
        None => Err(CryptError::Password(PasswordKind::Missing)),
        Some(pw) => match entry.aes {
            Some(info) => spec_decrypt_aes(raw, info.strength, pw),
            None => spec_decrypt_zipcrypto(
                raw,
                spec_zipcrypto_check_byte(entry.flags, entry.dos_time, entry.crc32),
                pw,
            ),
        },
    }
}

/// Takes the encryption off an entry's raw bytes and returns the compressed
/// stream: WinZip AES where the entry has the AES extra field, ZipCrypto
/// otherwise.
pub fn decrypt_entry(raw: &[u8], entry: &RawEntry, password: Option<&Secret>) -> (res: Result<
    Vec<u8>,
    CryptError,
>)
    ensures
        bytes_result(res) == spec_decrypt_entry(
            raw@,
            *entry,
            match password {
                Some(pw) => Some(pw@),
                None => None,
            },
        ),
{
    let password = match password {
        Some(pw) => pw,
        None => return Err(CryptError::Password(PasswordKind::Missing)),
    };
    match entry.aes {
        Some(info) => decrypt_aes(raw, info, password),
        None => decrypt_zipcrypto(raw, entry, password),
    }
}

} // verus!
