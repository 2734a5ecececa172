//! End-to-end read verification against the archive's own checksums: which
//! pieces of an entry are read, in which order, and what the result says.

use vstd::prelude::*;

use crate::crc::spec_crc32;
use crate::tree::lex_lt;
use crate::zipfmt::crc32;

verus! {

broadcast use {vstd::seq_lib::group_seq_properties, vstd::multiset::group_multiset_properties};

/// Entries are read in pieces of this size.
pub const CHUNK: usize = 65536;

/// The offsets of the pieces of an entry of `size` bytes, in order.
pub open spec fn sequential_offsets(size: u64) -> Seq<u64> {
    let n = if size % 65536 == 0 { (size / 65536) as int } else { size / 65536 + 1 };
    Seq::new(n as nat, |k: int| (k * 65536) as u64)
}

fn swap(v: &mut Vec<u64>, i: usize, j: usize)
    requires
        i < old(v)@.len(),
        j < old(v)@.len(),
    ensures
        final(v)@ == old(v)@.update(i as int, old(v)@[j as int]).update(j as int, old(v)@[i as int]),
        final(v)@.to_multiset() == old(v)@.to_multiset(),
{
    let a = v[i];
    let b = v[j];
    let ghost s = v@;
    v.set(i, b);
    v.set(j, a);
    proof {
        let s1 = s.update(i as int, b);
        vstd::seq_lib::to_multiset_update(s, i as int, b);
        vstd::seq_lib::to_multiset_update(s1, j as int, a);
        assert(s1[j as int] == b);
        assert(s.to_multiset().count(a) > 0) by {
            vstd::seq_lib::to_multiset_contains(s, a);
            assert(s.contains(a)) by {
                assert(s[i as int] == a);
            }
        }
        assert(s.to_multiset().insert(b).remove(a).insert(a).remove(b) =~= s.to_multiset());
    }
}

/// The offsets of the pieces a verification reads: every `CHUNK` bytes
/// from the start, in order — or, to exercise seeking backwards, shuffled by
/// a fixed sequence of swaps seeded by the entry's number. Either way each
/// piece is read exactly once.
pub fn chunk_offsets(size: u64, random: bool, id: u32) -> (res: Vec<u64>)
    ensures
        res@.to_multiset() == sequential_offsets(size).to_multiset(),
        res@.len() == sequential_offsets(size).len(),
        !random ==> res@ == sequential_offsets(size),
{
    let mut v: Vec<u64> = Vec::new();
    let ghost seq = sequential_offsets(size);
    let n: u64 = if size % 65536 == 0 {
        size / 65536
    } else {
        size / 65536 + 1
    };
    let mut k: u64 = 0;
    while k < n
        invariant
            k <= n,
            n == (if size % 65536 == 0 { (size / 65536) as int } else { size / 65536 + 1 }),
            seq == sequential_offsets(size),
            v@ == seq.take(k as int),
        decreases n - k,
    {
        assert(k * 65536 < size) by (nonlinear_arith)
            requires
                k < n,
                n == (if size % 65536 == 0 { (size / 65536) as int } else { size / 65536 + 1 }),
        ;
        v.push(k * 65536);
        assert(v@ =~= seq.take(k + 1));
        k = k + 1;
    }
    assert(v@ =~= seq);
    if random {
        let len = v.len();
        let step = 2_654_435_761usize.wrapping_add(id as usize);
        let modulus = if len > 1 {
            len
        } else {
            1
        };
        let mut i: usize = 0;
        while i < len
            invariant
                i <= len,
                len == v@.len(),
                modulus >= 1,
                modulus == (if len > 1 { len } else { 1 }),
                v@.to_multiset() == seq.to_multiset(),
            decreases len - i,
        {
            // A deterministic shuffle: reproducibility matters more than the
            // quality of randomness — a failure must repeat.
            let j = i.wrapping_mul(step) % modulus;
            swap(&mut v, i, j);
            i = i + 1;
        }
    }
    v
}

/// What a checked read of an entry says.
#[derive(Debug, Clone, Copy, PartialEq, Eq, Structural)]
pub enum Verdict {
    /// The contents match the stored checksum.
    Matches,
    /// The entry keeps no checksum (WinZip AE-2): the read itself is the
    /// confirmation, since decryption checks the HMAC.
    NoChecksum,
    /// The contents do not match.
    Mismatch { actual: u32, expected: u32 },
}

/// The verdict on contents whose CRC32 is `actual`, against the stored one.
pub fn verdict(expected: Option<u32>, actual: u32) -> (res: Verdict)
    ensures
        res == match expected {
            None => Verdict::NoChecksum,
            Some(e) => if e == actual {
                Verdict::Matches
            } else {
                Verdict::Mismatch { actual, expected: e }
            },
        },
{
    match expected {
        None => Verdict::NoChecksum,
        Some(e) => if e == actual {
            Verdict::Matches
        } else {
            Verdict::Mismatch { actual, expected: e }
        },
    }
}

/// How many bytes the piece at `off` of an entry of `size` bytes holds.
pub fn chunk_len(size: u64, off: u64) -> (res: usize)
    requires
        off < size,
    ensures
        res == (if size - off < 65536 { size - off } else { 65536 }),
{
    let left = size - off;
    if left < 65536 {
        left as usize
    } else {
        CHUNK
    }
}

/// How a file fails verification.
#[derive(Debug, Clone, Copy, PartialEq, Eq, Structural)]
pub enum CheckFailure {
    /// The read stopped short: at `offset`, `got` of the `want` bytes came.
    ShortRead { offset: u64, got: usize, want: usize },
    /// The contents do not match the stored checksum.
    CrcMismatch { actual: u32, expected: u32 },
}

/// How many of the `want` bytes at `off` a reader of `len` bytes yields.
pub open spec fn available(len: int, off: int, want: int) -> int {
    if off >= len {
        0
    } else if len - off < want {
        len - off
    } else {
        want
    }
}


/// Piece `i` of an entry of `size` bytes starts at `i * CHUNK`, inside the
/// entry; the last one reaches its end.
proof fn lemma_piece(size: u64, i: int)
    requires
        0 <= i < sequential_offsets(size).len(),
    ensures
        sequential_offsets(size)[i] == i * 65536,
        i * 65536 < size,
        i == sequential_offsets(size).len() - 1 ==> i * 65536 + (if size - i * 65536 < 65536 {
            size - i * 65536
        } else {
            65536
        }) == size,
        i < sequential_offsets(size).len() - 1 ==> size - i * 65536 > 65536,
{
    let n = sequential_offsets(size).len();
    assert(n == (if size % 65536 == 0 { (size / 65536) as int } else { size / 65536 + 1 }));
    assert(i * 65536 < size && (i == n - 1 ==> size - i * 65536 <= 65536) && (i < n - 1 ==> size
        - i * 65536 > 65536)) by (nonlinear_arith)
        requires
            0 <= i < n,
            n == (if size % 65536 == 0 { (size / 65536) as int } else { size / 65536 + 1 }),
    {
    }
    assert(i * 65536 <= u64::MAX);
}

/// Reading pieces in order from a reader of `len` bytes: if all pieces
/// before piece `k` were whole and piece `k` is not, the reader ends inside
/// piece `k`.
proof fn lemma_short_piece(len: int, k: int, want: int)
    requires
        0 <= k,
        0 <= len,
        0 < want <= 65536,
        k > 0 ==> (k - 1) * 65536 + 65536 <= len,
        k * 65536 >= len || len - k * 65536 < want,
    ensures
        k * 65536 == (len / 65536) * 65536,
{
    assert(len / 65536 == k) by (nonlinear_arith)
        requires
            0 <= k,
            0 <= len,
            0 < want <= 65536,
            k > 0 ==> (k - 1) * 65536 + 65536 <= len,
            k * 65536 >= len || len - k * 65536 < want,
    {
    }
}

/// Reads an entry of `size` bytes, whose reader yields `contents`, the way
/// a reader through the volume would: piece by piece, in the order
/// `chunk_offsets` gives, each piece in full or the read fails there. Then
/// compares the contents with the stored checksum, if there is one.
///
/// Returns the bytes read and whether a checksum confirmed them.
pub fn check_entry(contents: &[u8], size: u64, expected: Option<u32>, random: bool, id: u32) -> (res: Result<(u64, bool), CheckFailure>)
    ensures
        match res {
            Ok((n, checked)) => {
                &&& size <= contents@.len()
                &&& n == size
                &&& checked == expected is Some
                &&& expected matches Some(e) ==> e == spec_crc32(contents@.take(size as int))
            },
            Err(CheckFailure::ShortRead { offset, got, want }) => {
                &&& contents@.len() < size
                &&& sequential_offsets(size).contains(offset)
                &&& want == (if size - offset < 65536 { size - offset } else { 65536 })
                &&& got == available(contents@.len() as int, offset as int, want as int)
                &&& got < want
                &&& !random ==> offset == (contents@.len() / 65536) * 65536
            },
            Err(CheckFailure::CrcMismatch { actual, expected: e }) => {
                &&& size <= contents@.len()
                &&& expected == Some(e)
                &&& actual == spec_crc32(contents@.take(size as int))
                &&& actual != e
            },
        },
{
    let offsets = chunk_offsets(size, random, id);
    let ghost seq = sequential_offsets(size);
    let len = contents.len();
    for k in 0..offsets.len()
        invariant
            offsets@.to_multiset() == seq.to_multiset(),
            offsets@.len() == seq.len(),
            !random ==> offsets@ == seq,
            seq == sequential_offsets(size),
            len == contents@.len(),
            forall|j: int| 0 <= j < k ==> (#[trigger] offsets@[j]) + (if size - offsets@[j] < 65536 { size - offsets@[j] } else { 65536 }) <= len,
    {
        let off = offsets[k];
        proof {
            assert(offsets@.to_multiset().count(off) > 0) by {
                vstd::seq_lib::to_multiset_contains(offsets@, off);
                assert(offsets@.contains(off)) by {
                    assert(offsets@[k as int] == off);
                }
            }
            vstd::seq_lib::to_multiset_contains(seq, off);
            assert(seq.contains(off));
            let i = choose|i: int| 0 <= i < seq.len() && seq[i] == off;
            lemma_piece(size, i);
        }
        let want = chunk_len(size, off);
        let got: usize = if (off as u128) >= (len as u128) {
            0
        } else if ((len as u128) - (off as u128)) < (want as u128) {
            ((len as u128) - (off as u128)) as usize
        } else {
            want
        };
        if got != want {
            proof {
                if !random {
                    // Sequentially, every piece before this one was whole.
                    lemma_piece(size, k as int);
                    if k > 0 {
                        lemma_piece(size, k - 1);
                        assert(offsets@[k - 1] == seq[k - 1]);
                    }
                    lemma_short_piece(len as int, k as int, want as int);
                }
            }
            return Err(CheckFailure::ShortRead { offset: off, got, want });
        }
    }
    proof {
        if size > 0 {
            // The last piece reaches the end of the entry, and it was whole.
            let last = seq.len() - 1;
            lemma_piece(size, last);
            assert(seq.contains(seq[last]));
            vstd::seq_lib::to_multiset_contains(seq, seq[last]);
            vstd::seq_lib::to_multiset_contains(offsets@, seq[last]);
            let j = choose|j: int| 0 <= j < offsets@.len() && offsets@[j] == seq[last];
            assert(offsets@[j] + (if size - offsets@[j] < 65536 { size - offsets@[j] } else { 65536 }) <= len);
        }
    }
    let whole = vstd::slice::slice_subrange(contents, 0, size as usize);
    let actual = crc32(whole);
    match expected {
        Some(e) => if actual != e {
            Err(CheckFailure::CrcMismatch { actual, expected: e })
        } else {
            Ok((size, true))
        },
        None => Ok((size, false)),
    }
}

#[derive(Debug, Clone, Copy)]
pub struct VerifyOptions {
    /// Read a file in shuffled order rather than sequentially. That tests
    /// seeking backwards in the streaming decoder — the most fragile read
    /// path. Applies to zip; in 7z an entry sits in memory whole anyway.
    pub random_access: bool,
    pub cache_budget: usize,
}

impl Default for VerifyOptions {
    fn default() -> (res: Self)
        ensures
            !res.random_access,
            res.cache_budget == 134217728,
    {
        VerifyOptions { random_access: false, cache_budget: 134217728 }
    }
}

#[derive(Debug, Clone)]
pub struct Failure {
    pub path: String,
    pub reason: String,
}

/// The views of a list of failures: (path, reason).
pub open spec fn failure_views(v: Seq<Failure>) -> Seq<(Seq<char>, Seq<char>)> {
    v.map_values(|f: Failure| (f.path@, f.reason@))
}

/// Failures in report order: by path.
pub open spec fn failures_ordered(s: Seq<(Seq<char>, Seq<char>)>) -> bool {
    forall|i: int, j: int| 0 <= i < j < s.len() ==> !lex_lt((#[trigger] s[j]).0, (#[trigger] s[i]).0)
}

/// `slice::sort_by_cached_key` keyed by path: a stable sort by path, in the
/// order of std's strings (bytes, which for UTF-8 is the order of code
/// points).
#[verifier::external_body]
fn sort_failures(v: &mut Vec<Failure>)
    ensures
        final(v)@.len() == old(v)@.len(),
        failure_views(final(v)@).to_multiset() == failure_views(old(v)@).to_multiset(),
        failures_ordered(failure_views(final(v)@)),
{
    v.sort_by_cached_key(|f| f.path.clone());
}

/// What a verification found.
#[derive(Debug)]
pub struct VerifyOutcome {
    pub files_ok: u64,
    pub files_without_checksum: u64,
    pub bytes_read: u64,
    pub failures: Vec<Failure>,
}

/// `a + b` as an atomic counter adds: wrapping past `u64::MAX`.
pub open spec fn tallied(a: u64, b: u64) -> u64 {
    vstd::wrapping::u64_specs::wrapping_add(a, b)
}

impl VerifyOutcome {
    pub fn new() -> (res: Self)
        ensures
            res.files_ok == 0,
            res.files_without_checksum == 0,
            res.bytes_read == 0,
            res.failures@.len() == 0,
    {
        VerifyOutcome { files_ok: 0, files_without_checksum: 0, bytes_read: 0, failures: Vec::new() }
    }

    /// A file read in full: `bytes` read, confirmed by a checksum or not.
    pub fn passed(&mut self, bytes: u64, checked: bool)
        ensures
            final(self).files_ok == (if checked { tallied(old(self).files_ok, 1) } else { old(self).files_ok }),
            final(self).files_without_checksum == (if checked {
                old(self).files_without_checksum
            } else {
                tallied(old(self).files_without_checksum, 1)
            }),
            final(self).bytes_read == tallied(old(self).bytes_read, bytes),
            final(self).failures@ == old(self).failures@,
    {
        if checked {
            self.files_ok = self.files_ok.wrapping_add(1);
        } else {
            self.files_without_checksum = self.files_without_checksum.wrapping_add(1);
        }
        self.bytes_read = self.bytes_read.wrapping_add(bytes);
    }

    /// A file that failed, and why.
    pub fn failed(&mut self, path: String, reason: String)
        ensures
            final(self).files_ok == old(self).files_ok,
            final(self).files_without_checksum == old(self).files_without_checksum,
            final(self).bytes_read == old(self).bytes_read,
            failure_views(final(self).failures@) == failure_views(old(self).failures@).push((path@, reason@)),
    {
        let ghost before = self.failures@;
        self.failures.push(Failure { path, reason });
        assert(failure_views(self.failures@) =~= failure_views(before).push((path@, reason@)));
    }

    /// The outcome in report order: a parallel walk yields an arbitrary
    /// order, so failures are sorted by path.
    pub fn finish(self) -> (res: Self)
        ensures
            res.files_ok == self.files_ok,
            res.files_without_checksum == self.files_without_checksum,
            res.bytes_read == self.bytes_read,
            failure_views(res.failures@).to_multiset() == failure_views(self.failures@).to_multiset(),
            failures_ordered(failure_views(res.failures@)),
    {
        let VerifyOutcome { files_ok, files_without_checksum, bytes_read, failures } = self;
        let mut failures = failures;
        sort_failures(&mut failures);
        VerifyOutcome { files_ok, files_without_checksum, bytes_read, failures }
    }
}

} // verus!
