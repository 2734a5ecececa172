//! Random access into entries: which bytes a read gets, and, for large
//! deflate entries, the checkpoint index (the `zran` technique) — when a
//! checkpoint is taken, what it keeps, and how the decoder gets to a wanted
//! position the cheapest way.

use vstd::prelude::*;

verus! {

// ---------------------------------------------------------------------------
// Which bytes a read gets
// ---------------------------------------------------------------------------

/// The part of an entry of `len` bytes that a read of `want` bytes at
/// `offset` gets: `None` for an empty read or one at or past the end.
pub open spec fn spec_read_window(len: u64, offset: u64, want: usize) -> Option<(u64, u64)> {
    if want == 0 || offset >= len {
        None
    } else {
        let end = if offset + want <= len {
            offset + want
        } else {
            len as int
        };
        Some((offset, end as u64))
    }
}

/// The window as start and end positions in the entry.
pub fn read_window(len: u64, offset: u64, want: usize) -> (res: Option<(u64, u64)>)
    ensures
        res == spec_read_window(len, offset, want),
{
    if want == 0 || offset >= len {
        return None;
    }
    let left = len - offset;
    let end = if (want as u64) <= left {
        offset + want as u64
    } else {
        len
    };
    Some((offset, end))
}

/// Copies the window of `data` that a read of `buf.len()` bytes at `offset`
/// gets into `buf`; returns how many bytes that was (0 at the end).
pub fn copy_window(data: &[u8], offset: u64, buf: &mut Vec<u8>) -> (n: usize)
    ensures
        final(buf)@.len() == old(buf)@.len(),
        match spec_read_window(data@.len() as u64, offset, old(buf)@.len() as usize) {
            None => n == 0 && final(buf)@ == old(buf)@,
            Some((s, e)) => n == e - s && final(buf)@ == data@.subrange(s as int, e as int)
                + old(buf)@.skip(n as int),
        },
{
    let dl = data.len();
    let want = buf.len();
    match read_window(dl as u64, offset, want) {
        None => 0,
        Some((s, e)) => {
            let start = s as usize;
            let n = (e - s) as usize;
            let ghost before = buf@;
            let mut i: usize = 0;
            while i < n
                invariant
                    i <= n <= want,
                    start + n <= dl,
                    dl == data@.len(),
                    buf@.len() == before.len(),
                    before.len() == want,
                    buf@ == data@.subrange(start as int, start + i) + before.skip(i as int),
                decreases n - i,
            {
                buf.set(i, data[start + i]);
                i = i + 1;
                assert(buf@ =~= data@.subrange(start as int, start + i) + before.skip(i as int));
            }
            n
        },
    }
}

// ---------------------------------------------------------------------------
// The checkpoint index
// ---------------------------------------------------------------------------

/// Size of the deflate sliding window. Fixed by the format.
pub const WINDOW: usize = 32768;

/// Span between checkpoints, in decompressed data: at 16 MB, a gigabyte of
/// data gets 64 points — 2 MB of index — and any seek costs at most 16 MB of
/// decompression.
pub const DEFAULT_SPAN: u64 = 16_777_216;

/// Lower bound for the span: each point costs 32 KB of dictionary, and below
/// a megabyte the index weighs a noticeable share of the data.
pub const MIN_SPAN: u64 = 524_288;

/// Memory ceiling for the index of one entry.
pub const MAX_INDEX_BYTES: u64 = 33_554_432;

/// An index pays off only on entries that expand to at least this much:
/// for small ones, restarting the stream is cheaper.
pub const MIN_INDEXABLE: u64 = 4_194_304;

/// The span for an entry that expands to `total_out` bytes: the smallest at
/// which the index fits in its memory ceiling, kept between `MIN_SPAN` and
/// `span_cap` (or `MIN_SPAN`, if the cap is below it).
pub open spec fn spec_index_span(span_cap: u64, total_out: u64) -> u64 {
    let product = total_out * 32768;
    let saturated = if product <= u64::MAX { product } else { u64::MAX as int };
    let by_memory = saturated / 33_554_432;
    let hi = if span_cap >= 524_288 { span_cap as int } else { 524_288 };
    (if by_memory < 524_288 {
        524_288
    } else if by_memory > hi {
        hi
    } else {
        by_memory
    }) as u64
}

pub fn index_span(span_cap: u64, total_out: u64) -> (res: u64)
    ensures
        res == spec_index_span(span_cap, total_out),
{
    let product: u64 = if total_out > u64::MAX / 32768 {
        u64::MAX
    } else {
        total_out * 32768
    };
    let by_memory = product / MAX_INDEX_BYTES;
    let hi = if span_cap >= MIN_SPAN {
        span_cap
    } else {
        MIN_SPAN
    };
    if by_memory < MIN_SPAN {
        MIN_SPAN
    } else if by_memory > hi {
        hi
    } else {
        by_memory
    }
}

/// The span an index is built with: never below the window.
pub fn build_span(span: u64) -> (res: u64)
    ensures
        res == (if span >= 32768 { span } else { 32768 }),
{
    if span >= WINDOW as u64 {
        span
    } else {
        WINDOW as u64
    }
}

/// Whether the decoder's state after a step is worth a checkpoint: it
/// stopped at a block boundary (bit 7 of `data_type`) that is not the last
/// block's (bit 6), a span or more after the previous point. Only at a
/// boundary is the state restorable from a dictionary.
pub fn takes_checkpoint(data_type: i32, total_out: u64, last_point: u64, span: u64) -> (res: bool)
    requires
        last_point <= total_out,
    ensures
        res == ((data_type & 128) != 0 && (data_type & 64) == 0 && total_out - last_point >= span),
{
    (data_type & 128) != 0 && (data_type & 64) == 0 && total_out - last_point >= span
}

/// How many bits of the previous byte belong to the next block (0 to 7).
pub fn boundary_bits(data_type: i32) -> (res: u8)
    ensures
        res == data_type & 7,
        res <= 7,
{
    let b = data_type & 7;
    assert(0 <= b <= 7) by (bit_vector)
        requires
            b == data_type & 7,
    ;
    b as u8
}

/// The window of the last 32 KB of output in order, from the ring buffer the
/// decoder writes into: the older part lies after the write position, the
/// fresher one before it.
pub open spec fn spec_snapshot(window: Seq<u8>, avail_out: nat) -> Seq<u8> {
    let written = window.len() - avail_out;
    window.skip(written) + window.take(written)
}

pub fn snapshot_window(window: &[u8], avail_out: usize) -> (res: Vec<u8>)
    requires
        avail_out <= window@.len(),
    ensures
        res@ == spec_snapshot(window@, avail_out as nat),
{
    let len = window.len();
    let written = len - avail_out;
    let mut out: Vec<u8> = Vec::new();
    let mut i: usize = written;
    while i < len
        invariant
            written <= i <= len,
            len == window@.len(),
            out@ == window@.subrange(written as int, i as int),
        decreases len - i,
    {
        out.push(window[i]);
        i = i + 1;
        assert(out@ =~= window@.subrange(written as int, i as int));
    }
    let mut j: usize = 0;
    while j < written
        invariant
            j <= written <= len,
            len == window@.len(),
            out@ == window@.skip(written as int) + window@.take(j as int),
        decreases written - j,
    {
        out.push(window[j]);
        j = j + 1;
        assert(out@ =~= window@.skip(written as int) + window@.take(j as int));
    }
    out
}

/// The value `inflatePrime` gets to resume mid-byte: the top `bits` bits of
/// the byte before the checkpoint.
pub fn prime_value(byte: u8, bits: u8) -> (res: i32)
    requires
        1 <= bits <= 7,
    ensures
        res == byte >> ((8 - bits) as u8),
{
    (byte >> (8 - bits)) as i32
}

/// Whether positions rise strictly.
pub open spec fn rising(points: Seq<u64>) -> bool {
    forall|i: int, j: int| 0 <= i < j < points.len() ==> points[i] < points[j]
}

/// The nearest checkpoint at or before `offset`, as an index into the
/// checkpoints' output positions.
pub fn point_before(points: &Vec<u64>, offset: u64) -> (res: Option<usize>)
    requires
        rising(points@),
    ensures
        match res {
            None => forall|i: int| 0 <= i < points@.len() ==> points@[i] > offset,
            Some(i) => i < points@.len() && points@[i as int] <= offset && forall|j: int|
                i < j < points@.len() ==> points@[j] > offset,
        },
{
    let mut lo: usize = 0;
    let mut hi: usize = points.len();
    while lo < hi
        invariant
            lo <= hi <= points@.len(),
            rising(points@),
            forall|i: int| 0 <= i < lo ==> points@[i] <= offset,
            forall|i: int| hi <= i < points@.len() ==> points@[i] > offset,
        decreases hi - lo,
    {
        let mid = lo + (hi - lo) / 2;
        if points[mid] <= offset {
            lo = mid + 1;
        } else {
            hi = mid;
        }
    }
    if lo == 0 {
        None
    } else {
        Some(lo - 1)
    }
}

/// Enough state to resume decoding at a block boundary: the position in the
/// output, the compressed bytes consumed, how many bits of the previous byte
/// belong to the next block, and the 32 KB of output before the point.
pub struct Checkpoint {
    pub out_pos: u64,
    pub in_pos: u64,
    pub bits: u8,
    pub window: Vec<u8>,
}

/// Checkpoints every span or so of a deflate stream's output.
pub struct DeflateIndex {
    points: Vec<Checkpoint>,
    span: u64,
}

pub open spec fn positions_of(points: Seq<Checkpoint>) -> Seq<u64> {
    points.map_values(|p: Checkpoint| p.out_pos)
}

impl DeflateIndex {
    pub closed spec fn points(&self) -> Seq<Checkpoint> {
        self.points@
    }

    pub closed spec fn span_of(&self) -> u64 {
        self.span
    }

    /// Checkpoints in rising order of position.
    pub closed spec fn wf(&self) -> bool {
        rising(positions_of(self.points@))
    }

    /// How many checkpoints the index has.
    pub fn point_count(&self) -> (res: usize)
        ensures
            res == self.points().len(),
    {
        self.points.len()
    }

    /// The span the index was built with.
    pub fn span(&self) -> (res: u64)
        ensures
            res == self.span_of(),
    {
        self.span
    }

    /// How much memory the index takes: a window and the bookkeeping per
    /// checkpoint (held at `usize::MAX`).
    pub fn memory_bytes(&self) -> (res: usize)
        ensures
            res == (if self.points().len() * (32768 + vstd::layout::size_of::<Checkpoint>())
                <= usize::MAX {
                self.points().len() * (32768 + vstd::layout::size_of::<Checkpoint>())
            } else {
                usize::MAX as nat
            }),
    {
        let per = std::mem::size_of::<Checkpoint>();
        let n = self.points.len();
        match WINDOW.checked_add(per) {
            Some(each) => match n.checked_mul(each) {
                Some(total) => total,
                None => usize::MAX,
            },
            None => {
                if n == 0 {
                    return 0;
                }
                assert(n * (32768 + per) > usize::MAX) by (nonlinear_arith)
                    requires
                        32768 + per > usize::MAX,
                        n >= 1,
                ;
                usize::MAX
            },
        }
    }

    /// The nearest checkpoint at or before `offset`.
    pub fn point_before(&self, offset: u64) -> (res: Option<&Checkpoint>)
        requires
            self.wf(),
        ensures
            match res {
                None => forall|i: int| 0 <= i < self.points().len() ==> self.points()[i].out_pos > offset,
                Some(p) => exists|i: int|
                    0 <= i < self.points().len() && *p == self.points()[i] && p.out_pos <= offset
                        && forall|j: int| i < j < self.points().len() ==> self.points()[j].out_pos > offset,
            },
    {
        let mut lo: usize = 0;
        let mut hi: usize = self.points.len();
        let ghost pos = positions_of(self.points@);
        while lo < hi
            invariant
                lo <= hi <= self.points@.len(),
                pos == positions_of(self.points@),
                rising(pos),
                forall|i: int| 0 <= i < lo ==> self.points@[i].out_pos <= offset,
                forall|i: int| hi <= i < self.points@.len() ==> self.points@[i].out_pos > offset,
            decreases hi - lo,
        {
            let mid = lo + (hi - lo) / 2;
            if self.points[mid].out_pos <= offset {
                proof {
                    assert forall|i: int| 0 <= i < mid + 1 implies self.points@[i].out_pos <= offset by {
                        if i < mid {
                            assert(pos[i] < pos[mid as int]);
                        }
                    }
                }
                lo = mid + 1;
            } else {
                proof {
                    assert forall|i: int| mid <= i < self.points@.len() implies self.points@[i].out_pos
                        > offset by {
                        if i > mid {
                            assert(pos[mid as int] < pos[i]);
                        }
                    }
                }
                hi = mid;
            }
        }
        if lo == 0 {
            assert(hi == 0);
            assert forall|i: int| 0 <= i < self.points().len() implies self.points()[i].out_pos > offset by {
                assert(hi <= i);
            }
            None
        } else {
            let p = &self.points[lo - 1];
            assert(*p == self.points()[lo - 1]);
            assert forall|j: int| lo - 1 < j < self.points().len() implies self.points()[j].out_pos
                > offset by {
                assert(hi <= j);
            }
            Some(p)
        }
    }
}

/// The pass that builds an index: what the decoder has consumed and produced
/// so far, and where the last checkpoint went. The caller runs the decoder a
/// block at a time and reports each step.
pub struct IndexBuilder {
    index: DeflateIndex,
    total_in: u64,
    total_out: u64,
    last_point: u64,
}

impl IndexBuilder {
    pub closed spec fn index(&self) -> DeflateIndex {
        self.index
    }

    pub closed spec fn consumed(&self) -> u64 {
        self.total_in
    }

    pub closed spec fn produced(&self) -> u64 {
        self.total_out
    }

    /// Where the last checkpoint went (0 before the first).
    pub closed spec fn last_point(&self) -> u64 {
        self.last_point
    }

    /// The checkpoints rise, each a span or more after the one before, and
    /// none lies beyond what has been produced.
    pub closed spec fn wf(&self) -> bool {
        let pos = positions_of(self.index.points@);
        &&& rising(pos)
        &&& self.index.span >= 32768
        &&& self.last_point <= self.total_out
        &&& forall|i: int| 0 <= i < pos.len() ==> pos[i] <= self.last_point
    }

    /// A pass that has read nothing yet, with checkpoints at least `span`
    /// apart (and never closer than the window).
    pub fn new(span: u64) -> (res: Self)
        ensures
            res.wf(),
            res.index().points().len() == 0,
            res.index().span_of() == (if span >= 32768 { span } else { 32768 }),
            res.consumed() == 0,
            res.produced() == 0,
    {
        IndexBuilder {
            index: DeflateIndex { points: Vec::new(), span: build_span(span) },
            total_in: 0,
            total_out: 0,
            last_point: 0,
        }
    }

    /// One step of the decoder, which consumed and produced the given byte
    /// counts and stopped in the state `data_type`, writing into the ring
    /// buffer `window` with `avail_out` bytes of it left. Where the step ends
    /// at an inner block boundary a span or more after the last checkpoint,
    /// a checkpoint is taken there; the result says whether one was.
    pub fn after_step(
        &mut self,
        consumed: u64,
        produced: u64,
        data_type: i32,
        window: &[u8],
        avail_out: usize,
    ) -> (took: bool)
        requires
            old(self).wf(),
            old(self).consumed() + consumed <= u64::MAX,
            old(self).produced() + produced <= u64::MAX,
            avail_out <= window@.len(),
        ensures
            final(self).wf(),
            final(self).consumed() == old(self).consumed() + consumed,
            final(self).produced() == old(self).produced() + produced,
            final(self).index().span_of() == old(self).index().span_of(),
            final(self).last_point() == (if took { final(self).produced() } else { old(self).last_point() }),
            took == ((data_type & 128) != 0 && (data_type & 64) == 0 && old(self).produced()
                + produced - old(self).last_point() >= old(self).index().span_of()),
            took ==> final(self).index().points().len() == old(self).index().points().len() + 1
                && final(self).index().points().drop_last() == old(self).index().points()
                && final(self).index().points().last().out_pos == final(self).produced()
                && final(self).index().points().last().in_pos == final(self).consumed()
                && final(self).index().points().last().bits == data_type & 7
                && final(self).index().points().last().window@ == spec_snapshot(
                window@,
                avail_out as nat,
            ),
            !took ==> final(self).index().points() == old(self).index().points(),
    {
        self.total_in = self.total_in + consumed;
        self.total_out = self.total_out + produced;
        let took = takes_checkpoint(data_type, self.total_out, self.last_point, self.index.span);
        if took {
            let point = Checkpoint {
                out_pos: self.total_out,
                in_pos: self.total_in,
                bits: boundary_bits(data_type),
                window: snapshot_window(window, avail_out),
            };
            let ghost before = self.index.points@;
            let ghost old_last = self.last_point;
            self.index.points.push(point);
            self.last_point = self.total_out;
            proof {
                let pos = positions_of(self.index.points@);
                assert(pos.len() == before.len() + 1);
                assert(pos[pos.len() - 1] == self.total_out);
                assert forall|i: int| 0 <= i < pos.len() - 1 implies pos[i] <= old_last by {
                    assert(positions_of(before)[i] == pos[i]);
                }
                assert forall|i: int, j: int| 0 <= i < j < pos.len() implies pos[i] < pos[j] by {
                    if j == pos.len() - 1 {
                        assert(positions_of(before)[i] == pos[i]);
                    } else {
                        assert(positions_of(before)[i] == pos[i]);
                        assert(positions_of(before)[j] == pos[j]);
                    }
                }
                assert(self.index.points@.drop_last() =~= before);
            }
        }
        took
    }

    /// The index the pass built.
    pub fn finish(self) -> (res: DeflateIndex)
        requires
            self.wf(),
        ensures
            res == self.index(),
            res.wf(),
    {
        self.index
    }
}

/// How the decoder gets to a wanted position.
#[derive(Debug, Clone, Copy, PartialEq, Eq, Structural)]
pub enum SeekStep {
    /// It is already there.
    Stay,
    /// Decode forwards from where it is.
    Skip,
    /// Restart from the nearest checkpoint (or the start), then skip.
    Restore,
    /// Build the index first, then restore and skip.
    BuildThenRestore,
}

/// The cheapest way to the wanted position: nothing if the decoder is there;
/// forwards if it is before and no checkpoint lies closer to the target;
/// otherwise from a checkpoint. The index is built only when the stream would
/// otherwise be replayed from the very beginning — on a backward read — and
/// only for entries large enough to pay for it.
pub open spec fn spec_plan_seek(
    ready: bool,
    out_pos: u64,
    offset: u64,
    nearest_point: Option<u64>,
    has_index: bool,
    total_out: u64,
) -> SeekStep {
    if ready && out_pos == offset {
        SeekStep::Stay
    } else if ready && out_pos < offset {
        let from_index = match nearest_point {
            Some(p) => p,
            None => 0,
        };
        if from_index <= out_pos {
            SeekStep::Skip
        } else {
            SeekStep::Restore
        }
    } else if ready && offset < out_pos && !has_index && total_out >= 4_194_304 {
        SeekStep::BuildThenRestore
    } else {
        SeekStep::Restore
    }
}

pub fn plan_seek(
    ready: bool,
    out_pos: u64,
    offset: u64,
    nearest_point: Option<u64>,
    has_index: bool,
    total_out: u64,
) -> (res: SeekStep)
    ensures
        res == spec_plan_seek(ready, out_pos, offset, nearest_point, has_index, total_out),
{
    if ready && out_pos == offset {
        return SeekStep::Stay;
    }
    if ready && out_pos < offset {
        let from_index = match nearest_point {
            Some(p) => p,
            None => 0,
        };
        if from_index <= out_pos {
            return SeekStep::Skip;
        }
        return SeekStep::Restore;
    }
    let going_back = ready && offset < out_pos;
    if going_back && !has_index && total_out >= MIN_INDEXABLE {
        SeekStep::BuildThenRestore
    } else {
        SeekStep::Restore
    }
}

/// A seek never plans a restart that a forward read would serve as cheaply:
/// a forward target with no closer checkpoint is reached by skipping.
pub proof fn forward_reads_do_not_restart(out_pos: u64, offset: u64, has_index: bool, total_out: u64)
    requires
        out_pos < offset,
    ensures
        spec_plan_seek(true, out_pos, offset, None, has_index, total_out) == SeekStep::Skip,
{
}

} // verus!
