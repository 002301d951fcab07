//! Bounded output ring for long-running jobs, addressed by absolute byte offset.
//!
//! The ring keeps at most `capacity_bytes` of the most recent output. When
//! over capacity it drops the oldest whole chunk first; a single chunk that
//! alone exceeds the capacity loses its oldest prefix. Every eviction is
//! accounted (`is_lossy`, `omitted_chunks`, `omitted_bytes`).
//!
//! Reads are split over two cursors that never disturb each other: observers
//! read at offsets they hold themselves ([`JobRing::read_at`], which never
//! moves anything), and the consumer advances its own cursor through
//! [`JobRing::consume`].
//!
//! The contracts speak of [`JobRing::stream`], every byte ever pushed: the
//! retained content is the suffix of that stream starting at the base offset.

use vstd::prelude::*;

verus! {

/// A contiguous run of output starting at an absolute byte offset.
#[derive(Debug, Clone, PartialEq, Eq)]
pub struct Chunk {
    offset: u64,
    bytes: Vec<u8>,
}

/// Copies a byte slice into a fresh vector.
pub fn copy_bytes(b: &[u8]) -> (v: Vec<u8>)
    ensures
        v@ == b@,
{
    let mut v: Vec<u8> = Vec::new();
    let mut i: usize = 0;
    while i < b.len()
        invariant
            i <= b@.len(),
            v@ == b@.take(i as int),
        decreases b@.len() - i,
    {
        v.push(b[i]);
        assert(b@.take(i as int + 1) =~= b@.take(i as int).push(b@[i as int]));
        i = i + 1;
    }
    assert(v@ =~= b@);
    v
}

impl Chunk {
    /// The offset of the chunk's first byte.
    pub closed spec fn spec_offset(&self) -> u64 {
        self.offset
    }

    /// The chunk's content.
    pub closed spec fn spec_bytes(&self) -> Seq<u8> {
        self.bytes@
    }

    /// A chunk starting at absolute byte offset `offset`.
    pub fn new(offset: u64, bytes: &[u8]) -> (c: Self)
        ensures
            c.spec_offset() == offset,
            c.spec_bytes() == bytes@,
    {
        Chunk { offset, bytes: copy_bytes(bytes) }
    }

    /// Absolute offset of the first byte.
    pub fn offset(&self) -> (o: u64)
        ensures
            o == self.spec_offset(),
    {
        self.offset
    }

    /// The chunk's content.
    pub fn bytes(&self) -> (b: &[u8])
        ensures
            b@ == self.spec_bytes(),
    {
        self.bytes.as_slice()
    }

    /// Absolute offset just past the last byte.
    pub fn end(&self) -> (e: u64)
        requires
            self.spec_offset() + self.spec_bytes().len() <= u64::MAX,
        ensures
            e == self.spec_offset() + self.spec_bytes().len(),
    {
        self.offset + self.bytes.len() as u64
    }
}

/// The result of one read.
#[derive(Debug, Clone, PartialEq, Eq)]
pub struct RingSlice {
    /// Absolute offset of the first returned byte.
    pub start: u64,
    /// The returned content.
    pub bytes: Vec<u8>,
    /// The requested offset lay before the retained base: that content was evicted.
    pub omitted_before: bool,
}

impl RingSlice {
    /// Number of returned bytes.
    pub fn len(&self) -> (n: usize)
        ensures
            n == self.bytes@.len(),
    {
        self.bytes.len()
    }

    /// Whether nothing was returned.
    pub fn is_empty(&self) -> (b: bool)
        ensures
            b == (self.bytes@.len() == 0),
    {
        self.bytes.len() == 0
    }
}

/// Snapshot of retention and cursors.
#[derive(Debug, Clone, PartialEq, Eq)]
pub struct RingStats {
    /// Absolute offset where retained content starts.
    pub base_offset: u64,
    /// Absolute offset just past the last produced byte.
    pub end_offset: u64,
    /// The consumer cursor.
    pub consumer_cursor: u64,
    /// Bytes currently retained.
    pub retained_bytes: u64,
    /// Whether anything was ever evicted.
    pub lossy: bool,
    /// Whole chunks evicted.
    pub omitted_chunks: u64,
    /// Bytes evicted (whole chunks and trimmed prefixes).
    pub omitted_bytes: u64,
}

/// Concatenated content of a chunk sequence.
pub closed spec fn content(cs: Seq<Chunk>) -> Seq<u8>
    decreases cs.len(),
{
    if cs.len() == 0 {
        Seq::empty()
    } else {
        cs[0].bytes@ + content(cs.drop_first())
    }
}

proof fn lemma_content_empty()
    ensures
        content(Seq::<Chunk>::empty()) == Seq::<u8>::empty(),
{
}

proof fn lemma_content_push(cs: Seq<Chunk>, c: Chunk)
    ensures
        content(cs.push(c)) =~= content(cs) + c.bytes@,
    decreases cs.len(),
{
    lemma_content_empty();
    if cs.len() > 0 {
        assert(cs.push(c).drop_first() =~= cs.drop_first().push(c));
        lemma_content_push(cs.drop_first(), c);
        assert(content(cs.push(c)) == cs[0].bytes@ + content(cs.drop_first().push(c)));
        assert(content(cs) == cs[0].bytes@ + content(cs.drop_first()));
    } else {
        assert(cs.push(c).drop_first() =~= Seq::<Chunk>::empty());
        assert(cs.push(c)[0] == c);
        assert(content(cs.push(c)) == c.bytes@ + content(Seq::<Chunk>::empty()));
        assert(content(cs) == Seq::<u8>::empty());
    }
}

proof fn lemma_content_take(cs: Seq<Chunk>, i: int)
    requires
        0 <= i < cs.len(),
    ensures
        content(cs.take(i + 1)) =~= content(cs.take(i)) + cs[i].bytes@,
{
    assert(cs.take(i + 1) =~= cs.take(i).push(cs[i]));
    lemma_content_push(cs.take(i), cs[i]);
}

proof fn lemma_content_split(cs: Seq<Chunk>, k: int)
    requires
        0 <= k <= cs.len(),
    ensures
        content(cs) =~= content(cs.take(k)) + content(cs.skip(k)),
    decreases k,
{
    lemma_content_empty();
    if k == 0 {
        assert(cs.take(0) =~= Seq::<Chunk>::empty());
        assert(cs.skip(0) =~= cs);
    } else {
        lemma_content_split(cs, k - 1);
        lemma_content_take(cs, k - 1);
        let t = cs.skip(k - 1);
        assert(t.drop_first() =~= cs.skip(k));
        assert(t[0] == cs[k - 1]);
        assert(content(t) == cs[k - 1].bytes@ + content(cs.skip(k)));
    }
}

proof fn lemma_content_prefix_mono(cs: Seq<Chunk>, i: int, j: int)
    requires
        0 <= i <= j <= cs.len(),
    ensures
        content(cs.take(i)).len() <= content(cs.take(j)).len(),
    decreases j - i,
{
    if i < j {
        lemma_content_take(cs, j - 1);
        lemma_content_prefix_mono(cs, i, j - 1);
    }
}

proof fn lemma_content_prefix_len(cs: Seq<Chunk>, i: int, j: int)
    requires
        0 <= i <= j <= cs.len(),
    ensures
        content(cs.take(i)).len() <= content(cs.take(j)).len(),
        content(cs.take(j)).len() <= content(cs).len(),
{
    lemma_content_prefix_mono(cs, i, j);
    lemma_content_prefix_mono(cs, j, cs.len() as int);
    assert(cs.take(cs.len() as int) =~= cs);
}

/// Sum of a list of chunk lengths.
pub open spec fn lens_total(lens: Seq<int>) -> int
    decreases lens.len(),
{
    if lens.len() == 0 {
        0
    } else {
        lens[0] + lens_total(lens.drop_first())
    }
}

/// How many of the oldest chunks eviction drops whole: one at a time,
/// while the total is over `cap` and more than one chunk is held.
pub open spec fn whole_drops(lens: Seq<int>, cap: int) -> nat
    decreases lens.len(),
{
    if lens.len() >= 2 && lens_total(lens) > cap {
        1 + whole_drops(lens.drop_first(), cap)
    } else {
        0
    }
}

/// The chunk lengths eviction leaves: those after the whole drops; a single
/// chunk still over `cap` keeps its last `cap` bytes, and none when `cap`
/// is zero.
pub open spec fn kept_lens(lens: Seq<int>, cap: int) -> Seq<int> {
    let rest = lens.skip(whole_drops(lens, cap) as int);
    if lens_total(rest) <= cap {
        rest
    } else if cap > 0 {
        seq![cap]
    } else {
        Seq::empty()
    }
}

proof fn lemma_lens_total_content(cs: Seq<Chunk>)
    ensures
        lens_total(cs.map_values(|c: Chunk| c.bytes@.len() as int)) == content(cs).len(),
    decreases cs.len(),
{
    let ls = cs.map_values(|c: Chunk| c.bytes@.len() as int);
    if cs.len() > 0 {
        assert(ls.drop_first() =~= cs.drop_first().map_values(|c: Chunk| c.bytes@.len() as int));
        lemma_lens_total_content(cs.drop_first());
    } else {
        assert(content(cs) == Seq::<u8>::empty());
    }
}

proof fn lemma_whole_drops_bound(lens: Seq<int>, cap: int)
    ensures
        whole_drops(lens, cap) <= lens.len(),
    decreases lens.len(),
{
    if lens.len() >= 2 && lens_total(lens) > cap {
        lemma_whole_drops_bound(lens.drop_first(), cap);
    }
}

proof fn lemma_whole_drop_step(lens: Seq<int>, cap: int)
    requires
        lens.len() >= 2,
        lens_total(lens) > cap,
    ensures
        whole_drops(lens, cap) == 1 + whole_drops(lens.drop_first(), cap),
        kept_lens(lens, cap) == kept_lens(lens.drop_first(), cap),
{
    let k = whole_drops(lens.drop_first(), cap) as int;
    lemma_whole_drops_bound(lens.drop_first(), cap);
    assert(lens.skip(1 + k) =~= lens.drop_first().skip(k));
}

proof fn lemma_fits_keeps_all(lens: Seq<int>, cap: int)
    requires
        lens_total(lens) <= cap,
    ensures
        whole_drops(lens, cap) == 0,
        kept_lens(lens, cap) == lens,
{
    assert(lens.skip(0) =~= lens);
}

/// Bounded output ring: chunks addressed by absolute byte offset, two cursors.
pub struct JobRing {
    chunks: Vec<Chunk>,
    capacity_bytes: usize,
    retained_bytes: u64,
    end_offset: u64,
    consumer_cursor: u64,
    lossy: bool,
    omitted_chunks: u64,
    omitted_bytes: u64,
    stream: Ghost<Seq<u8>>,
}

impl JobRing {
    /// Every byte ever pushed, in order.
    pub closed spec fn stream(&self) -> Seq<u8> {
        self.stream@
    }

    /// Absolute offset where retained content starts.
    pub closed spec fn base(&self) -> int {
        if self.chunks@.len() == 0 {
            self.end_offset as int
        } else {
            self.chunks@[0].offset as int
        }
    }

    /// The retained content.
    pub closed spec fn retained(&self) -> Seq<u8> {
        content(self.chunks@)
    }

    /// The lengths of the retained chunks, oldest first.
    pub closed spec fn chunk_lens(&self) -> Seq<int> {
        self.chunks@.map_values(|c: Chunk| c.bytes@.len() as int)
    }

    /// The retention limit.
    pub closed spec fn capacity(&self) -> nat {
        self.capacity_bytes as nat
    }

    /// The consumer cursor.
    pub closed spec fn cursor(&self) -> int {
        self.consumer_cursor as int
    }

    /// Whether anything was ever evicted.
    pub closed spec fn spec_lossy(&self) -> bool {
        self.lossy
    }

    /// Whole chunks evicted so far.
    pub closed spec fn spec_omitted_chunks(&self) -> nat {
        self.omitted_chunks as nat
    }

    /// Internal consistency of the ring.
    pub closed spec fn wf(&self) -> bool {
        self.wf_except_capacity() && self.retained_bytes <= self.capacity_bytes
    }

    /// An empty ring retaining at most `capacity_bytes` bytes.
    pub fn new(capacity_bytes: usize) -> (r: Self)
        ensures
            r.wf(),
            r.stream() == Seq::<u8>::empty(),
            r.base() == 0,
            r.capacity() == capacity_bytes,
            r.cursor() == 0,
            !r.spec_lossy(),
            r.chunk_lens() == Seq::<int>::empty(),
            r.spec_omitted_chunks() == 0,
    {
        proof {
            lemma_content_empty();
        }
        let r = JobRing {
            chunks: Vec::new(),
            capacity_bytes,
            retained_bytes: 0,
            end_offset: 0,
            consumer_cursor: 0,
            lossy: false,
            omitted_chunks: 0,
            omitted_bytes: 0,
            stream: Ghost(Seq::empty()),
        };
        assert(r.stream@.skip(0) =~= Seq::<u8>::empty());
        assert(r.chunk_lens() =~= Seq::<int>::empty());
        r
    }

    /// The retention limit in bytes.
    pub fn capacity_bytes(&self) -> (c: usize)
        ensures
            c == self.capacity(),
    {
        self.capacity_bytes
    }

    /// Appends a run of output (an empty run appends nothing) and returns
    /// its absolute start offset; then evicts the oldest content until the
    /// ring fits its capacity: whole chunks first, oldest first, and the
    /// oldest prefix of a single chunk that alone is over capacity.
    pub fn push(&mut self, bytes: &[u8]) -> (offset: u64)
        requires
            old(self).wf(),
            old(self).stream().len() + bytes@.len() <= u64::MAX,
        ensures
            final(self).wf(),
            offset == old(self).stream().len(),
            final(self).stream() == old(self).stream() + bytes@,
            final(self).capacity() == old(self).capacity(),
            final(self).cursor() == old(self).cursor(),
            ({
                let lens = if bytes@.len() > 0 {
                    old(self).chunk_lens().push(bytes@.len() as int)
                } else {
                    old(self).chunk_lens()
                };
                &&& final(self).chunk_lens() == kept_lens(lens, old(self).capacity() as int)
                &&& final(self).spec_omitted_chunks() == old(self).spec_omitted_chunks() + whole_drops(
                    lens,
                    old(self).capacity() as int,
                )
            }),
            final(self).retained().len() == lens_total(final(self).chunk_lens()),
            final(self).base() + final(self).retained().len() == final(self).stream().len(),
            final(self).base() >= old(self).base(),
            final(self).retained().len() <= final(self).capacity(),
            old(self).spec_lossy() ==> final(self).spec_lossy(),
    {
        proof {
            lemma_lens_total_content(self.chunks@);
            lemma_fits_keeps_all(self.chunk_lens(), self.capacity() as int);
        }
        let offset = self.end_offset;
        if bytes.len() > 0 {
            let ghost old_cs = self.chunks@;
            let ghost base = self.base();
            let n = bytes.len() as u64;
            let c = Chunk::new(offset, bytes);
            proof {
                lemma_content_push(old_cs, c);
                assert(old_cs.push(c).take(old_cs.len() as int) =~= old_cs);
                assert forall|i: int| 0 <= i < old_cs.len() implies old_cs.push(c).take(i) =~= old_cs.take(i) by {}
            }
            self.chunks.push(c);
            self.end_offset = self.end_offset + n;
            self.retained_bytes = self.retained_bytes + n;
            self.stream = Ghost(self.stream@ + bytes@);
            proof {
                assert(self.base() == base) by {
                    if old_cs.len() > 0 {
                        assert(self.chunks@[0] == old_cs[0]);
                    }
                }
                assert(self.stream@.skip(base) =~= old(self).stream@.skip(base) + bytes@);
                let cs = self.chunks@;
                assert forall|i: int| 0 <= i < cs.len() implies (#[trigger] cs[i]).offset == base
                    + content(cs.take(i)).len() && cs[i].bytes@.len() > 0 by {
                    if i < old_cs.len() {
                        assert(cs.take(i) =~= old_cs.take(i));
                    } else {
                        assert(cs.take(i) =~= old_cs);
                    }
                }
                assert(self.retained_bytes == content(cs).len());
                assert(self.chunk_lens() =~= old(self).chunk_lens().push(bytes@.len() as int));
            }
            self.enforce_capacity();
        }
        proof {
            lemma_lens_total_content(self.chunks@);
        }
        offset
    }

    /// Observer read from absolute offset `offset` to the end of what was
    /// produced; never moves any cursor.
    pub fn read_at(&self, offset: u64) -> (r: RingSlice)
        requires
            self.wf(),
        ensures
            r.start == clamp(offset as int, self.base(), self.stream().len() as int),
            r.bytes@ == self.stream().skip(r.start as int),
            r.omitted_before == (offset < self.base()),
    {
        let r = self.slice_from(offset, usize::MAX);
        proof {
            let s = r.start as int;
            assert(self.stream().subrange(s, self.stream().len() as int) =~= self.stream().skip(s));
        }
        r
    }

    /// Consumer read: at most `max_bytes` from the consumer cursor, then the
    /// cursor moves to the end of what was returned.
    pub fn consume(&mut self, max_bytes: usize) -> (r: RingSlice)
        requires
            old(self).wf(),
        ensures
            final(self).wf(),
            r.start == clamp(old(self).cursor(), old(self).base(), old(self).stream().len() as int),
            r.bytes@ == old(self).stream().subrange(
                r.start as int,
                min_int(r.start + max_bytes, old(self).stream().len() as int),
            ),
            r.omitted_before == (old(self).cursor() < old(self).base()),
            final(self).cursor() == r.start + r.bytes@.len(),
            final(self).stream() == old(self).stream(),
            final(self).base() == old(self).base(),
            final(self).retained() == old(self).retained(),
            final(self).capacity() == old(self).capacity(),
            final(self).spec_lossy() == old(self).spec_lossy(),
            final(self).spec_omitted_chunks() == old(self).spec_omitted_chunks(),
    {
        let slice = self.slice_from(self.consumer_cursor, max_bytes);
        self.consumer_cursor = slice.start + slice.bytes.len() as u64;
        slice
    }

    /// The consumer cursor; only [`JobRing::consume`] moves it.
    pub fn consumer_cursor(&self) -> (c: u64)
        ensures
            c == self.cursor(),
    {
        self.consumer_cursor
    }

    /// Absolute offset where retained content starts.
    pub fn base_offset(&self) -> (b: u64)
        requires
            self.wf(),
        ensures
            b == self.base(),
    {
        if self.chunks.len() == 0 {
            self.end_offset
        } else {
            self.chunks[0].offset
        }
    }

    /// Absolute offset just past the last produced byte.
    pub fn end_offset(&self) -> (e: u64)
        requires
            self.wf(),
        ensures
            e == self.stream().len(),
    {
        self.end_offset
    }

    /// Bytes currently retained.
    pub fn retained_bytes(&self) -> (n: u64)
        requires
            self.wf(),
        ensures
            n == self.retained().len(),
            n == self.stream().len() - self.base(),
    {
        self.retained_bytes
    }

    /// Whether anything was ever evicted.
    pub fn is_lossy(&self) -> (b: bool)
        requires
            self.wf(),
        ensures
            b == self.spec_lossy(),
            b == (self.base() > 0),
    {
        self.lossy
    }

    /// Whole chunks evicted.
    pub fn omitted_chunks(&self) -> (n: u64)
        ensures
            n == self.spec_omitted_chunks(),
    {
        self.omitted_chunks
    }

    /// Bytes evicted: everything before the base offset.
    pub fn omitted_bytes(&self) -> (n: u64)
        requires
            self.wf(),
        ensures
            n == self.base(),
    {
        self.omitted_bytes
    }

    /// Number of retained chunks.
    pub fn chunk_count(&self) -> (n: usize)
        requires
            self.wf(),
        ensures
            n <= self.retained().len(),
    {
        proof {
            self.lemma_chunk_count();
        }
        self.chunks.len()
    }

    proof fn lemma_chunk_count(&self)
        requires
            self.wf(),
        ensures
            self.chunks@.len() <= self.retained().len(),
    {
        let cs = self.chunks@;
        assert forall|i: int| 0 <= i <= cs.len() implies content(cs.take(i)).len() >= i by {
            lemma_count_le(cs, i);
        }
        assert(cs.take(cs.len() as int) =~= cs);
    }

    /// Snapshot of retention and cursors.
    pub fn stats(&self) -> (s: RingStats)
        requires
            self.wf(),
        ensures
            s.base_offset == self.base(),
            s.end_offset == self.stream().len(),
            s.consumer_cursor == self.cursor(),
            s.retained_bytes == self.retained().len(),
            s.lossy == self.spec_lossy(),
            s.omitted_chunks == self.spec_omitted_chunks(),
            s.omitted_bytes == self.base(),
    {
        RingStats {
            base_offset: self.base_offset(),
            end_offset: self.end_offset,
            consumer_cursor: self.consumer_cursor,
            retained_bytes: self.retained_bytes,
            lossy: self.lossy,
            omitted_chunks: self.omitted_chunks,
            omitted_bytes: self.omitted_bytes,
        }
    }

    /// Reads at most `max_bytes` from absolute offset `offset` (no cursor moves).
    fn slice_from(&self, offset: u64, max_bytes: usize) -> (r: RingSlice)
        requires
            self.wf(),
        ensures
            r.start == clamp(offset as int, self.base(), self.stream().len() as int),
            r.bytes@ == self.stream().subrange(
                r.start as int,
                min_int(r.start + max_bytes, self.stream().len() as int),
            ),
            r.omitted_before == (offset < self.base()),
    {
        let base = self.base_offset();
        let start: u64 = if offset < base {
            base
        } else if offset > self.end_offset {
            self.end_offset
        } else {
            offset
        };
        let omitted_before = offset < base;
        let ghost cs = self.chunks@;
        let ghost all = content(cs);
        let ghost s: int = start - base;
        let ghost hi: int = min_int(s + max_bytes, all.len() as int);
        let mut bytes: Vec<u8> = Vec::new();
        let mut i: usize = 0;
        proof {
            assert(cs.take(0) =~= Seq::<Chunk>::empty());
            lemma_content_empty();
            assert(cs.take(cs.len() as int) =~= cs);
        }
        while i < self.chunks.len()
            invariant_except_break
                i <= cs.len(),
                bytes@ == all.subrange(s, min_int(max_int(content(cs.take(i as int)).len() as int, s), hi)),
            invariant
                self.wf(),
                cs == self.chunks@,
                all == content(cs),
                content(cs.take(cs.len() as int)) == all,
                base == self.base(),
                start == base + s,
                0 <= s <= all.len(),
                hi == min_int(s + max_bytes, all.len() as int),
            ensures
                bytes@ == all.subrange(s, hi),
            decreases cs.len() - i,
        {
            let ghost p: int = content(cs.take(i as int)).len() as int;
            proof {
                lemma_content_take(cs, i as int);
                lemma_content_prefix_len(cs, i as int + 1, cs.len() as int);
                assert(cs[i as int].offset == base + p);
            }
            let chunk = &self.chunks[i];
            let clen = chunk.bytes.len();
            let cend: u64 = chunk.offset + clen as u64;
            if cend <= start {
                i = i + 1;
                continue;
            }
            let from: usize = if start > chunk.offset {
                (start - chunk.offset) as usize
            } else {
                0
            };
            let want: usize = max_bytes - bytes.len();
            let avail: usize = clen - from;
            let take: usize = if want < avail { want } else { avail };
            let ghost before = bytes@;
            let mut j: usize = 0;
            while j < take
                invariant
                    j <= take,
                    from + take <= clen,
                    clen == chunk.bytes@.len(),
                    bytes@ == before + chunk.bytes@.subrange(from as int, from + j),
                decreases take - j,
            {
                bytes.push(chunk.bytes[from + j]);
                assert(chunk.bytes@.subrange(from as int, from + j + 1) =~= chunk.bytes@.subrange(
                    from as int,
                    from + j,
                ).push(chunk.bytes@[from + j]));
                j = j + 1;
            }
            proof {
                let q = p + clen;
                assert(content(cs.take(i as int + 1)) == content(cs.take(i as int)) + chunk.bytes@);
                assert(all.subrange(p, q) =~= chunk.bytes@) by {
                    lemma_content_split(cs, i as int + 1);
                    assert(content(cs.take(i as int + 1)) =~= all.take(q));
                    assert(all.take(q).subrange(p, q) =~= all.subrange(p, q));
                }
                assert(bytes@ =~= all.subrange(s, min_int(max_int(q, s), hi)));
            }
            if bytes.len() >= max_bytes {
                break ;
            }
            i = i + 1;
        }
        proof {
            if i == cs.len() {
                assert(cs.take(i as int) =~= cs);
            }
            assert(self.stream().skip(base as int) == all);
            assert(self.stream().subrange(start as int, min_int(start + max_bytes, self.stream().len() as int))
                =~= all.subrange(s, hi));
        }
        RingSlice { start, bytes, omitted_before }
    }

    /// Evicts the oldest content until the retained total fits the capacity.
    fn enforce_capacity(&mut self)
        requires
            old(self).wf_except_capacity(),
        ensures
            final(self).wf(),
            final(self).stream() == old(self).stream(),
            final(self).capacity() == old(self).capacity(),
            final(self).cursor() == old(self).cursor(),
            final(self).base() >= old(self).base(),
            old(self).spec_lossy() ==> final(self).spec_lossy(),
            final(self).chunk_lens() == kept_lens(old(self).chunk_lens(), old(self).capacity() as int),
            final(self).spec_omitted_chunks() == old(self).spec_omitted_chunks() + whole_drops(
                old(self).chunk_lens(),
                old(self).capacity() as int,
            ),
    {
        proof {
            lemma_content_empty();
        }
        let ghost lens0 = self.chunk_lens();
        let ghost cap = self.capacity() as int;
        while self.retained_bytes > self.capacity_bytes as u64
            invariant
                content(Seq::<Chunk>::empty()) == Seq::<u8>::empty(),
                self.wf_except_capacity(),
                self.stream() == old(self).stream(),
                self.capacity() == old(self).capacity(),
                cap == self.capacity(),
                self.cursor() == old(self).cursor(),
                self.base() >= old(self).base(),
                old(self).spec_lossy() ==> self.spec_lossy(),
                self.spec_omitted_chunks() >= old(self).spec_omitted_chunks(),
                lens0 == old(self).chunk_lens(),
                kept_lens(lens0, cap) == kept_lens(self.chunk_lens(), cap),
                whole_drops(lens0, cap) == self.spec_omitted_chunks() - old(self).spec_omitted_chunks()
                    + whole_drops(self.chunk_lens(), cap),
            decreases self.retained_bytes,
        {
            assert(self.chunks@.len() > 0) by {
                if self.chunks@.len() == 0 {
                    assert(self.chunks@ =~= Seq::<Chunk>::empty());
                }
            }
            proof {
                lemma_lens_total_content(self.chunks@);
            }
            if self.chunks.len() == 1 {
                let ghost l = self.chunk_lens();
                proof {
                    assert(l.skip(0) =~= l);
                    assert(l.drop_first() =~= Seq::<int>::empty());
                }
                self.trim_single_front();
                proof {
                    lemma_lens_total_content(self.chunks@);
                    lemma_fits_keeps_all(self.chunk_lens(), cap);
                }
            } else {
                let ghost l = self.chunk_lens();
                proof {
                    lemma_whole_drop_step(l, cap);
                }
                self.drop_front_chunk();
            }
        }
        proof {
            lemma_lens_total_content(self.chunks@);
            lemma_fits_keeps_all(self.chunk_lens(), cap);
        }
    }

    /// The consistency conditions, capacity bound aside.
    closed spec fn wf_except_capacity(&self) -> bool {
        let cs = self.chunks@;
        let base = self.base();
        &&& self.stream@.len() == self.end_offset
        &&& 0 <= base <= self.end_offset
        &&& self.stream@.skip(base) == content(cs)
        &&& self.retained_bytes == content(cs).len()
        &&& forall|i: int|
            0 <= i < cs.len() ==> (#[trigger] cs[i]).offset == base + content(cs.take(i)).len()
                && cs[i].bytes@.len() > 0
        &&& self.omitted_bytes == base
        &&& self.omitted_chunks <= self.omitted_bytes
        &&& self.lossy == (self.omitted_bytes > 0)
        &&& self.consumer_cursor <= self.end_offset
    }

    fn drop_front_chunk(&mut self)
        requires
            old(self).wf_except_capacity(),
            old(self).chunks@.len() >= 2,
        ensures
            final(self).wf_except_capacity(),
            final(self).stream() == old(self).stream(),
            final(self).capacity() == old(self).capacity(),
            final(self).cursor() == old(self).cursor(),
            final(self).base() > old(self).base(),
            final(self).retained_bytes < old(self).retained_bytes,
            final(self).spec_lossy(),
            final(self).spec_omitted_chunks() == old(self).spec_omitted_chunks() + 1,
            final(self).chunk_lens() == old(self).chunk_lens().drop_first(),
    {
        let ghost cs = self.chunks@;
        let ghost base = self.base();
        proof {
            lemma_content_empty();
        }
        let old_chunk = self.chunks.remove(0);
        let len = old_chunk.bytes.len() as u64;
        proof {
            assert(self.chunks@ =~= cs.drop_first());
            assert(content(cs) =~= cs[0].bytes@ + content(cs.drop_first()));
            let nb = base + len;
            let rest = cs.drop_first();
            assert(cs[1].offset == base + content(cs.take(1)).len());
            assert(cs.take(1).drop_first() =~= Seq::<Chunk>::empty());
            assert(content(cs.take(1)) =~= cs[0].bytes@);
            assert(self.base() == nb);
            assert forall|i: int| 0 <= i < rest.len() implies (#[trigger] rest[i]).offset == nb
                + content(rest.take(i)).len() && rest[i].bytes@.len() > 0 by {
                assert(rest[i] == cs[i + 1]);
                assert(cs.take(i + 1).drop_first() =~= rest.take(i));
                assert(content(cs.take(i + 1)) =~= cs[0].bytes@ + content(rest.take(i)));
            }
            assert(self.stream@.skip(nb) =~= self.stream@.skip(base).skip(len as int));
            assert((cs[0].bytes@ + content(rest)).skip(len as int) =~= content(rest));
        }
        proof {
            assert(self.chunk_lens() =~= old(self).chunk_lens().drop_first());
        }
        self.retained_bytes = self.retained_bytes - len;
        self.omitted_chunks = self.omitted_chunks + 1;
        self.omitted_bytes = self.omitted_bytes + len;
        self.lossy = true;
    }

    fn trim_single_front(&mut self)
        requires
            old(self).wf_except_capacity(),
            old(self).chunks@.len() == 1,
            old(self).retained_bytes > old(self).capacity_bytes,
        ensures
            final(self).wf_except_capacity(),
            final(self).stream() == old(self).stream(),
            final(self).capacity() == old(self).capacity(),
            final(self).cursor() == old(self).cursor(),
            final(self).base() > old(self).base(),
            final(self).retained_bytes < old(self).retained_bytes,
            final(self).spec_lossy(),
            final(self).spec_omitted_chunks() == old(self).spec_omitted_chunks(),
            final(self).retained_bytes == old(self).capacity_bytes,
            final(self).chunk_lens() == (if old(self).capacity_bytes > 0 {
                seq![old(self).capacity_bytes as int]
            } else {
                Seq::<int>::empty()
            }),
    {
        let ghost cs = self.chunks@;
        let ghost base = self.base();
        let over_total = self.retained_bytes - self.capacity_bytes as u64;
        proof {
            lemma_content_empty();
        }
        let mut front = self.chunks.remove(0);
        proof {
            assert(cs.drop_first() =~= Seq::<Chunk>::empty());
            assert(content(cs) =~= cs[0].bytes@);
        }
        let flen = front.bytes.len();
        let over: usize = if over_total < flen as u64 {
            over_total as usize
        } else {
            flen
        };
        let rest = front.bytes.split_off(over);
        let new_offset = front.offset + over as u64;
        let ghost nb: int = base + over;
        if rest.len() > 0 {
            let nc = Chunk { offset: new_offset, bytes: rest };
            self.chunks.push(nc);
            proof {
                assert(self.chunks@ =~= seq![nc]);
                assert(self.chunk_lens() =~= seq![nc.bytes@.len() as int]);
                assert(seq![nc].drop_first() =~= Seq::<Chunk>::empty());
                assert(content(self.chunks@) =~= nc.bytes@);
                assert(self.chunks@.take(0) =~= Seq::<Chunk>::empty());
            }
        } else {
            proof {
                assert(self.chunks@ =~= Seq::<Chunk>::empty());
                assert(self.chunk_lens() =~= Seq::<int>::empty());
            }
        }
        proof {
            assert(self.stream@.skip(nb) =~= self.stream@.skip(base).skip(over as int));
            assert(cs[0].bytes@.skip(over as int) =~= cs[0].bytes@.subrange(over as int, flen as int));
        }
        self.retained_bytes = self.retained_bytes - over as u64;
        self.omitted_bytes = self.omitted_bytes + over as u64;
        self.lossy = true;
        proof {
            let ncs = self.chunks@;
            assert(self.base() == nb);
            assert(self.stream@.skip(nb) == content(ncs));
            assert(self.retained_bytes == content(ncs).len());
            assert(self.omitted_bytes == nb);
        }
    }
}

proof fn lemma_count_le(cs: Seq<Chunk>, i: int)
    requires
        0 <= i <= cs.len(),
        forall|j: int| 0 <= j < cs.len() ==> (#[trigger] cs[j]).bytes@.len() > 0,
    ensures
        content(cs.take(i)).len() >= i,
    decreases i,
{
    if i > 0 {
        lemma_count_le(cs, i - 1);
        lemma_content_take(cs, i - 1);
    }
}

/// `x` clamped into `[lo, hi]`.
pub open spec fn clamp(x: int, lo: int, hi: int) -> int {
    if x < lo {
        lo
    } else if x > hi {
        hi
    } else {
        x
    }
}

/// The smaller of two integers.
pub open spec fn min_int(a: int, b: int) -> int {
    if a <= b {
        a
    } else {
        b
    }
}

/// The larger of two integers.
pub open spec fn max_int(a: int, b: int) -> int {
    if a >= b {
        a
    } else {
        b
    }
}

/// What an observer reads at an offset inside the retained window is exactly
/// what was written there: the suffix of the stream from that offset.
pub proof fn read_returns_what_was_written(ring: JobRing, offset: u64, r: RingSlice)
    requires
        ring.wf(),
        ring.base() <= offset <= ring.stream().len(),
        r.start == clamp(offset as int, ring.base(), ring.stream().len() as int),
        r.bytes@ == ring.stream().skip(r.start as int),
    ensures
        r.start == offset,
        r.bytes@ == ring.stream().skip(offset as int),
        !(offset < ring.base()),
{
}

/// The retained window is the tail of the stream, bounded by the capacity,
/// and what was evicted is exactly the part before the base offset.
pub proof fn retention_is_bounded_tail(ring: JobRing)
    requires
        ring.wf(),
    ensures
        ring.retained() == ring.stream().skip(ring.base()),
        ring.retained().len() <= ring.capacity(),
        ring.retained().len() + ring.base() == ring.stream().len(),
        ring.spec_lossy() == (ring.base() > 0),
{
    reveal_closed_wf(ring);
}

proof fn reveal_closed_wf(ring: JobRing)
    requires
        ring.wf(),
    ensures
        ring.retained() == ring.stream().skip(ring.base()),
        ring.retained().len() <= ring.capacity(),
        ring.retained().len() + ring.base() == ring.stream().len(),
        ring.spec_lossy() == (ring.base() > 0),
{
}

} // verus!
