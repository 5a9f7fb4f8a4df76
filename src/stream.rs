use vstd::prelude::*;

use crate::range::total;

verus! {

/// The reads that stream the inclusive range `[a, b]`: consecutive pieces of
/// `c` bytes, the last one possibly shorter. Each read is `(offset, length)`.
pub open spec fn range_reads(a: int, b: int, c: int) -> Seq<(int, int)>
    decreases b - a,
{
    if c <= 0 || a > b {
        Seq::empty()
    } else if b - a + 1 <= c {
        seq![(a, b - a + 1)]
    } else {
        seq![(a, c)] + range_reads(a + c, b, c)
    }
}

/// The reads that stream the ranges one after the other, in order.
pub open spec fn reads(rs: Seq<(u64, u64)>, c: int) -> Seq<(int, int)>
    decreases rs.len(),
{
    if rs.len() == 0 {
        Seq::empty()
    } else {
        range_reads(rs[0].0 as int, rs[0].1 as int, c) + reads(rs.skip(1), c)
    }
}

/// The bytes of `file` that the reads deliver, in order.
pub open spec fn body(file: Seq<u8>, rd: Seq<(int, int)>) -> Seq<u8>
    decreases rd.len(),
{
    if rd.len() == 0 {
        Seq::empty()
    } else {
        file.subrange(rd[0].0, rd[0].0 + rd[0].1) + body(file, rd.skip(1))
    }
}

/// The slices `[a, b]` of `file`, one after the other.
pub open spec fn slices(file: Seq<u8>, rs: Seq<(u64, u64)>) -> Seq<u8>
    decreases rs.len(),
{
    if rs.len() == 0 {
        Seq::empty()
    } else {
        file.subrange(rs[0].0 as int, rs[0].1 + 1) + slices(file, rs.skip(1))
    }
}

/// The number of bytes that the reads deliver.
pub open spec fn read_total(rd: Seq<(int, int)>) -> int
    decreases rd.len(),
{
    if rd.len() == 0 {
        0
    } else {
        rd[0].1 + read_total(rd.skip(1))
    }
}

pub open spec fn ordered(rs: Seq<(u64, u64)>) -> bool {
    forall|k: int| 0 <= k < rs.len() ==> (#[trigger] rs[k]).0 <= rs[k].1
}

/// The reading side of a response body: which bytes of the file to read next,
/// one bounded chunk at a time, for a whole file or for a list of ranges.
pub struct ChunkStream {
    /// The ranges, inclusive; those before `pos` are done, and the one at
    /// `pos` has its start advanced past the bytes already read.
    pub ranges: Vec<(u64, u64)>,
    pub pos: usize,
    pub chunk_size: usize,
}

impl ChunkStream {
    pub open spec fn wf(&self) -> bool {
        &&& self.chunk_size > 0
        &&& self.pos <= self.ranges@.len()
        &&& ordered(self.pending())
    }

    /// The ranges that are still to be read.
    pub open spec fn pending(&self) -> Seq<(u64, u64)> {
        self.ranges@.skip(self.pos as int)
    }

    /// The reads that remain, in order.
    pub open spec fn remaining(&self) -> Seq<(int, int)> {
        reads(self.pending(), self.chunk_size as int)
    }

    /// Streams a whole file of `size` bytes.
    pub fn whole(size: u64, chunk_size: usize) -> (r: Self)
        requires
            chunk_size > 0,
        ensures
            r.wf(),
            r.chunk_size == chunk_size,
            r.pending() == (if size == 0 {
                Seq::<(u64, u64)>::empty()
            } else {
                seq![(0u64, (size - 1) as u64)]
            }),
    {
        let mut ranges: Vec<(u64, u64)> = Vec::new();
        if size > 0 {
            ranges.push((0, size - 1));
        }
        let r = ChunkStream { ranges, pos: 0, chunk_size };
        assert(r.pending() =~= r.ranges@);
        r
    }

    /// Streams the ranges in the order given.
    pub fn ranges(ranges: Vec<(u64, u64)>, chunk_size: usize) -> (r: Self)
        requires
            chunk_size > 0,
            ordered(ranges@),
        ensures
            r.wf(),
            r.chunk_size == chunk_size,
            r.pending() == ranges@,
    {
        let r = ChunkStream { ranges, pos: 0, chunk_size };
        assert(r.pending() =~= r.ranges@);
        r
    }

    /// The next read, as `(offset, length)`, or `None` once the body is complete.
    pub fn next_read(&mut self) -> (r: Option<(u64, usize)>)
        requires
            old(self).wf(),
        ensures
            final(self).wf(),
            final(self).chunk_size == old(self).chunk_size,
            old(self).remaining().len() == 0 ==> r is None,
            old(self).remaining().len() > 0 ==> (r matches Some(p) && p.0 == old(self).remaining()[0].0
                && p.1 == old(self).remaining()[0].1 && final(self).remaining() == old(
                self,
            ).remaining().skip(1)),
    {
        let ghost p = self.pending();
        let ghost c = self.chunk_size as int;
        if self.pos >= self.ranges.len() {
            assert(p.len() == 0);
            return None;
        }
        let (a, b) = self.ranges[self.pos];
        assert(p[0] == (a, b));
        assert(a <= b);
        let cs = self.chunk_size;
        if b - a < cs as u64 {
            self.pos = self.pos + 1;
            proof {
                assert(self.pending() =~= p.skip(1));
                assert(range_reads(a as int, b as int, c) == seq![(a as int, b - a + 1)]);
                assert(reads(p, c) == seq![(a as int, b - a + 1)] + reads(p.skip(1), c));
                assert((seq![(a as int, b - a + 1)] + reads(p.skip(1), c)).skip(1) =~= reads(
                    p.skip(1),
                    c,
                ));
            }
            Some((a, (b - a + 1) as usize))
        } else {
            let i = self.pos;
            self.ranges.set(i, (a + cs as u64, b));
            proof {
                let q = self.pending();
                assert(q =~= p.update(0, ((a + cs) as u64, b)));
                assert(q.skip(1) =~= p.skip(1));
                let rest = range_reads(a + c, b as int, c);
                assert(range_reads(a as int, b as int, c) == seq![(a as int, c)] + rest);
                assert(reads(q, c) == rest + reads(p.skip(1), c));
                assert((seq![(a as int, c)] + rest + reads(p.skip(1), c)).skip(1) =~= rest + reads(
                    p.skip(1),
                    c,
                ));
                assert(reads(p, c) == seq![(a as int, c)] + rest + reads(p.skip(1), c));
            }
            Some((a, cs))
        }
    }
}


/// What the worker that feeds a response body does next.
#[derive(Debug, Clone, Copy, PartialEq, Eq, Structural)]
pub enum PumpStep {
    /// Read `length` bytes at `offset`; the result, chunk or error, is the
    /// item now held.
    Read(u64, usize),
    /// Offer the held item to the body channel again.
    Send,
    /// Stop and drop the file.
    Finish,
}

/// How the body channel took an item.
#[derive(Debug, Clone, Copy, PartialEq, Eq, Structural)]
pub enum Delivery {
    Sent,
    /// The channel is full: keep the item and come back later.
    Full,
    /// The peer is gone.
    Closed,
}

/// The decisions of the worker that reads a file and feeds its body channel:
/// one item is held while the channel is full, so that nothing is read twice;
/// a closed channel or a failed read ends the work.
pub struct Pump {
    pub stream: ChunkStream,
    /// An item was read and is not delivered yet.
    pub holding: bool,
    /// The held item is a read error: the last item of the body.
    pub last: bool,
    /// The work is over; nothing more is read.
    pub closed: bool,
}

impl Pump {
    pub open spec fn wf(&self) -> bool {
        &&& self.stream.wf()
        &&& self.last ==> self.holding
    }

    pub fn new(stream: ChunkStream) -> (r: Pump)
        requires
            stream.wf(),
        ensures
            r.wf(),
            r.stream == stream,
            !r.holding,
            !r.last,
            !r.closed,
    {
        Pump { stream, holding: false, last: false, closed: false }
    }

    /// The next move: nothing once closed; the held item while there is one;
    /// else the next read of the stream, or the end when there is none.
    pub fn next(&mut self) -> (s: PumpStep)
        requires
            old(self).wf(),
        ensures
            final(self).wf(),
            old(self).closed ==> s == PumpStep::Finish && *final(self) == *old(self),
            !old(self).closed && old(self).holding ==> s == PumpStep::Send && *final(self) == *old(
                self,
            ),
            !old(self).closed && !old(self).holding && old(self).stream.remaining().len() == 0 ==> s
                == PumpStep::Finish && final(self).closed,
            !old(self).closed && !old(self).holding && old(self).stream.remaining().len() > 0 ==> ({
                let rd = old(self).stream.remaining();
                &&& s matches PumpStep::Read(o, l) && o == rd[0].0 && l == rd[0].1
                &&& final(self).stream.remaining() == rd.skip(1)
                &&& final(self).holding
                &&& !final(self).last
                &&& !final(self).closed
            }),
    {
        if self.closed {
            return PumpStep::Finish;
        }
        if self.holding {
            return PumpStep::Send;
        }
        match self.stream.next_read() {
            Some((o, l)) => {
                self.holding = true;
                PumpStep::Read(o, l)
            },
            None => {
                self.closed = true;
                PumpStep::Finish
            },
        }
    }

    /// The read just made failed: its error is the body's last item.
    pub fn failed(&mut self)
        requires
            old(self).wf(),
            old(self).holding,
        ensures
            final(self).wf(),
            *final(self) == (Pump { last: true, ..*old(self) }),
    {
        self.last = true;
    }

    /// Records how the channel took the held item. A delivered error, or a
    /// closed channel, ends the work and drops the item; a full channel keeps
    /// the item.
    pub fn delivered(&mut self, d: Delivery)
        requires
            old(self).wf(),
            old(self).holding,
        ensures
            final(self).wf(),
            final(self).stream == old(self).stream,
            d == Delivery::Sent ==> !final(self).holding && final(self).closed == old(self).last,
            d == Delivery::Full ==> *final(self) == *old(self),
            d == Delivery::Closed ==> final(self).closed && !final(self).holding,
    {
        match d {
            Delivery::Sent => {
                self.closed = self.last;
                self.holding = false;
                self.last = false;
            },
            Delivery::Full => {},
            Delivery::Closed => {
                self.closed = true;
                self.holding = false;
                self.last = false;
            },
        }
    }
}

// ---------------------------------------------------------------------------
// Laws
// ---------------------------------------------------------------------------

proof fn lemma_body_append(f: Seq<u8>, x: Seq<(int, int)>, y: Seq<(int, int)>)
    ensures
        body(f, x + y) == body(f, x) + body(f, y),
        read_total(x + y) == read_total(x) + read_total(y),
    decreases x.len(),
{
    if x.len() == 0 {
        assert(x + y =~= y);
    } else {
        assert((x + y).skip(1) =~= x.skip(1) + y);
        lemma_body_append(f, x.skip(1), y);
        assert((x + y)[0] == x[0]);
    }
}

proof fn lemma_range_reads(f: Seq<u8>, a: int, b: int, c: int)
    requires
        0 <= a <= b < f.len(),
        c > 0,
    ensures
        body(f, range_reads(a, b, c)) == f.subrange(a, b + 1),
        read_total(range_reads(a, b, c)) == b - a + 1,
        forall|k: int|
            0 <= k < range_reads(a, b, c).len() ==> 0 < (#[trigger] range_reads(a, b, c)[k]).1
                <= c,
    decreases b - a,
{
    let rd = range_reads(a, b, c);
    if b - a + 1 <= c {
        assert(rd.skip(1) =~= Seq::<(int, int)>::empty());
        assert(read_total(rd.skip(1)) == 0);
        assert(body(f, rd.skip(1)) == Seq::<u8>::empty());
        assert(f.subrange(a, b + 1) + Seq::<u8>::empty() =~= f.subrange(a, b + 1));
    } else {
        let rest = range_reads(a + c, b, c);
        lemma_range_reads(f, a + c, b, c);
        lemma_body_append(f, seq![(a, c)], rest);
        let one = seq![(a, c)];
        assert(one.skip(1) =~= Seq::<(int, int)>::empty());
        assert(body(f, one.skip(1)) == Seq::<u8>::empty());
        assert(read_total(one.skip(1)) == 0);
        assert(body(f, one) =~= f.subrange(a, a + c));
        assert(f.subrange(a, a + c) + f.subrange(a + c, b + 1) =~= f.subrange(a, b + 1));
        assert forall|k: int| 0 <= k < rd.len() implies 0 < (#[trigger] rd[k]).1 <= c by {
            if k > 0 {
                assert(rd[k] == rest[k - 1]);
            }
        }
    }
}

/// Every read of a stream is at most one chunk long, and not empty.
pub proof fn lemma_reads_bounded(rs: Seq<(u64, u64)>, c: int)
    requires
        ordered(rs),
        c > 0,
    ensures
        forall|k: int| 0 <= k < reads(rs, c).len() ==> 0 < (#[trigger] reads(rs, c)[k]).1 <= c,
    decreases rs.len(),
{
    if rs.len() > 0 {
        let t = rs.skip(1);
        assert(ordered(t)) by {
            assert forall|k: int| 0 <= k < t.len() implies (#[trigger] t[k]).0 <= t[k].1 by {
                assert(t[k] == rs[k + 1]);
            }
        }
        lemma_reads_bounded(t, c);
        let (a, b) = (rs[0].0 as int, rs[0].1 as int);
        let f = Seq::new((b + 1) as nat, |i: int| 0u8);
        lemma_range_reads(f, a, b, c);
        let x = range_reads(a, b, c);
        let rd = reads(rs, c);
        assert forall|k: int| 0 <= k < rd.len() implies 0 < (#[trigger] rd[k]).1 <= c by {
            if k < x.len() {
                assert(rd[k] == x[k]);
            } else {
                assert(rd[k] == reads(t, c)[k - x.len()]);
            }
        }
    }
}

proof fn lemma_total_front(rs: Seq<(u64, u64)>)
    requires
        rs.len() > 0,
    ensures
        total(rs) == (rs[0].1 - rs[0].0 + 1) + total(rs.skip(1)),
    decreases rs.len(),
{
    if rs.len() > 1 {
        lemma_total_front(rs.drop_last());
        assert(rs.drop_last().skip(1) =~= rs.skip(1).drop_last());
    } else {
        assert(rs.skip(1) =~= Seq::<(u64, u64)>::empty());
        assert(rs.drop_last() =~= Seq::<(u64, u64)>::empty());
    }
}

/// Streaming ranges delivers exactly their bytes, range after range in the
/// order requested, and as many bytes as the ranges cover.
pub proof fn lemma_stream_ranges(f: Seq<u8>, rs: Seq<(u64, u64)>, c: int)
    requires
        ordered(rs),
        forall|k: int| 0 <= k < rs.len() ==> (#[trigger] rs[k]).1 < f.len(),
        c > 0,
    ensures
        body(f, reads(rs, c)) == slices(f, rs),
        read_total(reads(rs, c)) == total(rs),
    decreases rs.len(),
{
    if rs.len() > 0 {
        let t = rs.skip(1);
        assert(ordered(t)) by {
            assert forall|k: int| 0 <= k < t.len() implies (#[trigger] t[k]).0 <= t[k].1 by {
                assert(t[k] == rs[k + 1]);
            }
        }
        assert forall|k: int| 0 <= k < t.len() implies (#[trigger] t[k]).1 < f.len() by {
            assert(t[k] == rs[k + 1]);
        }
        lemma_stream_ranges(f, t, c);
        assert(rs[0].0 <= rs[0].1 && rs[0].1 < f.len());
        lemma_range_reads(f, rs[0].0 as int, rs[0].1 as int, c);
        lemma_body_append(f, range_reads(rs[0].0 as int, rs[0].1 as int, c), reads(t, c));
        lemma_total_front(rs);
    }
}

/// Streaming a whole file delivers the file, byte for byte, in as many bytes
/// as its size; an empty file gives no read at all. This is the same body as
/// streaming the single range `0-(size-1)`.
pub proof fn lemma_stream_whole(f: Seq<u8>, c: int)
    requires
        c > 0,
        f.len() <= u64::MAX,
    ensures
        f.len() == 0 ==> reads(Seq::empty(), c).len() == 0,
        f.len() > 0 ==> body(f, reads(seq![(0u64, (f.len() - 1) as u64)], c)) == f,
        f.len() > 0 ==> read_total(reads(seq![(0u64, (f.len() - 1) as u64)], c)) == f.len(),
{
    if f.len() > 0 {
        let rs = seq![(0u64, (f.len() - 1) as u64)];
        lemma_stream_ranges(f, rs, c);
        assert(rs.skip(1) =~= Seq::<(u64, u64)>::empty());
        assert(slices(f, rs.skip(1)) == Seq::<u8>::empty());
        assert(slices(f, rs) =~= f.subrange(0, f.len() as int) + Seq::<u8>::empty());
        assert(f.subrange(0, f.len() as int) =~= f);
        assert(total(rs.drop_last()) == 0);
    }
}

} // verus!
