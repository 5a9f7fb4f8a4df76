use vstd::prelude::*;

use crate::text::{dec_of, push_dec};

verus! {

/// One byte range of a `Range: bytes=...` request header.
#[derive(Debug, Clone, Copy, PartialEq, Eq, Structural)]
pub enum ByteRange {
    /// `from-to`, both inclusive.
    FromTo(u64, u64),
    /// `from-`: from an offset to the end.
    AllFrom(u64),
    /// `-n`: the last `n` bytes.
    Last(u64),
}

/// The inclusive byte pair that a requested range covers in a file of `len`
/// bytes, or `None` when it covers nothing.
pub open spec fn satisfiable(r: ByteRange, len: u64) -> Option<(u64, u64)> {
    if len == 0 {
        None
    } else {
        match r {
            ByteRange::FromTo(from, to) => if from < len && from <= to {
                Some((from, if to < len - 1 { to } else { (len - 1) as u64 }))
            } else {
                None
            },
            ByteRange::AllFrom(from) => if from < len {
                Some((from, (len - 1) as u64))
            } else {
                None
            },
            ByteRange::Last(last) => if last == 0 {
                None
            } else if last > len {
                Some((0, (len - 1) as u64))
            } else {
                Some(((len - last) as u64, (len - 1) as u64))
            },
        }
    }
}

/// Relies on hyper's `ByteRangeSpec::to_satisfiable_range`, which clamps a
/// requested range to a file of the given length.
#[verifier::external_body]
fn to_satisfiable_range(r: ByteRange, len: u64) -> (o: Option<(u64, u64)>)
    ensures
        o == satisfiable(r, len),
{
    let spec = match r {
        ByteRange::FromTo(a, b) => hyper::header::ByteRangeSpec::FromTo(a, b),
        ByteRange::AllFrom(a) => hyper::header::ByteRangeSpec::AllFrom(a),
        ByteRange::Last(n) => hyper::header::ByteRangeSpec::Last(n),
    };
    spec.to_satisfiable_range(len)
}

/// Every requested range clamped, when all of them are satisfiable.
pub open spec fn clamped(rs: Seq<ByteRange>, len: u64) -> Option<Seq<(u64, u64)>>
    decreases rs.len(),
{
    if rs.len() == 0 {
        Some(Seq::empty())
    } else {
        match (clamped(rs.drop_last(), len), satisfiable(rs.last(), len)) {
            (Some(c), Some(p)) => Some(c.push(p)),
            _ => None,
        }
    }
}

/// A pair `(start, end)` with `start <= end < len`.
pub open spec fn within(p: (u64, u64), len: u64) -> bool {
    p.0 <= p.1 && p.1 < len
}

/// Clamps each requested range to a file of `len` bytes; `None` when any of
/// them is unsatisfiable, which makes the whole request unsatisfiable.
pub fn clamp_ranges(rs: &Vec<ByteRange>, len: u64) -> (r: Option<Vec<(u64, u64)>>)
    ensures
        match r {
            Some(v) => clamped(rs@, len) == Some(v@),
            None => clamped(rs@, len) is None,
        },
{
    let mut out: Vec<(u64, u64)> = Vec::new();
    let mut i: usize = 0;
    assert(rs@.take(0) =~= Seq::<ByteRange>::empty());
    while i < rs.len()
        invariant
            0 <= i <= rs.len(),
            clamped(rs@.take(i as int), len) == Some(out@),
        decreases rs.len() - i,
    {
        assert(rs@.take(i + 1).drop_last() =~= rs@.take(i as int));
        match to_satisfiable_range(rs[i], len) {
            Some(p) => {
                out.push(p);
            },
            None => {
                proof {
                    lemma_clamped_none_extends(rs@, len, i + 1);
                }
                return None;
            },
        }
        i = i + 1;
    }
    assert(rs@.take(rs.len() as int) =~= rs@);
    Some(out)
}

proof fn lemma_clamped_none_extends(rs: Seq<ByteRange>, len: u64, k: int)
    requires
        0 < k <= rs.len(),
        clamped(rs.take(k), len) is None,
    ensures
        clamped(rs, len) is None,
    decreases rs.len() - k,
{
    if k < rs.len() {
        assert(rs.take(k + 1).drop_last() =~= rs.take(k));
        lemma_clamped_none_extends(rs, len, k + 1);
    } else {
        assert(rs.take(k) =~= rs);
    }
}

/// Every pair that clamping gives lies inside the file.
pub proof fn lemma_clamped_within(rs: Seq<ByteRange>, len: u64)
    ensures
        clamped(rs, len) matches Some(c) ==> forall|k: int|
            0 <= k < c.len() ==> within(#[trigger] c[k], len),
    decreases rs.len(),
{
    if rs.len() > 0 {
        lemma_clamped_within(rs.drop_last(), len);
    }
}

/// The number of bytes that the pairs cover.
pub open spec fn total(ps: Seq<(u64, u64)>) -> int
    decreases ps.len(),
{
    if ps.len() == 0 {
        0
    } else {
        total(ps.drop_last()) + (ps.last().1 - ps.last().0 + 1)
    }
}

/// The sum of the lengths of the pairs, or `None` when it does not fit in a `u64`.
pub fn content_length(ps: &Vec<(u64, u64)>) -> (r: Option<u64>)
    requires
        forall|k: int| 0 <= k < ps@.len() ==> (#[trigger] ps@[k]).0 <= ps@[k].1,
    ensures
        match r {
            Some(n) => n == total(ps@),
            None => total(ps@) > u64::MAX,
        },
{
    let mut sum: u64 = 0;
    let mut i: usize = 0;
    assert(ps@.take(0) =~= Seq::<(u64, u64)>::empty());
    while i < ps.len()
        invariant
            0 <= i <= ps.len(),
            forall|k: int| 0 <= k < ps@.len() ==> (#[trigger] ps@[k]).0 <= ps@[k].1,
            sum == total(ps@.take(i as int)),
        decreases ps.len() - i,
    {
        assert(ps@.take(i + 1).drop_last() =~= ps@.take(i as int));
        let (a, b) = ps[i];
        assert(ps@[i as int].0 <= ps@[i as int].1);
        let n = b - a;
        if n == u64::MAX || sum > u64::MAX - (n + 1) {
            proof {
                lemma_total_prefix_grows(ps@, i + 1);
            }
            return None;
        }
        sum = sum + (n + 1);
        i = i + 1;
    }
    assert(ps@.take(ps.len() as int) =~= ps@);
    Some(sum)
}

proof fn lemma_total_prefix_grows(ps: Seq<(u64, u64)>, k: int)
    requires
        0 <= k <= ps.len(),
        forall|j: int| 0 <= j < ps.len() ==> (#[trigger] ps[j]).0 <= ps[j].1,
    ensures
        total(ps) >= total(ps.take(k)),
    decreases ps.len() - k,
{
    if k < ps.len() {
        assert(ps.take(k + 1).drop_last() =~= ps.take(k));
        assert(ps[k].0 <= ps[k].1);
        lemma_total_prefix_grows(ps, k + 1);
    } else {
        assert(ps.take(k) =~= ps);
    }
}

/// The pairs as `a-b`, separated by commas.
pub open spec fn ranges_text(ps: Seq<(u64, u64)>) -> Seq<char>
    decreases ps.len(),
{
    if ps.len() == 0 {
        Seq::empty()
    } else {
        let pair = dec_of(ps.last().0 as nat) + seq!['-'] + dec_of(ps.last().1 as nat);
        if ps.len() == 1 {
            pair
        } else {
            ranges_text(ps.drop_last()) + seq![','] + pair
        }
    }
}

/// `bytes a-b[,a-b]*/size`: the `Content-Range` value of a partial response.
pub open spec fn content_range_text(ps: Seq<(u64, u64)>, size: u64) -> Seq<char> {
    seq!['b', 'y', 't', 'e', 's', ' '] + ranges_text(ps) + seq!['/'] + dec_of(size as nat)
}

/// `bytes */size`: the `Content-Range` value of an unsatisfiable request.
pub open spec fn unsatisfied_range_text(size: u64) -> Seq<char> {
    seq!['b', 'y', 't', 'e', 's', ' ', '*', '/'] + dec_of(size as nat)
}

pub fn content_range(ps: &Vec<(u64, u64)>, size: u64) -> (r: String)
    ensures
        r@ == content_range_text(ps@, size),
{
    proof {
        reveal_strlit("bytes ");
        reveal_strlit("-");
        reveal_strlit(",");
        reveal_strlit("/");
    }
    let mut s = String::from_str("bytes ");
    let mut i: usize = 0;
    assert(ps@.take(0) =~= Seq::<(u64, u64)>::empty());
    while i < ps.len()
        invariant
            0 <= i <= ps.len(),
            s@ == seq!['b', 'y', 't', 'e', 's', ' '] + ranges_text(ps@.take(i as int)),
            "-"@ == seq!['-'],
            ","@ == seq![','],
        decreases ps.len() - i,
    {
        let ghost before = s@;
        assert(ps@.take(i + 1).drop_last() =~= ps@.take(i as int));
        if i > 0 {
            s.append(",");
        }
        push_dec(&mut s, ps[i].0);
        s.append("-");
        push_dec(&mut s, ps[i].1);
        proof {
            let pair = dec_of(ps@[i as int].0 as nat) + seq!['-'] + dec_of(ps@[i as int].1 as nat);
            if i > 0 {
                assert(s@ =~= before + seq![','] + pair);
            } else {
                assert(ps@.take(0) =~= Seq::<(u64, u64)>::empty());
                assert(s@ =~= before + pair);
            }
        }
        i = i + 1;
    }
    assert(ps@.take(ps.len() as int) =~= ps@);
    s.append("/");
    push_dec(&mut s, size);
    assert(s@ =~= content_range_text(ps@, size));
    s
}

pub fn unsatisfied_range(size: u64) -> (r: String)
    ensures
        r@ == unsatisfied_range_text(size),
{
    proof {
        reveal_strlit("bytes */");
    }
    let mut s = String::from_str("bytes */");
    push_dec(&mut s, size);
    assert(s@ =~= unsatisfied_range_text(size));
    s
}

} // verus!
