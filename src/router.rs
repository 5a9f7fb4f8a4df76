use vstd::prelude::*;

use crate::error::Error;
use vstd::utf8::{decode_utf8, encode_utf8, valid_utf8};

verus! {

// ---------------------------------------------------------------------------
// Model
// ---------------------------------------------------------------------------

/// The pieces of `s` between its `/` characters, empty ones included.
pub open spec fn pieces(s: Seq<char>) -> Seq<Seq<char>>
    decreases s.len(),
{
    if s.len() == 0 {
        seq![Seq::empty()]
    } else {
        let p = pieces(s.drop_last());
        if s.last() == '/' {
            p.push(Seq::empty())
        } else {
            p.update(p.len() - 1, p.last().push(s.last()))
        }
    }
}

pub open spec fn dot() -> Seq<char> {
    seq!['.']
}

pub open spec fn dot_dot() -> Seq<char> {
    seq!['.', '.']
}

/// One step of the traversal fold over a stack of segments. The flag records
/// that a `..` tried to climb above the root: from then on the path is clamped
/// and nothing more is taken.
pub open spec fn step(st: (Seq<Seq<char>>, bool), seg: Seq<char>) -> (Seq<Seq<char>>, bool) {
    if st.1 || seg.len() == 0 || seg == dot() {
        st
    } else if seg == dot_dot() {
        if st.0.len() > 0 {
            (st.0.drop_last(), false)
        } else {
            (st.0, true)
        }
    } else {
        (st.0.push(seg), false)
    }
}

/// Folds the pieces left to right with [`step`].
pub open spec fn fold_segments(ps: Seq<Seq<char>>) -> (Seq<Seq<char>>, bool)
    decreases ps.len(),
{
    if ps.len() == 0 {
        (Seq::empty(), false)
    } else {
        step(fold_segments(ps.drop_last()), ps.last())
    }
}

/// The normalized segments of a decoded request path.
pub open spec fn components(req: Seq<char>) -> Seq<Seq<char>> {
    fold_segments(pieces(req)).0
}

/// The non-empty pieces of a mount prefix.
pub open spec fn nonempty_pieces(ps: Seq<Seq<char>>) -> Seq<Seq<char>>
    decreases ps.len(),
{
    if ps.len() == 0 {
        Seq::empty()
    } else if ps.last().len() == 0 {
        nonempty_pieces(ps.drop_last())
    } else {
        nonempty_pieces(ps.drop_last()).push(ps.last())
    }
}

pub open spec fn base_segments(base: Seq<char>) -> Seq<Seq<char>> {
    nonempty_pieces(pieces(base))
}

/// `/` before each segment.
pub open spec fn join_url(cs: Seq<Seq<char>>) -> Seq<char>
    decreases cs.len(),
{
    if cs.len() == 0 {
        Seq::empty()
    } else {
        join_url(cs.drop_last()) + seq!['/'] + cs.last()
    }
}

pub open spec fn ends_with_slash(s: Seq<char>) -> bool {
    s.len() > 0 && s.last() == '/'
}

/// The normalized URL path: the surviving segments, each after a `/`, and a
/// final `/` when the request ended with one.
pub open spec fn url_path(req: Seq<char>) -> Seq<char> {
    if ends_with_slash(req) {
        join_url(components(req)) + seq!['/']
    } else {
        join_url(components(req))
    }
}

/// Appends one segment to a file system path, with a separator unless the
/// path is empty or already ends with one.
pub open spec fn push_path(p: Seq<char>, c: Seq<char>) -> Seq<char> {
    if p.len() == 0 {
        c
    } else if p.last() == '/' {
        p + c
    } else {
        p + seq!['/'] + c
    }
}

pub open spec fn join_path(root: Seq<char>, cs: Seq<Seq<char>>) -> Seq<char>
    decreases cs.len(),
{
    if cs.len() == 0 {
        root
    } else {
        push_path(join_path(root, cs.drop_last()), cs.last())
    }
}

pub open spec fn is_prefix(b: Seq<Seq<char>>, cs: Seq<Seq<char>>) -> bool {
    b.len() <= cs.len() && cs.take(b.len() as int) == b
}

/// What routing gives: `None` when the request is not under the mount prefix,
/// else the normalized URL path, the file system path, and whether that path
/// names an entry below the root, whose existence is still to be probed.
pub open spec fn route_outcome(req: Seq<char>, base: Seq<char>, root: Seq<char>) -> Option<
    (Seq<char>, Seq<char>, bool),
> {
    let cs = components(req);
    let b = base_segments(base);
    if is_prefix(b, cs) {
        let rest = cs.skip(b.len() as int);
        Some((url_path(req), join_path(root, rest), rest.len() > 0))
    } else {
        None
    }
}

// ---------------------------------------------------------------------------
// Executable
// ---------------------------------------------------------------------------

/// A request path resolved against the root.
pub struct Resolved {
    /// Normalized URL path.
    pub url_path: String,
    /// File system path, under the root.
    pub fs_path: String,
    /// Whether `fs_path` lies below the root and must be probed for existence.
    pub probe: bool,
}

pub open spec fn views(v: Seq<String>) -> Seq<Seq<char>> {
    v.map_values(|x: String| x@)
}

fn is_dot(seg: &str) -> (r: bool)
    ensures
        r == (seg@ == dot()),
{
    let n = seg.unicode_len();
    if n == 1 && seg.get_char(0) == '.' {
        assert(seg@ =~= dot());
        true
    } else {
        false
    }
}

fn is_dot_dot(seg: &str) -> (r: bool)
    ensures
        r == (seg@ == dot_dot()),
{
    let n = seg.unicode_len();
    if n == 2 && seg.get_char(0) == '.' && seg.get_char(1) == '.' {
        assert(seg@ =~= dot_dot());
        true
    } else {
        false
    }
}

fn fold_step(stack: &mut Vec<String>, stopped: &mut bool, seg: &str)
    ensures
        (views(final(stack)@), *final(stopped)) == step((views(old(stack)@), *old(stopped)), seg@),
{
    if *stopped || seg.unicode_len() == 0 || is_dot(seg) {
    } else if is_dot_dot(seg) {
        if stack.len() > 0 {
            stack.pop();
            assert(views(stack@) =~= views(old(stack)@).drop_last());
        } else {
            *stopped = true;
        }
    } else {
        stack.push(String::from_str(seg));
        assert(views(stack@) =~= views(old(stack)@).push(seg@));
    }
}

proof fn lemma_pieces_snoc(s: Seq<char>, i: int)
    requires
        0 <= i < s.len(),
    ensures
        s.subrange(0, i + 1).drop_last() == s.subrange(0, i),
        s.subrange(0, i + 1).last() == s[i],
{
    assert(s.subrange(0, i + 1).drop_last() =~= s.subrange(0, i));
}

/// The normalized segments of `req`.
fn normalize(req: &str) -> (r: Vec<String>)
    ensures
        views(r@) == components(req@),
{
    let n = req.unicode_len();
    let mut stack: Vec<String> = Vec::new();
    let mut stopped = false;
    let mut start: usize = 0;
    let mut i: usize = 0;
    assert(req@.subrange(0, 0) =~= Seq::<char>::empty());
    assert(views(stack@) =~= Seq::<Seq<char>>::empty());
    while i < n
        invariant
            n == req@.len(),
            0 <= start <= i <= n,
            pieces(req@.subrange(0, i as int)).len() >= 1,
            pieces(req@.subrange(0, i as int)).last() == req@.subrange(start as int, i as int),
            fold_segments(pieces(req@.subrange(0, i as int)).drop_last()) == (views(stack@), stopped),
        decreases n - i,
    {
        let c = req.get_char(i);
        proof {
            lemma_pieces_snoc(req@, i as int);
        }
        let ghost old_p = pieces(req@.subrange(0, i as int));
        if c == '/' {
            let seg = req.substring_char(start, i);
            fold_step(&mut stack, &mut stopped, seg);
            proof {
                let p = pieces(req@.subrange(0, i + 1));
                assert(p == old_p.push(Seq::empty()));
                assert(p.drop_last() =~= old_p);
                assert(old_p =~= old_p.drop_last().push(old_p.last()));
                assert(old_p.drop_last().push(old_p.last()).drop_last() =~= old_p.drop_last());
            }
            start = i + 1;
            assert(req@.subrange(start as int, i + 1) =~= Seq::<char>::empty());
        } else {
            proof {
                let p = pieces(req@.subrange(0, i + 1));
                assert(p.drop_last() =~= old_p.drop_last());
                assert(req@.subrange(start as int, i + 1) =~= req@.subrange(start as int, i as int).push(c));
            }
        }
        i = i + 1;
    }
    assert(req@.subrange(0, n as int) =~= req@);
    let seg = req.substring_char(start, n);
    fold_step(&mut stack, &mut stopped, seg);
    proof {
        let p = pieces(req@);
        assert(p =~= p.drop_last().push(p.last()));
    }
    stack
}

/// The non-empty `/`-separated pieces of `base`.
fn base_pieces(base: &str) -> (r: Vec<String>)
    ensures
        views(r@) == base_segments(base@),
{
    let n = base.unicode_len();
    let mut out: Vec<String> = Vec::new();
    let mut start: usize = 0;
    let mut i: usize = 0;
    assert(base@.subrange(0, 0) =~= Seq::<char>::empty());
    assert(views(out@) =~= Seq::<Seq<char>>::empty());
    while i < n
        invariant
            n == base@.len(),
            0 <= start <= i <= n,
            pieces(base@.subrange(0, i as int)).len() >= 1,
            pieces(base@.subrange(0, i as int)).last() == base@.subrange(start as int, i as int),
            nonempty_pieces(pieces(base@.subrange(0, i as int)).drop_last()) == views(out@),
        decreases n - i,
    {
        let c = base.get_char(i);
        proof {
            lemma_pieces_snoc(base@, i as int);
        }
        let ghost old_p = pieces(base@.subrange(0, i as int));
        let ghost old_out = views(out@);
        if c == '/' {
            if start < i {
                let seg = base.substring_char(start, i);
                out.push(String::from_str(seg));
                assert(views(out@) =~= old_out.push(seg@));
            }
            proof {
                let p = pieces(base@.subrange(0, i + 1));
                assert(p.drop_last() =~= old_p);
                assert(old_p =~= old_p.drop_last().push(old_p.last()));
                assert(old_p.drop_last().push(old_p.last()).drop_last() =~= old_p.drop_last());
            }
            start = i + 1;
            assert(base@.subrange(start as int, i + 1) =~= Seq::<char>::empty());
        } else {
            proof {
                let p = pieces(base@.subrange(0, i + 1));
                assert(p.drop_last() =~= old_p.drop_last());
                assert(base@.subrange(start as int, i + 1) =~= base@.subrange(start as int, i as int).push(c));
            }
        }
        i = i + 1;
    }
    assert(base@.subrange(0, n as int) =~= base@);
    let ghost old_out = views(out@);
    if start < n {
        let seg = base.substring_char(start, n);
        out.push(String::from_str(seg));
        assert(views(out@) =~= old_out.push(seg@));
    }
    proof {
        let p = pieces(base@);
        assert(p =~= p.drop_last().push(p.last()));
    }
    out
}

/// `/` before each segment.
fn url_of(cs: &Vec<String>) -> (r: String)
    ensures
        r@ == join_url(views(cs@)),
{
    let mut out = String::new();
    let mut i: usize = 0;
    proof {
        reveal_strlit("/");
        assert(views(cs@).take(0) =~= Seq::<Seq<char>>::empty());
    }
    while i < cs.len()
        invariant
            0 <= i <= cs.len(),
            out@ == join_url(views(cs@).take(i as int)),
            "/"@ == seq!['/'],
        decreases cs.len() - i,
    {
        out.append("/");
        out.append(cs[i].as_str());
        proof {
            let t = views(cs@).take(i + 1);
            assert(t.drop_last() =~= views(cs@).take(i as int));
        }
        i = i + 1;
    }
    assert(views(cs@).take(cs.len() as int) =~= views(cs@));
    out
}

/// Appends `c` to the file system path `p`.
fn push_segment(p: &mut String, c: &str)
    ensures
        final(p)@ == push_path(old(p)@, c@),
{
    proof {
        reveal_strlit("/");
    }
    let n = p.as_str().unicode_len();
    if n == 0 {
        *p = String::from_str(c);
    } else if p.as_str().get_char(n - 1) == '/' {
        p.append(c);
    } else {
        p.append("/");
        p.append(c);
    }
}

/// Resolves a percent-decoded request path under the mount prefix `base`
/// against the file system root `path`.
///
/// The decoded path is split on `/`; empty and `.` pieces are dropped, `..`
/// drops the segment before it, and a `..` that would climb above the root
/// clamps the path there, ignoring the rest. The mount prefix's segments must
/// open the normalized ones, else the result is `Error::Route`; the segments
/// after them are joined to the root.
pub fn router(req_path_dec: &str, base: &str, path: &str) -> (r: Result<Resolved, Error>)
    ensures
        r is Err <==> !is_prefix(base_segments(base@), components(req_path_dec@)),
        match r {
            Ok(res) => route_outcome(req_path_dec@, base@, path@) == Some(
                (res.url_path@, res.fs_path@, res.probe),
            ),
            Err(e) => e == Error::Route && route_outcome(req_path_dec@, base@, path@) is None,
        },
{
    let cs = normalize(req_path_dec);
    let b = base_pieces(base);
    let ghost vcs = views(cs@);
    let ghost vb = views(b@);
    if b.len() > cs.len() {
        return Err(Error::Route);
    }
    let mut j: usize = 0;
    while j < b.len()
        invariant
            b.len() <= cs.len(),
            0 <= j <= b.len(),
            vcs == views(cs@),
            vb == views(b@),
            vcs == components(req_path_dec@),
            vb == base_segments(base@),
            forall|k: int| 0 <= k < j ==> vcs[k] == vb[k],
        decreases b.len() - j,
    {
        let same = cs[j] == b[j];
        assert(vcs[j as int] == cs@[j as int]@ && vb[j as int] == b@[j as int]@);
        if !same {
            assert(vcs.take(vb.len() as int)[j as int] != vb[j as int]);
            return Err(Error::Route);
        }
        j = j + 1;
    }
    assert(vcs.take(vb.len() as int) =~= vb);
    assert(cs.len() > b.len() <==> vcs.skip(vb.len() as int).len() > 0);
    let mut url = url_of(&cs);
    if req_path_dec.unicode_len() > 0 && req_path_dec.get_char(req_path_dec.unicode_len() - 1)
        == '/' {
        proof {
            reveal_strlit("/");
        }
        url.append("/");
    }
    let mut fs = String::from_str(path);
    let mut k: usize = b.len();
    let ghost rest = vcs.skip(vb.len() as int);
    assert(rest.take(0) =~= Seq::<Seq<char>>::empty());
    while k < cs.len()
        invariant
            b.len() <= k <= cs.len(),
            vcs == views(cs@),
            vcs == components(req_path_dec@),
            vb == base_segments(base@),
            url@ == url_path(req_path_dec@),
            rest == vcs.skip(b.len() as int),
            fs@ == join_path(path@, rest.take(k - b.len())),
        decreases cs.len() - k,
    {
        push_segment(&mut fs, cs[k].as_str());
        proof {
            let t = rest.take(k + 1 - b.len());
            assert(t.drop_last() =~= rest.take(k - b.len()));
        }
        k = k + 1;
    }
    assert(rest.take(cs.len() - b.len()) =~= rest);
    Ok(Resolved { url_path: url, fs_path: fs, probe: cs.len() > b.len() })
}


impl Resolved {
    /// Completes routing with the result of the existence probe of `fs_path`:
    /// a path below the root that does not exist is `NotFound`. A request
    /// for the root itself is never probed.
    pub fn confirm(self, exists: bool) -> (r: Result<(String, String), Error>)
        ensures
            self.probe && !exists ==> r == Err::<(String, String), Error>(Error::not_found_spec()),
            !(self.probe && !exists) ==> (r matches Ok(p) && p.0@ == self.url_path@ && p.1@
                == self.fs_path@),
    {
        if self.probe && !exists {
            Err(Error::not_found())
        } else {
            Ok((self.url_path, self.fs_path))
        }
    }
}

// ---------------------------------------------------------------------------
// Request path decoding
// ---------------------------------------------------------------------------

/// The value of a hexadecimal digit, either case.
pub open spec fn hex_val(b: u8) -> Option<u8> {
    if 0x30 <= b <= 0x39 {
        Some((b - 0x30) as u8)
    } else if 0x41 <= b <= 0x46 {
        Some((b - 0x41 + 10) as u8)
    } else if 0x61 <= b <= 0x66 {
        Some((b - 0x61 + 10) as u8)
    } else {
        None
    }
}

/// Percent-decoding: `%` and two hexadecimal digits stand for one byte; a
/// `%` not followed by two digits stays as it is.
pub open spec fn pct_decode(bs: Seq<u8>) -> Seq<u8>
    decreases bs.len(),
{
    if bs.len() == 0 {
        Seq::empty()
    } else if bs[0] == 0x25 && bs.len() >= 3 && hex_val(bs[1]) is Some && hex_val(bs[2]) is Some {
        seq![(hex_val(bs[1]).unwrap() * 16 + hex_val(bs[2]).unwrap()) as u8] + pct_decode(
            bs.skip(3),
        )
    } else {
        seq![bs[0]] + pct_decode(bs.skip(1))
    }
}

/// The text that a raw request path decodes to, when its decoded bytes are
/// valid UTF-8.
pub open spec fn decoded_path(raw: Seq<char>) -> Option<Seq<char>> {
    let d = pct_decode(encode_utf8(raw));
    if valid_utf8(d) {
        Some(decode_utf8(d))
    } else {
        None
    }
}

/// Relies on `percent_encoding::percent_decode` (re-exported by `url`) and its
/// `decode_utf8`: the bytes percent-decoded, then read as UTF-8, which fails
/// exactly when they are not valid UTF-8.
#[verifier::external_body]
fn percent_decode_path(raw: &str) -> (r: Option<String>)
    ensures
        r matches Some(t) ==> decoded_path(raw@) == Some(t@),
        r is None ==> decoded_path(raw@) is None,
{
    match url::percent_encoding::percent_decode(raw.as_bytes()).decode_utf8() {
        Ok(text) => Some(text.into_owned()),
        Err(_) => None,
    }
}

/// Routes a raw request path: percent-decodes it, then resolves it with
/// [`router`]. A path whose decoded bytes are not UTF-8 names nothing here,
/// and is `NotFound`.
pub fn route_request(raw_path: &str, base: &str, path: &str) -> (r: Result<Resolved, Error>)
    ensures
        decoded_path(raw_path@) is None ==> r == Err::<Resolved, Error>(Error::not_found_spec()),
        decoded_path(raw_path@) matches Some(d) ==> match r {
            Ok(res) => route_outcome(d, base@, path@) == Some(
                (res.url_path@, res.fs_path@, res.probe),
            ),
            Err(e) => e == Error::Route && route_outcome(d, base@, path@) is None,
        },
{
    match percent_decode_path(raw_path) {
        Some(d) => router(d.as_str(), base, path),
        None => Err(Error::not_found()),
    }
}

// ---------------------------------------------------------------------------
// Laws
// ---------------------------------------------------------------------------

pub open spec fn no_slash(seg: Seq<char>) -> bool {
    forall|i: int| 0 <= i < seg.len() ==> seg[i] != '/'
}

/// A segment that names an entry of a directory and cannot climb out of it.
pub open spec fn plain(seg: Seq<char>) -> bool {
    seg.len() > 0 && seg != dot() && seg != dot_dot() && no_slash(seg)
}

/// `p` is the root followed by plain segments.
pub open spec fn under_root(root: Seq<char>, p: Seq<char>) -> bool {
    exists|segs: Seq<Seq<char>>|
        (forall|k: int| 0 <= k < segs.len() ==> plain(#[trigger] segs[k])) && p == join_path(
            root,
            segs,
        )
}

proof fn lemma_pieces_no_slash(s: Seq<char>)
    ensures
        pieces(s).len() >= 1,
        forall|k: int| 0 <= k < pieces(s).len() ==> no_slash(#[trigger] pieces(s)[k]),
    decreases s.len(),
{
    if s.len() > 0 {
        lemma_pieces_no_slash(s.drop_last());
        let p = pieces(s.drop_last());
        if s.last() != '/' {
            let q = p.update(p.len() - 1, p.last().push(s.last()));
            assert forall|k: int| 0 <= k < q.len() implies no_slash(#[trigger] q[k]) by {
                if k == p.len() - 1 {
                    assert(no_slash(p[k]));
                }
            }
        }
    }
}

proof fn lemma_fold_plain(ps: Seq<Seq<char>>)
    requires
        forall|k: int| 0 <= k < ps.len() ==> no_slash(#[trigger] ps[k]),
    ensures
        forall|k: int|
            0 <= k < fold_segments(ps).0.len() ==> plain(#[trigger] fold_segments(ps).0[k]),
    decreases ps.len(),
{
    if ps.len() > 0 {
        let q = ps.drop_last();
        assert forall|k: int| 0 <= k < q.len() implies no_slash(#[trigger] q[k]) by {
            assert(q[k] == ps[k]);
        }
        lemma_fold_plain(q);
        assert(no_slash(ps[ps.len() - 1]));
        let st = fold_segments(q);
        let seg = ps.last();
        let r = fold_segments(ps);
        assert(r == step(st, seg));
        assert forall|k: int| 0 <= k < r.0.len() implies plain(#[trigger] r.0[k]) by {
            if k < st.0.len() {
                assert(r.0[k] == st.0[k]);
            }
        }
    }
}

/// Routing never leaves the root: the file system path it gives is the root
/// followed by segments that are neither empty, `.` nor `..`, and hold no `/`.
pub proof fn lemma_route_under_root(req: Seq<char>, base: Seq<char>, root: Seq<char>)
    ensures
        route_outcome(req, base, root) matches Some(o) ==> under_root(root, o.1),
{
    let cs = components(req);
    let b = base_segments(base);
    lemma_pieces_no_slash(req);
    lemma_fold_plain(pieces(req));
    if is_prefix(b, cs) {
        let rest = cs.skip(b.len() as int);
        assert forall|k: int| 0 <= k < rest.len() implies plain(#[trigger] rest[k]) by {
            assert(rest[k] == cs[k + b.len()]);
        }
        assert(under_root(root, join_path(root, rest)));
    }
}

proof fn lemma_pieces_slash_then(x: Seq<char>, c: Seq<char>)
    requires
        no_slash(c),
    ensures
        pieces(x + seq!['/'] + c) == pieces(x).push(c),
    decreases c.len(),
{
    let s = x + seq!['/'] + c;
    if c.len() == 0 {
        assert(s.drop_last() =~= x);
        assert(c =~= Seq::<char>::empty());
    } else {
        let c2 = c.drop_last();
        assert(no_slash(c2));
        lemma_pieces_slash_then(x, c2);
        assert(s.drop_last() =~= x + seq!['/'] + c2);
        assert(s.last() == c.last());
        assert(c2.push(c.last()) =~= c);
        assert(pieces(x).push(c2).update(pieces(x).len() as int, c) =~= pieces(x).push(c));
    }
}

proof fn lemma_pieces_join(cs: Seq<Seq<char>>)
    requires
        forall|k: int| 0 <= k < cs.len() ==> plain(#[trigger] cs[k]),
    ensures
        pieces(join_url(cs)) == seq![Seq::<char>::empty()] + cs,
    decreases cs.len(),
{
    if cs.len() == 0 {
        assert(seq![Seq::<char>::empty()] + cs =~= seq![Seq::<char>::empty()]);
    } else {
        let c2 = cs.drop_last();
        assert forall|k: int| 0 <= k < c2.len() implies plain(#[trigger] c2[k]) by {
            assert(c2[k] == cs[k]);
        }
        lemma_pieces_join(c2);
        assert(plain(cs[cs.len() - 1]));
        lemma_pieces_slash_then(join_url(c2), cs.last());
        assert((seq![Seq::<char>::empty()] + c2).push(cs.last()) =~= seq![Seq::<char>::empty()]
            + cs);
    }
}

proof fn lemma_fold_join(cs: Seq<Seq<char>>)
    requires
        forall|k: int| 0 <= k < cs.len() ==> plain(#[trigger] cs[k]),
    ensures
        fold_segments(seq![Seq::<char>::empty()] + cs) == (cs, false),
    decreases cs.len(),
{
    let ps = seq![Seq::<char>::empty()] + cs;
    if cs.len() == 0 {
        assert(ps.drop_last() =~= Seq::<Seq<char>>::empty());
        assert(ps.last() == Seq::<char>::empty());
        assert(fold_segments(ps.drop_last()) == (Seq::<Seq<char>>::empty(), false));
        assert(fold_segments(ps) == step(fold_segments(ps.drop_last()), ps.last()));
        assert(cs =~= Seq::<Seq<char>>::empty());
    } else {
        let c2 = cs.drop_last();
        assert forall|k: int| 0 <= k < c2.len() implies plain(#[trigger] c2[k]) by {
            assert(c2[k] == cs[k]);
        }
        lemma_fold_join(c2);
        assert(ps.drop_last() =~= seq![Seq::<char>::empty()] + c2);
        assert(ps.last() == cs.last());
        assert(plain(cs[cs.len() - 1]));
        assert(fold_segments(ps.drop_last()) == (c2, false));
        assert(fold_segments(ps) == step(fold_segments(ps.drop_last()), ps.last()));
        assert(c2.push(cs.last()) =~= cs);
    }
}

proof fn lemma_join_url_end(cs: Seq<Seq<char>>)
    requires
        forall|k: int| 0 <= k < cs.len() ==> plain(#[trigger] cs[k]),
    ensures
        !ends_with_slash(join_url(cs)),
{
    if cs.len() > 0 {
        let c = cs.last();
        assert(plain(cs[cs.len() - 1]));
        let j = join_url(cs.drop_last()) + seq!['/'] + c;
        assert(j.last() == c[c.len() - 1]);
    }
}

/// Routing is idempotent: routing the normalized URL path that routing gave
/// yields the same outcome again.
pub proof fn lemma_route_idempotent(req: Seq<char>, base: Seq<char>, root: Seq<char>)
    ensures
        route_outcome(url_path(req), base, root) == route_outcome(req, base, root),
        url_path(url_path(req)) == url_path(req),
        components(url_path(req)) == components(req),
{
    let cs = components(req);
    lemma_pieces_no_slash(req);
    lemma_fold_plain(pieces(req));
    lemma_pieces_join(cs);
    lemma_fold_join(cs);
    lemma_join_url_end(cs);
    let u = url_path(req);
    let e = seq![Seq::<char>::empty()];
    if ends_with_slash(req) {
        assert(u.drop_last() =~= join_url(cs));
        assert(pieces(u) == (e + cs).push(Seq::empty()));
        assert((e + cs).push(Seq::<char>::empty()).drop_last() =~= e + cs);
    }
    assert(components(u) == cs);
}

proof fn lemma_pieces_concat(x: Seq<char>, z: Seq<char>)
    ensures
        pieces(x + seq!['/'] + z) == pieces(x) + pieces(z),
    decreases z.len(),
{
    let s = x + seq!['/'] + z;
    if z.len() == 0 {
        assert(s.drop_last() =~= x);
        assert(pieces(x).push(Seq::empty()) =~= pieces(x) + seq![Seq::<char>::empty()]);
    } else {
        let z2 = z.drop_last();
        lemma_pieces_concat(x, z2);
        lemma_pieces_no_slash(z2);
        assert(s.drop_last() =~= x + seq!['/'] + z2);
        let a = pieces(x);
        let b = pieces(z2);
        if z.last() == '/' {
            assert((a + b).push(Seq::empty()) =~= a + b.push(Seq::empty()));
        } else {
            assert((a + b).update((a + b).len() - 1, (a + b).last().push(z.last())) =~= a
                + b.update(b.len() - 1, b.last().push(z.last())));
        }
    }
}

proof fn lemma_fold_stopped(ps: Seq<Seq<char>>, qs: Seq<Seq<char>>)
    requires
        fold_segments(ps).1,
    ensures
        fold_segments(ps + qs) == fold_segments(ps),
    decreases qs.len(),
{
    if qs.len() == 0 {
        assert(ps + qs =~= ps);
    } else {
        lemma_fold_stopped(ps, qs.drop_last());
        assert((ps + qs).drop_last() =~= ps + qs.drop_last());
    }
}

/// A request that opens by climbing above the root is clamped to the root:
/// under a mount with no segments, `/..` followed by anything resolves to
/// the root itself, whatever comes after, and is never probed.
pub proof fn lemma_escape_clamps_to_root(rest: Seq<char>, base: Seq<char>, root: Seq<char>)
    requires
        base_segments(base).len() == 0,
    ensures
        route_outcome(seq!['/', '.', '.', '/'] + rest, base, root) matches Some(o) && o.1 == root
            && !o.2,
        components(seq!['/', '.', '.', '/'] + rest) == Seq::<Seq<char>>::empty(),
{
    let dd = seq!['.', '.'];
    let req = seq!['/', '.', '.', '/'] + rest;
    assert(req =~= Seq::<char>::empty() + seq!['/'] + (dd + seq!['/'] + rest));
    lemma_pieces_concat(Seq::empty(), dd + seq!['/'] + rest);
    lemma_pieces_concat(dd, rest);
    let e = Seq::<char>::empty();
    let d1 = seq!['.'];
    assert(pieces(e) == seq![e]);
    assert(d1.drop_last() =~= e);
    assert(d1.last() == '.');
    assert(pieces(d1) == seq![e].update(0, e.push('.')));
    assert(e.push('.') =~= d1);
    assert(seq![e].update(0, d1) =~= seq![d1]);
    assert(dd.drop_last() =~= d1);
    assert(dd.last() == '.');
    assert(pieces(dd) == seq![d1].update(0, d1.push('.')));
    assert(d1.push('.') =~= dd);
    assert(seq![d1].update(0, dd) =~= seq![dd]);
    let head = seq![Seq::<char>::empty(), dd];
    assert(pieces(req) =~= head + pieces(rest));
    assert(head.drop_last() =~= seq![Seq::<char>::empty()]);
    let one = seq![e];
    assert(one.drop_last() =~= Seq::<Seq<char>>::empty());
    assert(one.last() == e);
    assert(fold_segments(one) == step(fold_segments(one.drop_last()), e));
    assert(fold_segments(one) == (Seq::<Seq<char>>::empty(), false));
    assert(head.last() == dd);
    assert(fold_segments(head) == step(fold_segments(one), dd));
    assert(fold_segments(head) == (Seq::<Seq<char>>::empty(), true));
    lemma_fold_stopped(head, pieces(rest));
    let cs = components(req);
    assert(cs.skip(0) =~= cs);
    assert(is_prefix(base_segments(base), cs)) by {
        assert(cs.take(0) =~= base_segments(base));
    }
}

/// The mount `/` has no segments.
pub proof fn lemma_root_mount()
    ensures
        base_segments(seq!['/']).len() == 0,
{
    let s = seq!['/'];
    let e = Seq::<char>::empty();
    assert(s.drop_last() =~= e);
    assert(s.last() == '/');
    assert(pieces(e) == seq![e]);
    assert(pieces(s) == seq![e].push(e));
    assert(seq![e].push(e) =~= seq![e, e]);
    let p = pieces(s);
    assert(p.drop_last() =~= seq![Seq::<char>::empty()]);
    assert(p.drop_last().drop_last() =~= Seq::<Seq<char>>::empty());
    assert(p.last() == e && p.drop_last().last() == e);
    assert(nonempty_pieces(p.drop_last().drop_last()).len() == 0);
    assert(nonempty_pieces(p.drop_last()) == nonempty_pieces(p.drop_last().drop_last()));
    assert(nonempty_pieces(p) == nonempty_pieces(p.drop_last()));
}

} // verus!
