use vstd::prelude::*;

use crate::config::Config;
use crate::error::Error;
use crate::range::{
    clamp_ranges, clamped, content_length, content_range, content_range_text, lemma_clamped_within,
    satisfiable, total, unsatisfied_range, unsatisfied_range_text, within, ByteRange,
};
use crate::router::ends_with_slash;
use crate::stream::{body, lemma_stream_ranges, lemma_stream_whole, read_total, reads, slices};
use crate::text::{
    hex_digit, hex_of, is_hex_digit, lemma_hex_injective, lemma_hex_lacks, lemma_split_at, push_hex,
};

verus! {

/// The request methods that the responders tell apart.
#[derive(Debug, Clone, Copy, PartialEq, Eq, Structural)]
pub enum Method {
    Get,
    Head,
    Other,
}

/// The kind of a file system entry, as its metadata tells.
#[derive(Debug, Clone, Copy, PartialEq, Eq, Structural)]
pub enum EntryKind {
    File,
    Dir,
    Other,
}

/// Which responder serves an entry.
#[derive(Debug, Clone, Copy, PartialEq, Eq, Structural)]
pub enum Target {
    File,
    Index,
}

/// Dispatches on the entry's kind: a regular file goes to the file responder,
/// a directory to the index responder, anything else is `Typo`.
pub fn gate(kind: EntryKind) -> (r: Result<Target, Error>)
    ensures
        r == match kind {
            EntryKind::File => Ok::<Target, Error>(Target::File),
            EntryKind::Dir => Ok(Target::Index),
            EntryKind::Other => Err(Error::Typo),
        },
{
    match kind {
        EntryKind::File => Ok(Target::File),
        EntryKind::Dir => Ok(Target::Index),
        EntryKind::Other => Err(Error::Typo),
    }
}

/// What the responders read of an entry's metadata: its length and its
/// modification time since the Unix epoch.
#[derive(Debug, Clone, Copy, PartialEq, Eq, Structural)]
pub struct FileMeta {
    pub size: u64,
    pub mtime_secs: u64,
    pub mtime_nanos: u32,
}

/// An entity tag; `weak` ones are written `W/"tag"`.
#[derive(Debug, Clone)]
pub struct EntityTag {
    pub weak: bool,
    pub tag: String,
}

/// `{size:x}-{secs:x}.{nanos:x}`: the text of an entry's weak entity tag.
pub open spec fn etag_text(size: u64, secs: u64, nanos: u32) -> Seq<char> {
    hex_of(size as nat) + seq!['-'] + hex_of(secs as nat) + seq!['.'] + hex_of(nanos as nat)
}

/// The weak entity tag of an entry: a function of its size and modification
/// time alone.
pub fn etag(meta: &FileMeta) -> (r: EntityTag)
    ensures
        r.weak,
        r.tag@ == etag_text(meta.size, meta.mtime_secs, meta.mtime_nanos),
{
    proof {
        reveal_strlit("-");
        reveal_strlit(".");
    }
    let mut s = String::new();
    push_hex(&mut s, meta.size);
    s.append("-");
    push_hex(&mut s, meta.mtime_secs);
    s.append(".");
    push_hex(&mut s, meta.mtime_nanos as u64);
    assert(s@ =~= etag_text(meta.size, meta.mtime_secs, meta.mtime_nanos));
    EntityTag { weak: true, tag: s }
}

/// The validator of an `If-Range` header.
#[derive(Debug, Clone)]
pub enum IfRange {
    Tag(EntityTag),
    /// An HTTP date, in seconds since the Unix epoch.
    Date(u64),
}

/// What the file responder reads of a request.
#[derive(Debug, Clone)]
pub struct FileRequest {
    pub method: Method,
    /// The request path as it came, not decoded.
    pub path: String,
    pub query: Option<String>,
    /// The byte ranges of a `Range: bytes=...` header.
    pub range: Option<Vec<ByteRange>>,
    pub if_range: Option<IfRange>,
    /// The tags of an `If-None-Match` header.
    pub if_none_match: Option<Vec<EntityTag>>,
}

/// Which body follows the headers.
#[derive(Debug, Clone)]
pub enum BodyPlan {
    Empty,
    /// The whole file.
    Whole,
    /// These inclusive ranges of the file, in order.
    Ranges(Vec<(u64, u64)>),
    /// This text.
    Text(String),
}

/// The headers of a response, each absent or with its value.
#[derive(Debug, Clone)]
pub struct Headers {
    /// `Accept-Ranges: bytes`.
    pub accept_ranges: bool,
    /// `Cache-Control: public, max-age=N`.
    pub cache_max_age: Option<u32>,
    /// `Last-Modified`, in seconds since the Unix epoch.
    pub last_modified: Option<u64>,
    pub etag: Option<EntityTag>,
    pub content_length: Option<u64>,
    pub content_range: Option<String>,
    pub location: Option<String>,
    pub content_type: Option<String>,
}

/// A response: status, headers and body.
#[derive(Debug, Clone)]
pub struct Reply {
    pub status: u16,
    pub headers: Headers,
    pub body: BodyPlan,
}

pub open spec fn opt_view(o: Option<String>) -> Option<Seq<char>> {
    match o {
        Some(s) => Some(s@),
        None => None,
    }
}

pub open spec fn tag_view(o: Option<EntityTag>) -> Option<(bool, Seq<char>)> {
    match o {
        Some(t) => Some((t.weak, t.tag@)),
        None => None,
    }
}

/// The body of a response seen as values.
pub enum BodyView {
    Empty,
    Whole,
    Ranges(Seq<(u64, u64)>),
    Text(Seq<char>),
}

/// A response seen as values.
pub struct ReplyView {
    pub status: u16,
    pub accept_ranges: bool,
    pub cache_max_age: Option<u32>,
    pub last_modified: Option<u64>,
    pub etag: Option<(bool, Seq<char>)>,
    pub content_length: Option<u64>,
    pub content_range: Option<Seq<char>>,
    pub location: Option<Seq<char>>,
    pub content_type: Option<Seq<char>>,
    pub body: BodyView,
}

impl Reply {
    pub open spec fn view(&self) -> ReplyView {
        ReplyView {
            status: self.status,
            accept_ranges: self.headers.accept_ranges,
            cache_max_age: self.headers.cache_max_age,
            last_modified: self.headers.last_modified,
            etag: tag_view(self.headers.etag),
            content_length: self.headers.content_length,
            content_range: opt_view(self.headers.content_range),
            location: opt_view(self.headers.location),
            content_type: opt_view(self.headers.content_type),
            body: match self.body {
                BodyPlan::Empty => BodyView::Empty,
                BodyPlan::Whole => BodyView::Whole,
                BodyPlan::Ranges(v) => BodyView::Ranges(v@),
                BodyPlan::Text(t) => BodyView::Text(t@),
            },
        }
    }
}

/// The MIME type that `mime_guess` registers for a path.
pub uninterp spec fn mime_of(path: Seq<char>) -> Seq<char>;

/// Relies on `mime_guess::guess_mime_type`: the MIME type registered for the
/// path's extension, `application/octet-stream` when there is none.
#[verifier::external_body]
fn guess_mime(path: &str) -> (r: String)
    ensures
        r@ == mime_of(path@),
{
    #[allow(deprecated)]
    let m = mime_guess::guess_mime_type(path);
    m.to_string()
}

/// `p` without its trailing `/` characters.
pub open spec fn trim_slashes(p: Seq<char>) -> Seq<char>
    decreases p.len(),
{
    if ends_with_slash(p) {
        trim_slashes(p.drop_last())
    } else {
        p
    }
}

pub open spec fn with_query(p: Seq<char>, query: Option<String>) -> Seq<char> {
    match query {
        Some(q) => p + seq!['?'] + q@,
        None => p,
    }
}

/// Where a request for a file with a trailing `/` is sent: the path without
/// its trailing slashes (`/` if nothing is left), with the query.
pub open spec fn file_location(path: Seq<char>, query: Option<String>) -> Seq<char> {
    let t = trim_slashes(path);
    with_query(if t.len() == 0 { seq!['/'] } else { t }, query)
}

pub(crate) fn push_query(s: &mut String, query: &Option<String>)
    ensures
        final(s)@ == with_query(old(s)@, *query),
{
    proof {
        reveal_strlit("?");
    }
    match query {
        Some(q) => {
            s.append("?");
            s.append(q.as_str());
        },
        None => {},
    }
}

fn file_redirect(path: &str, query: &Option<String>) -> (r: String)
    ensures
        r@ == file_location(path@, *query),
{
    let mut end = path.unicode_len();
    assert(path@.subrange(0, path@.len() as int) =~= path@);
    while end > 0 && path.get_char(end - 1) == '/'
        invariant
            end <= path@.len(),
            trim_slashes(path@.subrange(0, end as int)) == trim_slashes(path@),
        decreases end,
    {
        assert(path@.subrange(0, end as int).drop_last() =~= path@.subrange(0, end - 1));
        end = end - 1;
    }
    assert(trim_slashes(path@.subrange(0, end as int)) == path@.subrange(0, end as int));
    let mut s = String::from_str(path.substring_char(0, end));
    proof {
        reveal_strlit("/");
    }
    if end == 0 {
        s = String::from_str("/");
    }
    push_query(&mut s, query);
    s
}

/// The decision of the file responder.
pub enum Outcome {
    Redirect,
    NotModified,
    Unsatisfiable,
    Partial(Seq<(u64, u64)>),
    Full,
}

pub open spec fn file_outcome(req: FileRequest, meta: FileMeta, cache_secs: u32) -> Outcome {
    if req.path@.len() != 1 && ends_with_slash(req.path@) {
        Outcome::Redirect
    } else {
        match req.range {
            Some(rs) => {
                if !if_range_passes(req.if_range, etag_text(meta.size, meta.mtime_secs, meta.mtime_nanos), meta) {
                    Outcome::Full
                } else {
                    match clamped(rs@, meta.size) {
                        Some(c) => if total(c) <= u64::MAX {
                            Outcome::Partial(c)
                        } else {
                            Outcome::Unsatisfiable
                        },
                        None => Outcome::Unsatisfiable,
                    }
                }
            },
            None => if not_modified(req.if_none_match, etag_text(meta.size, meta.mtime_secs, meta.mtime_nanos), cache_secs) {
                Outcome::NotModified
            } else {
                Outcome::Full
            },
        }
    }
}

/// Whether the `If-Range` validator lets the range through: a tag must equal
/// the current weak tag, whose text is `tag`; a date must not be older than
/// the modification time, taken to the second; without the header the range
/// is honored.
pub open spec fn if_range_passes(v: Option<IfRange>, tag: Seq<char>, meta: FileMeta) -> bool {
    match v {
        Some(IfRange::Tag(t)) => t.weak && t.tag@ == tag,
        Some(IfRange::Date(d)) => meta.mtime_secs <= d,
        None => true,
    }
}

/// Whether `If-None-Match` names first the current weak tag, whose text is
/// `tag`, with caching on.
pub open spec fn not_modified(v: Option<Vec<EntityTag>>, tag: Seq<char>, cache_secs: u32) -> bool {
    match v {
        Some(ts) => ts@.len() > 0 && cache_secs > 0 && ts@[0].weak && ts@[0].tag@ == tag,
        None => false,
    }
}

pub open spec fn cache_header(cache_secs: u32) -> Option<u32> {
    if cache_secs > 0 {
        Some(cache_secs)
    } else {
        None
    }
}

/// The response of the file responder, for a method other than `Other`.
pub open spec fn file_reply_view(
    method: Method,
    req: FileRequest,
    meta: FileMeta,
    fs_path: Seq<char>,
    cache_secs: u32,
) -> ReplyView {
    let tag = Some((true, etag_text(meta.size, meta.mtime_secs, meta.mtime_nanos)));
    let base = ReplyView {
        status: 200,
        accept_ranges: true,
        cache_max_age: cache_header(cache_secs),
        last_modified: Some(meta.mtime_secs),
        etag: tag,
        content_length: None,
        content_range: None,
        location: None,
        content_type: None,
        body: BodyView::Empty,
    };
    match file_outcome(req, meta, cache_secs) {
        Outcome::Redirect => ReplyView {
            status: 301,
            last_modified: None,
            etag: None,
            location: Some(file_location(req.path@, req.query)),
            ..base
        },
        Outcome::NotModified => ReplyView { status: 304, ..base },
        Outcome::Unsatisfiable => ReplyView {
            status: 416,
            content_range: Some(unsatisfied_range_text(meta.size)),
            ..base
        },
        Outcome::Partial(c) => ReplyView {
            status: 206,
            content_length: Some(total(c) as u64),
            content_range: Some(content_range_text(c, meta.size)),
            content_type: Some(mime_of(fs_path)),
            body: if method == Method::Get {
                BodyView::Ranges(c)
            } else {
                BodyView::Empty
            },
            ..base
        },
        Outcome::Full => ReplyView {
            status: 200,
            content_length: Some(meta.size),
            content_type: Some(mime_of(fs_path)),
            body: if method == Method::Get {
                BodyView::Whole
            } else {
                BodyView::Empty
            },
            ..base
        },
    }
}


fn base_headers(cache_secs: u32, meta: &FileMeta) -> (h: Headers)
    ensures
        h.accept_ranges,
        h.cache_max_age == cache_header(cache_secs),
        h.last_modified == Some(meta.mtime_secs),
        tag_view(h.etag) == Some((true, etag_text(meta.size, meta.mtime_secs, meta.mtime_nanos))),
        h.content_length is None,
        h.content_range is None,
        h.location is None,
        h.content_type is None,
{
    Headers {
        accept_ranges: true,
        cache_max_age: if cache_secs > 0 {
            Some(cache_secs)
        } else {
            None
        },
        last_modified: Some(meta.mtime_secs),
        etag: Some(etag(meta)),
        content_length: None,
        content_range: None,
        location: None,
        content_type: None,
    }
}

/// Answers a request for a regular file, given its metadata and its path on
/// the file system.
///
/// Only `GET` and `HEAD` are served. A path with a trailing `/` (other than
/// `/`) is redirected. With a `Range` header, the ranges are honored when
/// `If-Range` lets them through (206, or 416 when one of them is
/// unsatisfiable), else the whole file is served. Without one, a matching
/// `If-None-Match` gives 304 when caching is on. Otherwise the whole file is
/// served (200). `HEAD` gets the same status and headers as `GET`, and no
/// body.
pub fn file_response(req: &FileRequest, meta: &FileMeta, fs_path: &str, config: &Config) -> (r:
    Result<Reply, Error>)
    ensures
        r is Err <==> req.method == Method::Other,
        r matches Err(e) ==> e == Error::Method,
        r matches Ok(x) ==> x.view() == file_reply_view(
            req.method,
            *req,
            *meta,
            fs_path@,
            config.cache_secs,
        ),
{
    if req.method == Method::Other {
        return Err(Error::Method);
    }
    let cache_secs = config.cache_secs;
    let plen = req.path.as_str().unicode_len();
    if plen != 1 && plen > 0 && req.path.as_str().get_char(plen - 1) == '/' {
        let mut h = base_headers(cache_secs, meta);
        h.last_modified = None;
        h.etag = None;
        h.location = Some(file_redirect(req.path.as_str(), &req.query));
        return Ok(Reply { status: 301, headers: h, body: BodyPlan::Empty });
    }
    let tag = etag(meta);
    match &req.range {
        Some(rs) => {
            let pass = match &req.if_range {
                Some(IfRange::Tag(t)) => t.weak && t.tag == tag.tag,
                Some(IfRange::Date(d)) => meta.mtime_secs <= *d,
                None => true,
            };
            if pass {
                let mut h = base_headers(cache_secs, meta);
                match clamp_ranges(rs, meta.size) {
                    Some(v) => {
                        proof {
                            lemma_clamped_within(rs@, meta.size);
                        }
                        match content_length(&v) {
                            Some(n) => {
                                h.content_length = Some(n);
                                h.content_range = Some(content_range(&v, meta.size));
                                h.content_type = Some(guess_mime(fs_path));
                                let body = if req.method == Method::Get {
                                    BodyPlan::Ranges(v)
                                } else {
                                    BodyPlan::Empty
                                };
                                return Ok(Reply { status: 206, headers: h, body });
                            },
                            None => {},
                        }
                    },
                    None => {},
                }
                h.content_range = Some(unsatisfied_range(meta.size));
                return Ok(Reply { status: 416, headers: h, body: BodyPlan::Empty });
            }
        },
        None => {
            let hit = match &req.if_none_match {
                Some(ts) => ts.len() > 0 && cache_secs > 0 && ts[0].weak && ts[0].tag == tag.tag,
                None => false,
            };
            if hit {
                let h = base_headers(cache_secs, meta);
                return Ok(Reply { status: 304, headers: h, body: BodyPlan::Empty });
            }
        },
    }
    let mut h = base_headers(cache_secs, meta);
    h.content_length = Some(meta.size);
    h.content_type = Some(guess_mime(fs_path));
    let body = if req.method == Method::Get {
        BodyPlan::Whole
    } else {
        BodyPlan::Empty
    };
    Ok(Reply { status: 200, headers: h, body })
}


/// `HEAD` and `GET` of the same resource at the same moment get the same
/// status and the same headers; only the body differs.
pub proof fn lemma_head_matches_get(req: FileRequest, meta: FileMeta, fs_path: Seq<char>, cache_secs: u32)
    ensures
        ({
            let g = file_reply_view(Method::Get, req, meta, fs_path, cache_secs);
            let h = file_reply_view(Method::Head, req, meta, fs_path, cache_secs);
            &&& g.status == h.status
            &&& g.accept_ranges == h.accept_ranges
            &&& g.cache_max_age == h.cache_max_age
            &&& g.last_modified == h.last_modified
            &&& g.etag == h.etag
            &&& g.content_length == h.content_length
            &&& g.content_range == h.content_range
            &&& g.location == h.location
            &&& g.content_type == h.content_type
            &&& h.body == BodyView::Empty
        }),
{
}

/// A request without `Range` whose `If-None-Match` names the current tag first
/// is answered 304 exactly when caching is on.
pub proof fn lemma_not_modified_iff_caching(
    method: Method,
    req: FileRequest,
    meta: FileMeta,
    fs_path: Seq<char>,
    cache_secs: u32,
)
    requires
        req.range is None,
        !(req.path@.len() != 1 && ends_with_slash(req.path@)),
        req.if_none_match matches Some(ts) && ts@.len() > 0 && ts@[0].weak && ts@[0].tag@
            == etag_text(meta.size, meta.mtime_secs, meta.mtime_nanos),
    ensures
        file_reply_view(method, req, meta, fs_path, cache_secs).status == 304 <==> cache_secs > 0,
{
}


/// A full answer streams the whole file: the body delivers the file's bytes,
/// and as many of them as `Content-Length` says, which is the file's size.
pub proof fn lemma_full_body_length(
    method: Method,
    req: FileRequest,
    meta: FileMeta,
    fs_path: Seq<char>,
    cache_secs: u32,
    file: Seq<u8>,
    chunk: int,
)
    requires
        file.len() == meta.size,
        chunk > 0,
        file_reply_view(method, req, meta, fs_path, cache_secs).status == 200,
    ensures
        file_reply_view(method, req, meta, fs_path, cache_secs).content_length == Some(meta.size),
        meta.size == 0 ==> reads(Seq::empty(), chunk).len() == 0,
        meta.size > 0 ==> ({
            let rd = reads(seq![(0u64, (meta.size - 1) as u64)], chunk);
            &&& read_total(rd) == meta.size
            &&& body(file, rd) == file
        }),
{
    lemma_stream_whole(file, chunk);
}

/// A partial answer streams its ranges: the body delivers their bytes in the
/// order requested, and as many of them as `Content-Length` says, which is
/// the sum of the clamped range sizes.
pub proof fn lemma_partial_body_length(
    req: FileRequest,
    meta: FileMeta,
    fs_path: Seq<char>,
    cache_secs: u32,
    file: Seq<u8>,
    chunk: int,
)
    requires
        file.len() == meta.size,
        chunk > 0,
        file_reply_view(Method::Get, req, meta, fs_path, cache_secs).status == 206,
    ensures
        file_reply_view(Method::Get, req, meta, fs_path, cache_secs).body matches BodyView::Ranges(c)
            && ({
            let rd = reads(c, chunk);
            &&& file_reply_view(Method::Get, req, meta, fs_path, cache_secs).content_length
                == Some(read_total(rd) as u64)
            &&& read_total(rd) == total(c)
            &&& body(file, rd) == slices(file, c)
        }),
{
    let rs = req.range.unwrap();
    lemma_clamped_within(rs@, meta.size);
    let c = clamped(rs@, meta.size).unwrap();
    assert forall|k: int| 0 <= k < c.len() implies (#[trigger] c[k]).0 <= c[k].1 by {
        assert(within(c[k], meta.size));
    }
    assert forall|k: int| 0 <= k < c.len() implies (#[trigger] c[k]).1 < file.len() by {
        assert(within(c[k], meta.size));
    }
    lemma_stream_ranges(file, c, chunk);
}


/// The entity tag changes whenever the size or the modification time does:
/// equal tags come from equal sizes and times.
pub proof fn lemma_etag_injective(a: FileMeta, b: FileMeta)
    requires
        etag_text(a.size, a.mtime_secs, a.mtime_nanos) == etag_text(b.size, b.mtime_secs, b.mtime_nanos),
    ensures
        a.size == b.size,
        a.mtime_secs == b.mtime_secs,
        a.mtime_nanos == b.mtime_nanos,
{
    assert(!is_hex_digit('-')) by {
        assert forall|d: nat| d < 16 implies hex_digit(d) != '-' by {}
    }
    assert(!is_hex_digit('.')) by {
        assert forall|d: nat| d < 16 implies hex_digit(d) != '.' by {}
    }
    lemma_hex_lacks(a.size as nat, '-');
    lemma_hex_lacks(b.size as nat, '-');
    lemma_hex_lacks(a.mtime_secs as nat, '.');
    lemma_hex_lacks(b.mtime_secs as nat, '.');
    let ya = hex_of(a.mtime_secs as nat) + seq!['.'] + hex_of(a.mtime_nanos as nat);
    let yb = hex_of(b.mtime_secs as nat) + seq!['.'] + hex_of(b.mtime_nanos as nat);
    assert(etag_text(a.size, a.mtime_secs, a.mtime_nanos) =~= hex_of(a.size as nat) + seq!['-'] + ya);
    assert(etag_text(b.size, b.mtime_secs, b.mtime_nanos) =~= hex_of(b.size as nat) + seq!['-'] + yb);
    lemma_split_at(hex_of(a.size as nat), ya, hex_of(b.size as nat), yb, '-');
    lemma_split_at(
        hex_of(a.mtime_secs as nat),
        hex_of(a.mtime_nanos as nat),
        hex_of(b.mtime_secs as nat),
        hex_of(b.mtime_nanos as nat),
        '.',
    );
    lemma_hex_injective(a.size as nat, b.size as nat);
    lemma_hex_injective(a.mtime_secs as nat, b.mtime_secs as nat);
    lemma_hex_injective(a.mtime_nanos as nat, b.mtime_nanos as nat);
}

/// Every answer but a redirect carries the weak tag of the file's size and
/// modification time, and its modification time as `Last-Modified`.
pub proof fn lemma_reply_etag(
    method: Method,
    req: FileRequest,
    meta: FileMeta,
    fs_path: Seq<char>,
    cache_secs: u32,
)
    ensures
        ({
            let v = file_reply_view(method, req, meta, fs_path, cache_secs);
            v.status != 301 ==> v.etag == Some(
                (true, etag_text(meta.size, meta.mtime_secs, meta.mtime_nanos)),
            ) && v.last_modified == Some(meta.mtime_secs)
        }),
{
}

/// A `GET` without `Range`, whose `If-None-Match` does not hold, on a path
/// that is not redirected, is a 200 that streams the whole file, with the
/// file's size as `Content-Length`.
pub proof fn lemma_plain_get_is_full(req: FileRequest, meta: FileMeta, fs_path: Seq<char>, cache_secs: u32)
    requires
        req.range is None,
        !(req.path@.len() != 1 && ends_with_slash(req.path@)),
        !not_modified(
            req.if_none_match,
            etag_text(meta.size, meta.mtime_secs, meta.mtime_nanos),
            cache_secs,
        ),
    ensures
        ({
            let v = file_reply_view(Method::Get, req, meta, fs_path, cache_secs);
            &&& v.status == 200
            &&& v.content_length == Some(meta.size)
            &&& v.body == BodyView::Whole
        }),
{
}

/// `Range: bytes=0-` without `If-Range` on a non-empty file, on a path that
/// is not redirected, is a 206 that covers the whole file.
pub proof fn lemma_open_range_is_whole(req: FileRequest, meta: FileMeta, fs_path: Seq<char>, cache_secs: u32)
    requires
        meta.size > 0,
        req.range matches Some(rs) && rs@ == seq![ByteRange::AllFrom(0)],
        req.if_range is None,
        !(req.path@.len() != 1 && ends_with_slash(req.path@)),
    ensures
        ({
            let v = file_reply_view(Method::Get, req, meta, fs_path, cache_secs);
            let whole = seq![(0u64, (meta.size - 1) as u64)];
            &&& v.status == 206
            &&& v.content_length == Some(meta.size)
            &&& v.content_range == Some(content_range_text(whole, meta.size))
            &&& v.body == BodyView::Ranges(whole)
        }),
{
    let rs = req.range.unwrap()@;
    let whole = seq![(0u64, (meta.size - 1) as u64)];
    assert(rs.drop_last() =~= Seq::<ByteRange>::empty());
    assert(clamped(rs.drop_last(), meta.size) == Some(Seq::<(u64, u64)>::empty()));
    assert(satisfiable(rs.last(), meta.size) == Some((0u64, (meta.size - 1) as u64)));
    assert(Seq::<(u64, u64)>::empty().push((0u64, (meta.size - 1) as u64)) =~= whole);
    assert(clamped(rs, meta.size) == Some(whole));
    assert(whole.drop_last() =~= Seq::<(u64, u64)>::empty());
    assert(total(whole.drop_last()) == 0);
    assert(whole.last() == (0u64, (meta.size - 1) as u64));
    assert(total(whole) == meta.size);
}

} // verus!
