use vstd::prelude::*;
use vstd::utf8::encode_utf8;

use crate::config::Config;
use crate::error::Error;
use crate::file::{
    cache_header, etag, etag_text, not_modified, push_query, with_query, BodyPlan,
    BodyView, EntityTag, FileMeta, Headers, Method, Reply, ReplyView,
};
use crate::router::ends_with_slash;
use crate::text::{upper_digit, upper_hex_digit};

verus! {

/// One entry of a directory listing.
#[derive(Debug, Clone)]
pub struct Entry {
    pub name: String,
    pub is_dir: bool,
}

/// A name is hidden when it starts with `.`.
pub open spec fn hidden(name: Seq<char>) -> bool {
    name.len() > 0 && name[0] == '.'
}

pub fn is_hidden(name: &str) -> (r: bool)
    ensures
        r == hidden(name@),
{
    name.unicode_len() > 0 && name.get_char(0) == '.'
}

/// A character that a path segment may hold as it is (RFC 3986 `pchar`
/// without percent-encoding): letters, digits, `-._~`, the sub-delimiters
/// `!$&'()*+,;=`, and `:` `@`.
pub open spec fn segment_safe(c: char) -> bool {
    ('a' <= c && c <= 'z') || ('A' <= c && c <= 'Z') || ('0' <= c && c <= '9') || c == '-' || c
        == '.' || c == '_' || c == '~' || c == '!' || c == '$' || c == '&' || c == '\'' || c == '('
        || c == ')' || c == '*' || c == '+' || c == ',' || c == ';' || c == '=' || c == ':' || c
        == '@'
}

fn is_segment_safe(c: char) -> (r: bool)
    ensures
        r == segment_safe(c),
{
    ('a' <= c && c <= 'z') || ('A' <= c && c <= 'Z') || ('0' <= c && c <= '9') || c == '-' || c
        == '.' || c == '_' || c == '~' || c == '!' || c == '$' || c == '&' || c == '\'' || c == '('
        || c == ')' || c == '*' || c == '+' || c == ',' || c == ';' || c == '=' || c == ':' || c
        == '@'
}

/// Each byte written `%XX`, in upper-case hexadecimal.
pub open spec fn pct_octets(bs: Seq<u8>) -> Seq<char>
    decreases bs.len(),
{
    if bs.len() == 0 {
        Seq::empty()
    } else {
        pct_octets(bs.drop_last()) + seq![
            '%',
            upper_hex_digit((bs.last() / 16) as nat),
            upper_hex_digit((bs.last() % 16) as nat),
        ]
    }
}

/// A character as it stands in a path segment: kept when safe, else each
/// byte of its UTF-8 encoding percent-encoded.
pub open spec fn encode_char(c: char) -> Seq<char> {
    if segment_safe(c) {
        seq![c]
    } else {
        pct_octets(encode_utf8(seq![c]))
    }
}

/// A name percent-encoded as a URL path segment.
pub open spec fn segment_encoded(name: Seq<char>) -> Seq<char>
    decreases name.len(),
{
    if name.len() == 0 {
        Seq::empty()
    } else {
        segment_encoded(name.drop_last()) + encode_char(name.last())
    }
}

/// Appends each byte as `%XX`.
fn push_octets(out: &mut String, bs: &[u8])
    ensures
        final(out)@ == old(out)@ + pct_octets(bs@),
{
    proof {
        reveal_strlit("%");
    }
    let mut j: usize = 0;
    assert(bs@.take(0) =~= Seq::<u8>::empty());
    assert(old(out)@ + pct_octets(bs@.take(0)) =~= old(out)@);
    while j < bs.len()
        invariant
            0 <= j <= bs@.len(),
            out@ == old(out)@ + pct_octets(bs@.take(j as int)),
            "%"@ == seq!['%'],
        decreases bs.len() - j,
    {
        let b = bs[j];
        let ghost before = out@;
        out.append("%");
        out.append(upper_digit(b / 16));
        out.append(upper_digit(b % 16));
        proof {
            let t = bs@.take(j + 1);
            assert(t.drop_last() =~= bs@.take(j as int));
            assert(t.last() == b);
            assert(out@ =~= before + seq![
                '%',
                upper_hex_digit((b / 16) as nat),
                upper_hex_digit((b % 16) as nat),
            ]);
        }
        j = j + 1;
    }
    assert(bs@.take(bs@.len() as int) =~= bs@);
}

/// Appends `name` percent-encoded as a URL path segment.
fn push_segment_encoded(out: &mut String, name: &str)
    ensures
        final(out)@ == old(out)@ + segment_encoded(name@),
{
    let n = name.unicode_len();
    let mut i: usize = 0;
    assert(name@.take(0) =~= Seq::<char>::empty());
    assert(old(out)@ + segment_encoded(name@.take(0)) =~= old(out)@);
    while i < n
        invariant
            n == name@.len(),
            0 <= i <= n,
            out@ == old(out)@ + segment_encoded(name@.take(i as int)),
        decreases n - i,
    {
        let c = name.get_char(i);
        let one = name.substring_char(i, i + 1);
        assert(one@ =~= seq![c]);
        let ghost before = out@;
        if is_segment_safe(c) {
            out.append(one);
        } else {
            push_octets(out, one.as_bytes());
        }
        proof {
            let t = name@.take(i + 1);
            assert(t.drop_last() =~= name@.take(i as int));
            assert(t.last() == c);
            assert(out@ =~= before + encode_char(c));
        }
        i = i + 1;
    }
    assert(name@.take(n as int) =~= name@);
}

pub open spec fn dir_mark(e: Entry) -> Seq<char> {
    if e.is_dir {
        seq!['/']
    } else {
        Seq::empty()
    }
}

/// The list item of an entry; directories get a trailing `/`.
pub open spec fn item_html(e: Entry) -> Seq<char> {
    "<li><a href=\""@ + segment_encoded(e.name@) + dir_mark(e) + "\">"@ + e.name@ + dir_mark(e)
        + "</a></li>\n"@
}

/// The list items of the entries shown, in the order given.
pub open spec fn items_html(es: Seq<Entry>, hide_entry: bool) -> Seq<char>
    decreases es.len(),
{
    if es.len() == 0 {
        Seq::empty()
    } else if hide_entry && hidden(es.last().name@) {
        items_html(es.drop_last(), hide_entry)
    } else {
        items_html(es.drop_last(), hide_entry) + item_html(es.last())
    }
}

pub open spec fn page_head(title: Seq<char>, url: Seq<char>) -> Seq<char> {
    "<!DOCTYPE HTML><html><head><meta http-equiv=\"Content-Type\" content=\"text/html; charset=utf-8\">\n<title>Index listing for "@
        + title + "</title></head>\n<body><h1>Index listing for <a href=\""@ + url
        + "../\">"@ + title + "</a></h1><hr><ul>\n"@
}

pub open spec fn page_tail() -> Seq<char> {
    "</ul><hr></body></html>"@
}

/// The HTML listing of a directory.
pub open spec fn listing_html(title: Seq<char>, url: Seq<char>, es: Seq<Entry>, hide_entry: bool) -> Seq<char> {
    page_head(title, url) + items_html(es, hide_entry) + page_tail()
}

fn push_item(html: &mut String, e: &Entry)
    ensures
        final(html)@ == old(html)@ + item_html(*e),
{
    html.append("<li><a href=\"");
    push_segment_encoded(html, e.name.as_str());
    if e.is_dir {
        proof {
            reveal_strlit("/");
        }
        html.append("/");
    }
    html.append("\">");
    html.append(e.name.as_str());
    if e.is_dir {
        html.append("/");
    }
    html.append("</a></li>\n");
    assert(final(html)@ =~= old(html)@ + item_html(*e));
}

/// Renders the listing of a directory: `title` is its normalized URL path,
/// `url` the request path, `entries` what the directory holds, in the order
/// read. With `hide_entry`, names that start with `.` are left out.
pub fn render_html(title: &str, url: &str, entries: &Vec<Entry>, hide_entry: bool) -> (r: String)
    ensures
        r@ == listing_html(title@, url@, entries@, hide_entry),
{
    let mut html = String::from_str(
        "<!DOCTYPE HTML><html><head><meta http-equiv=\"Content-Type\" content=\"text/html; charset=utf-8\">\n<title>Index listing for ",
    );
    html.append(title);
    html.append("</title></head>\n<body><h1>Index listing for <a href=\"");
    html.append(url);
    html.append("../\">");
    html.append(title);
    html.append("</a></h1><hr><ul>\n");
    assert(html@ =~= page_head(title@, url@));
    let mut i: usize = 0;
    assert(entries@.take(0) =~= Seq::<Entry>::empty());
    while i < entries.len()
        invariant
            0 <= i <= entries.len(),
            html@ == page_head(title@, url@) + items_html(entries@.take(i as int), hide_entry),
        decreases entries.len() - i,
    {
        assert(entries@.take(i + 1).drop_last() =~= entries@.take(i as int));
        let e = &entries[i];
        if hide_entry && is_hidden(e.name.as_str()) {
        } else {
            push_item(&mut html, e);
            assert(html@ =~= page_head(title@, url@) + (items_html(entries@.take(i as int), hide_entry)
                + item_html(entries@[i as int])));
        }
        i = i + 1;
    }
    assert(entries@.take(entries.len() as int) =~= entries@);
    html.append("</ul><hr></body></html>");
    assert(html@ =~= listing_html(title@, url@, entries@, hide_entry));
    html
}


/// The next move of the index responder.
#[derive(Debug, Clone)]
pub enum IndexStep {
    /// Answer at once.
    Reply(Reply),
    /// Read the directory to see that it can be listed, then answer with
    /// [`index_probed`].
    ProbeDir,
    /// Read the directory's metadata, then see [`index_cached`].
    Stat,
}

/// Where a request for a directory without a trailing `/` is sent.
pub open spec fn index_location(path: Seq<char>, query: Option<String>) -> Seq<char> {
    with_query(path + seq!['/'], query)
}

/// A response with no body whose only header is `Cache-Control`.
pub open spec fn bare_view(status: u16, cache_secs: u32) -> ReplyView {
    ReplyView {
        status,
        accept_ranges: false,
        cache_max_age: cache_header(cache_secs),
        last_modified: None,
        etag: None,
        content_length: None,
        content_range: None,
        location: None,
        content_type: None,
        body: BodyView::Empty,
    }
}

fn bare_reply(status: u16, cache_secs: u32) -> (r: Reply)
    ensures
        r.view() == bare_view(status, cache_secs),
{
    Reply {
        status,
        headers: Headers {
            accept_ranges: false,
            cache_max_age: if cache_secs > 0 {
                Some(cache_secs)
            } else {
                None
            },
            last_modified: None,
            etag: None,
            content_length: None,
            content_range: None,
            location: None,
            content_type: None,
        },
        body: BodyPlan::Empty,
    }
}

/// The first decision on a request for a directory: only `GET` and `HEAD`
/// are served; a path without a trailing `/` is redirected to the same path
/// with one; without `show_index` the directory is only probed; else its
/// metadata is needed.
pub fn index_request(method: Method, path: &str, query: &Option<String>, config: &Config) -> (r:
    Result<IndexStep, Error>)
    ensures
        r is Err <==> method == Method::Other,
        r matches Err(e) ==> e == Error::Method,
        r is Ok && !ends_with_slash(path@) ==> (r matches Ok(IndexStep::Reply(x)) && x.view() == (
        ReplyView {
            location: Some(index_location(path@, *query)),
            ..bare_view(301, config.cache_secs)
        })),
        r is Ok && ends_with_slash(path@) && !config.show_index ==> (r matches Ok(
            IndexStep::ProbeDir,
        )),
        r is Ok && ends_with_slash(path@) && config.show_index ==> (r matches Ok(IndexStep::Stat)),
{
    if method == Method::Other {
        return Err(Error::Method);
    }
    let n = path.unicode_len();
    if n == 0 || path.get_char(n - 1) != '/' {
        proof {
            reveal_strlit("/");
        }
        let mut loc = String::from_str(path);
        loc.append("/");
        push_query(&mut loc, query);
        assert(loc@ == index_location(path@, *query));
        let mut x = bare_reply(301, config.cache_secs);
        x.headers.location = Some(loc);
        assert(x.view() == (ReplyView {
            location: Some(index_location(path@, *query)),
            ..bare_view(301, config.cache_secs)
        }));
        return Ok(IndexStep::Reply(x));
    }
    if !config.show_index {
        Ok(IndexStep::ProbeDir)
    } else {
        Ok(IndexStep::Stat)
    }
}

/// The answer once the directory was read without error, with `show_index`
/// off: 200 and no body.
pub fn index_probed(config: &Config) -> (r: Reply)
    ensures
        r.view() == bare_view(200, config.cache_secs),
{
    bare_reply(200, config.cache_secs)
}

/// 304 when `If-None-Match` names first the directory's current tag and
/// caching is on; `None` when the listing must be rendered.
pub fn index_cached(meta: &FileMeta, if_none_match: &Option<Vec<EntityTag>>, config: &Config) -> (r:
    Option<Reply>)
    ensures
        r is Some <==> not_modified(
            *if_none_match,
            etag_text(meta.size, meta.mtime_secs, meta.mtime_nanos),
            config.cache_secs,
        ),
        r matches Some(x) ==> x.view() == bare_view(304, config.cache_secs),
{
    let tag = etag(meta);
    let hit = match if_none_match {
        Some(ts) => ts.len() > 0 && config.cache_secs > 0 && ts[0].weak && ts[0].tag == tag.tag,
        None => false,
    };
    if hit {
        Some(bare_reply(304, config.cache_secs))
    } else {
        None
    }
}

pub open spec fn html_type() -> Seq<char> {
    "text/html; charset=utf-8"@
}

/// The listing page: 200 with its length in bytes, the directory's
/// modification time and tag, and the content type that the caller set in
/// advance, or HTML when it set none; `HEAD` gets no body.
pub fn index_page(
    method: Method,
    title: &str,
    url: &str,
    meta: &FileMeta,
    entries: &Vec<Entry>,
    config: &Config,
    preset_type: Option<String>,
) -> (r: Reply)
    ensures
        ({
            let html = listing_html(title@, url@, entries@, config.hide_entry);
            r.view() == ReplyView {
                status: 200,
                accept_ranges: false,
                cache_max_age: cache_header(config.cache_secs),
                last_modified: Some(meta.mtime_secs),
                etag: Some((true, etag_text(meta.size, meta.mtime_secs, meta.mtime_nanos))),
                content_length: Some((encode_utf8(html).len() as usize) as u64),
                content_range: None,
                location: None,
                content_type: Some(
                    match preset_type {
                        Some(t) => t@,
                        None => html_type(),
                    },
                ),
                body: if method == Method::Get {
                    BodyView::Text(html)
                } else {
                    BodyView::Empty
                },
            }
        }),
{
    let html = render_html(title, url, entries, config.hide_entry);
    let len = html.as_str().len() as u64;
    let mut x = bare_reply(200, config.cache_secs);
    x.headers.last_modified = Some(meta.mtime_secs);
    x.headers.etag = Some(etag(meta));
    x.headers.content_length = Some(len);
    x.headers.content_type = match preset_type {
        Some(t) => Some(t),
        None => Some(String::from_str("text/html; charset=utf-8")),
    };
    if method == Method::Get {
        x.body = BodyPlan::Text(html);
    }
    x
}

} // verus!
