use hyper_fs::{
    error_handler, etag, file_response, gate, index_cached, index_page, index_probed,
    index_request, is_hidden, render_html, BodyPlan, ByteRange, ChunkStream, Config, EntityTag,
    Entry, EntryKind, Error, Exception, ExceptionHandler, FileMeta, FileRequest, IfRange,
    IndexStep, IoKind, Method, Reply, Target,
};

fn meta(size: u64) -> FileMeta {
    FileMeta { size, mtime_secs: 1_600_000_000, mtime_nanos: 123_456_789 }
}

fn get(path: &str) -> FileRequest {
    FileRequest {
        method: Method::Get,
        path: path.to_string(),
        query: None,
        range: None,
        if_range: None,
        if_none_match: None,
    }
}

fn ranged(path: &str, rs: Vec<ByteRange>) -> FileRequest {
    FileRequest { range: Some(rs), ..get(path) }
}

fn respond(req: &FileRequest, m: &FileMeta, config: &Config) -> Reply {
    file_response(req, m, "/srv/a.txt", config).unwrap()
}

/// The chunks that streaming a body plan out of `file` yields.
fn stream(file: &[u8], plan: &BodyPlan, chunk_size: usize) -> Vec<Vec<u8>> {
    let mut s = match plan {
        BodyPlan::Whole => ChunkStream::whole(file.len() as u64, chunk_size),
        BodyPlan::Ranges(v) => ChunkStream::ranges(v.clone(), chunk_size),
        _ => return vec![],
    };
    let mut out = vec![];
    while let Some((off, len)) = s.next_read() {
        out.push(file[off as usize..off as usize + len].to_vec());
    }
    out
}

#[test]
fn whole_file_get() {
    let file = b"hello world\n";
    let c = Config::new();
    let r = respond(&get("/a.txt"), &meta(12), &c);
    assert_eq!(r.status, 200);
    assert_eq!(r.headers.content_length, Some(12));
    assert!(r.headers.accept_ranges);
    assert_eq!(r.headers.content_type.as_deref(), Some("text/plain"));
    assert_eq!(r.headers.cache_max_age, None);
    let chunks = stream(file, &r.body, *c.get_chunk_size());
    assert_eq!(chunks.concat(), file.to_vec());
}

#[test]
fn etag_is_weak_hex_of_size_and_mtime() {
    let t = etag(&FileMeta { size: 12, mtime_secs: 0x5f5e100, mtime_nanos: 255 });
    assert!(t.weak);
    assert_eq!(t.tag, "c-5f5e100.ff");
    let t = etag(&FileMeta { size: 0, mtime_secs: 0, mtime_nanos: 0 });
    assert_eq!(t.tag, "0-0.0");
    assert_ne!(etag(&meta(12)).tag, etag(&meta(13)).tag);
}

#[test]
fn conditional_not_modified() {
    let m = meta(12);
    let cached = Config::new().cache_secs(60);
    let first = respond(&get("/a.txt"), &m, &cached);
    let tag = first.headers.etag.clone().unwrap();
    let second = FileRequest { if_none_match: Some(vec![tag.clone()]), ..get("/a.txt") };
    let r = respond(&second, &m, &cached);
    assert_eq!(r.status, 304);
    assert!(matches!(r.body, BodyPlan::Empty));
    assert_eq!(r.headers.cache_max_age, Some(60));
    let r = respond(&second, &m, &Config::new().cache_secs(0));
    assert_eq!(r.status, 200);
    let stale = FileRequest {
        if_none_match: Some(vec![EntityTag { weak: true, tag: "0-0.0".to_string() }]),
        ..get("/a.txt")
    };
    assert_eq!(respond(&stale, &m, &cached).status, 200);
}

#[test]
fn range_on_large_file() {
    let size: u64 = 1 << 20;
    let file: Vec<u8> = (0..size).map(|i| (i % 251) as u8).collect();
    let c = Config::new().chunk_size(256);
    let r = respond(&ranged("/big.bin", vec![ByteRange::FromTo(1000, 1999)]), &meta(size), &c);
    assert_eq!(r.status, 206);
    assert_eq!(r.headers.content_length, Some(1000));
    assert_eq!(r.headers.content_range.as_deref(), Some("bytes 1000-1999/1048576"));
    let chunks = stream(&file, &r.body, 256);
    let lens: Vec<usize> = chunks.iter().map(|c| c.len()).collect();
    assert_eq!(lens, vec![256, 256, 256, 232]);
    assert_eq!(chunks.concat(), file[1000..2000].to_vec());
}

#[test]
fn empty_file_has_no_chunks() {
    let c = Config::new();
    let r = respond(&get("/empty"), &meta(0), &c);
    assert_eq!(r.status, 200);
    assert_eq!(r.headers.content_length, Some(0));
    assert!(stream(b"", &r.body, 16384).is_empty());
}

#[test]
fn single_byte_range() {
    let r = respond(&ranged("/one", vec![ByteRange::FromTo(0, 0)]), &meta(1), &Config::new());
    assert_eq!(r.status, 206);
    assert_eq!(r.headers.content_length, Some(1));
    assert_eq!(stream(b"x", &r.body, 16384), vec![b"x".to_vec()]);
}

#[test]
fn open_range_covers_whole_file() {
    let file = b"0123456789";
    let r = respond(&ranged("/ten", vec![ByteRange::AllFrom(0)]), &meta(10), &Config::new());
    assert_eq!(r.status, 206);
    assert_eq!(r.headers.content_length, Some(10));
    assert_eq!(r.headers.content_range.as_deref(), Some("bytes 0-9/10"));
    assert_eq!(stream(file, &r.body, 16384).concat(), file.to_vec());
}

#[test]
fn range_past_end_is_unsatisfiable() {
    let r = respond(&ranged("/ten", vec![ByteRange::AllFrom(999999)]), &meta(10), &Config::new());
    assert_eq!(r.status, 416);
    assert_eq!(r.headers.content_range.as_deref(), Some("bytes */10"));
    let both = vec![ByteRange::FromTo(0, 1), ByteRange::Last(0)];
    assert_eq!(respond(&ranged("/ten", both), &meta(10), &Config::new()).status, 416);
}

#[test]
fn multi_range() {
    let file = b"abcdefghij";
    let rs = vec![ByteRange::FromTo(0, 0), ByteRange::FromTo(5, 5)];
    let r = respond(&ranged("/ten", rs), &meta(10), &Config::new());
    assert_eq!(r.status, 206);
    assert_eq!(r.headers.content_length, Some(2));
    assert_eq!(r.headers.content_range.as_deref(), Some("bytes 0-0,5-5/10"));
    assert_eq!(stream(file, &r.body, 16384).concat(), b"af".to_vec());
}

#[test]
fn suffix_range_and_clamping() {
    let r = respond(&ranged("/ten", vec![ByteRange::Last(3)]), &meta(10), &Config::new());
    assert_eq!(r.headers.content_range.as_deref(), Some("bytes 7-9/10"));
    let r = respond(&ranged("/ten", vec![ByteRange::Last(30)]), &meta(10), &Config::new());
    assert_eq!(r.headers.content_range.as_deref(), Some("bytes 0-9/10"));
    let r = respond(&ranged("/ten", vec![ByteRange::FromTo(8, 100)]), &meta(10), &Config::new());
    assert_eq!(r.headers.content_range.as_deref(), Some("bytes 8-9/10"));
}

#[test]
fn whole_file_equals_full_range() {
    let file: Vec<u8> = (0..1000u32).map(|i| (i * 7 % 256) as u8).collect();
    let whole = stream(&file, &BodyPlan::Whole, 100);
    let ranged = stream(&file, &BodyPlan::Ranges(vec![(0, 999)]), 100);
    assert_eq!(whole, ranged);
    assert_eq!(whole.concat(), file);
}

#[test]
fn if_range_decides_between_partial_and_full() {
    let m = meta(10);
    let c = Config::new();
    let tag = etag(&m);
    let with = |v: IfRange| FileRequest {
        if_range: Some(v),
        ..ranged("/ten", vec![ByteRange::FromTo(2, 3)])
    };
    assert_eq!(respond(&with(IfRange::Tag(tag.clone())), &m, &c).status, 206);
    let other = EntityTag { weak: false, tag: tag.tag.clone() };
    assert_eq!(respond(&with(IfRange::Tag(other)), &m, &c).status, 200);
    assert_eq!(respond(&with(IfRange::Date(m.mtime_secs)), &m, &c).status, 206);
    assert_eq!(respond(&with(IfRange::Date(m.mtime_secs - 1)), &m, &c).status, 200);
    let bad = FileRequest {
        if_range: Some(IfRange::Date(0)),
        ..ranged("/ten", vec![ByteRange::AllFrom(50)])
    };
    assert_eq!(respond(&bad, &m, &c).status, 200);
}

#[test]
fn head_matches_get() {
    let m = meta(10);
    let c = Config::new().cache_secs(5);
    for base in [get("/ten"), ranged("/ten", vec![ByteRange::FromTo(1, 2)])] {
        let g = respond(&base, &m, &c);
        let h = respond(&FileRequest { method: Method::Head, ..base.clone() }, &m, &c);
        assert_eq!(g.status, h.status);
        assert_eq!(g.headers.content_length, h.headers.content_length);
        assert_eq!(g.headers.last_modified, h.headers.last_modified);
        assert_eq!(g.headers.etag.as_ref().map(|t| &t.tag), h.headers.etag.as_ref().map(|t| &t.tag));
        assert_eq!(g.headers.cache_max_age, Some(5));
        assert_eq!(g.headers.cache_max_age, h.headers.cache_max_age);
        assert_eq!(g.headers.content_range, h.headers.content_range);
        assert!(matches!(h.body, BodyPlan::Empty));
    }
}

#[test]
fn other_methods_are_refused() {
    let req = FileRequest { method: Method::Other, ..get("/a.txt") };
    assert_eq!(file_response(&req, &meta(1), "/a.txt", &Config::new()).err(), Some(Error::Method));
    assert_eq!(
        index_request(Method::Other, "/d/", &None, &Config::new()).err(),
        Some(Error::Method)
    );
}

#[test]
fn trailing_slash_redirects() {
    let r = respond(&get("/file/"), &meta(3), &Config::new());
    assert_eq!(r.status, 301);
    assert_eq!(r.headers.location.as_deref(), Some("/file"));
    let q = FileRequest { query: Some("x=1".to_string()), ..get("/file//") };
    let r = respond(&q, &meta(3), &Config::new());
    assert_eq!(r.headers.location.as_deref(), Some("/file?x=1"));
    match index_request(Method::Get, "/dir", &None, &Config::new()).unwrap() {
        IndexStep::Reply(r) => {
            assert_eq!(r.status, 301);
            assert_eq!(r.headers.location.as_deref(), Some("/dir/"));
        }
        _ => panic!("expected a redirect"),
    }
}

#[test]
fn error_statuses() {
    assert_eq!(error_handler(&Error::Io(IoKind::NotFound)), 404);
    assert_eq!(error_handler(&Error::Io(IoKind::PermissionDenied)), 403);
    assert_eq!(error_handler(&Error::Io(IoKind::Other)), 500);
    assert_eq!(error_handler(&Error::Method), 405);
    assert_eq!(error_handler(&Error::Typo), 500);
    assert_eq!(error_handler(&Error::Route), 500);
    assert_eq!(Error::not_found(), Error::Io(IoKind::NotFound));
    assert_eq!(ExceptionHandler.call(Exception::not_found()), 404);
    assert_eq!(ExceptionHandler.call(Exception::Method), 405);
}

#[test]
fn metadata_gate() {
    assert_eq!(gate(EntryKind::File), Ok(Target::File));
    assert_eq!(gate(EntryKind::Dir), Ok(Target::Index));
    assert_eq!(gate(EntryKind::Other), Err(Error::Typo));
}

fn entries() -> Vec<Entry> {
    vec![
        Entry { name: "a".to_string(), is_dir: false },
        Entry { name: ".hidden".to_string(), is_dir: false },
        Entry { name: "sub".to_string(), is_dir: true },
        Entry { name: "a b%".to_string(), is_dir: false },
    ]
}

#[test]
fn directory_listing() {
    let c = Config::new().show_index(true);
    assert!(matches!(index_request(Method::Get, "/dir/", &None, &c), Ok(IndexStep::Stat)));
    let m = meta(4096);
    assert!(index_cached(&m, &None, &c).is_none());
    let r = index_page(Method::Get, "/dir/", "/dir/", &m, &entries(), &c, None);
    assert_eq!(r.status, 200);
    assert_eq!(r.headers.content_type.as_deref(), Some("text/html; charset=utf-8"));
    let html = match &r.body {
        BodyPlan::Text(t) => t.clone(),
        _ => panic!("expected a page"),
    };
    assert_eq!(r.headers.content_length, Some(html.len() as u64));
    assert!(html.contains("<a href=\"a\">a</a>"));
    assert!(html.contains("<a href=\".hidden\">.hidden</a>"));
    assert!(html.contains("<a href=\"sub/\">sub/</a>"));
    assert!(html.contains("<a href=\"a%20b%25\">a b%</a>"));
    assert!(html.contains("<title>Index listing for /dir/</title>"));
    let hidden = render_html("/dir/", "/dir/", &entries(), true);
    assert!(!hidden.contains(".hidden"));
    assert!(hidden.contains("<a href=\"sub/\">sub/</a>"));
    let head = index_page(Method::Head, "/dir/", "/dir/", &m, &entries(), &c, None);
    assert_eq!(head.headers.content_length, r.headers.content_length);
    assert!(matches!(head.body, BodyPlan::Empty));
}

#[test]
fn directory_not_modified_and_probe() {
    let m = meta(4096);
    let c = Config::new().show_index(true).cache_secs(30);
    let r = index_page(Method::Get, "/d/", "/d/", &m, &vec![], &c, None);
    let tag = r.headers.etag.clone().unwrap();
    let hit = index_cached(&m, &Some(vec![tag.clone()]), &c).unwrap();
    assert_eq!(hit.status, 304);
    assert!(index_cached(&m, &Some(vec![tag]), &Config::new().show_index(true)).is_none());
    let plain = Config::new();
    assert!(matches!(index_request(Method::Head, "/d/", &None, &plain), Ok(IndexStep::ProbeDir)));
    let r = index_probed(&plain);
    assert_eq!(r.status, 200);
    assert!(matches!(r.body, BodyPlan::Empty));
}

#[test]
fn hidden_names() {
    assert!(is_hidden(".git"));
    assert!(!is_hidden("git"));
    assert!(!is_hidden(""));
}

#[test]
fn config_knobs() {
    let mut c = Config::default();
    assert!(!c.get_follow_links() && !c.get_show_index() && !c.get_hide_entry());
    assert_eq!(*c.get_cache_secs(), 0);
    assert_eq!(*c.get_chunk_size(), 16384);
    c.set_follow_links(true);
    c.set_show_index(true);
    c.set_hide_entry(true);
    c.set_cache_secs(9);
    c.set_chunk_size(7);
    assert!(c.get_follow_links() && c.get_show_index() && c.get_hide_entry());
    assert_eq!((*c.get_cache_secs(), *c.get_chunk_size()), (9, 7));
    let d = Config::new().follow_links(true).hide_entry(true).chunk_size(3);
    assert!(d.follow_links && d.hide_entry && !d.show_index);
    assert_eq!(d.chunk_size, 3);
}

#[test]
fn listing_links_follow_path_segment_rules() {
    let names = ["|", "^[]\\", "x y", "é", "a-b_c.d~e!$&'()*+,;=:@"];
    let entries: Vec<Entry> =
        names.iter().map(|n| Entry { name: n.to_string(), is_dir: false }).collect();
    let html = render_html("/", "/", &entries, false);
    assert!(html.contains("<a href=\"%7C\">|</a>"));
    assert!(html.contains("<a href=\"%5E%5B%5D%5C\">^[]\\</a>"));
    assert!(html.contains("<a href=\"x%20y\">x y</a>"));
    assert!(html.contains("<a href=\"%C3%A9\">é</a>"));
    assert!(html.contains("<a href=\"a-b_c.d~e!$&'()*+,;=:@\">"));
}

#[test]
fn preset_content_type_wins_on_listing() {
    let c = Config::new().show_index(true);
    let m = meta(4096);
    let preset = Some("text/html; charset=gbk".to_string());
    let r = index_page(Method::Get, "/d/", "/d/", &m, &entries(), &c, preset);
    assert_eq!(r.headers.content_type.as_deref(), Some("text/html; charset=gbk"));
    let r = index_page(Method::Get, "/d/", "/d/", &m, &entries(), &c, None);
    assert_eq!(r.headers.content_type.as_deref(), Some("text/html; charset=utf-8"));
}
