use hyper_fs::{route_request, router, Error, IoKind};

/// The entries of the fixture tree that the routing tests resolve against.
fn on_disk(p: &str) -> bool {
    matches!(p, "tests" | "tests/index" | "tests/index/file")
}

fn route(req: &str, base: &str, path: &str) -> Result<(String, String), Error> {
    router(req, base, path).and_then(|r| {
        let e = on_disk(&r.fs_path);
        r.confirm(e)
    })
}

#[test]
fn router_test() {
    fn test(list: Vec<((&str, &str, &str), Result<(&str, &str), Error>)>) {
        for (idx, (args, res)) in list.into_iter().enumerate() {
            let (req, base, path) = args;
            let res = res.map(|(u, p)| (u.to_string(), p.to_string()));
            let res2 = route(req, base, path);
            if res.is_ok() && res2.is_ok() && res.as_ref().unwrap() != res2.as_ref().unwrap()
                || !(res.is_ok() && res2.is_ok()) && !(res.is_err() && res2.is_err())
            {
                panic!(
                    "\n{:?} != {:2}\n{:?} <= router(\"{}\", \"{}\", \"{}\")\n",
                    res, idx, res2, req, base, path
                );
            }
        }
    }
    assert!(on_disk("tests/index"));

    test(vec![
        (("/", "/", "tests"), Ok(("/", "tests"))),
        (("/../", "/", "tests"), Ok(("/", "tests"))),
        (("/../../", "/", "tests"), Ok(("/", "tests"))),
        (("/index", "/", "tests"), Ok(("/index", "tests/index"))),
        (("/index/", "/", "tests"), Ok(("/index/", "tests/index"))),
        (("/index/../", "/", "tests"), Ok(("/", "tests"))),
        (("/index/../.", "/", "tests"), Ok(("", "tests"))),
        (("/index/.././", "/", "tests"), Ok(("/", "tests"))),
        (("/index/../..", "/", "tests"), Ok(("", "tests"))),
        (("/index/../../", "/", "tests"), Ok(("/", "tests"))),
        (("/index/file", "/", "tests"), Ok(("/index/file", "tests/index/file"))),
        (("/index/file/", "/", "tests"), Ok(("/index/file/", "tests/index/file"))),
        (("/index/file/../", "/", "tests"), Ok(("/index/", "tests/index"))),
        (("/index/file/../../", "/", "tests"), Ok(("/", "tests"))),
        (("/index/file/../..", "/", "tests"), Ok(("", "tests"))),
        (("/index/../file/../../", "/", "tests"), Ok(("/", "tests"))),
        (("/index/../../file/../../", "/", "tests"), Ok(("/", "tests"))),
    ]);
}

#[test]
fn traversal_is_clamped_at_root() {
    let r = router("/../../etc/passwd", "/", "/var/www").unwrap();
    assert_eq!(r.url_path, "");
    assert_eq!(r.fs_path, "/var/www");
    assert!(!r.probe);
}

#[test]
fn spec_tie_breaks() {
    let r = router("/a/../b", "/", "root").unwrap();
    assert_eq!((r.url_path.as_str(), r.fs_path.as_str()), ("/b", "root/b"));
    let r = router("/a/../..", "/", "root").unwrap();
    assert_eq!((r.url_path.as_str(), r.fs_path.as_str()), ("", "root"));
    let r = router("/a/.././", "/", "root").unwrap();
    assert_eq!((r.url_path.as_str(), r.fs_path.as_str()), ("/", "root"));
}

#[test]
fn missing_entry_is_not_found() {
    let r = route("/nothing", "/", "tests");
    assert_eq!(r, Err(Error::Io(IoKind::NotFound)));
}

#[test]
fn mount_prefix_mismatch_is_route() {
    assert_eq!(router("/other/x", "/doc/", "/srv").err(), Some(Error::Route));
    assert_eq!(router("/doc", "/doc/more/", "/srv").err(), Some(Error::Route));
    let r = router("/doc/a/b", "/doc/", "/srv/").unwrap();
    assert_eq!(r.url_path, "/doc/a/b");
    assert_eq!(r.fs_path, "/srv/a/b");
    assert!(r.probe);
    let r = router("/doc/", "/doc", "/srv").unwrap();
    assert_eq!(r.fs_path, "/srv");
    assert!(!r.probe);
}

#[test]
fn routing_normalized_path_again_is_identity() {
    for req in ["/a/./b/../c/", "/x//y", "/../z", "/a/b/../../..", "/"] {
        let first = router(req, "/", "root").unwrap();
        let second = router(&first.url_path, "/", "root").unwrap();
        assert_eq!(first.url_path, second.url_path);
        assert_eq!(first.fs_path, second.fs_path);
        assert_eq!(first.probe, second.probe);
    }
}

#[test]
fn fs_path_stays_under_root() {
    for req in ["/../../etc", "/a/../../b", "/./.././c/d", "/%2e%2e/x"] {
        let r = router(req, "/", "/var/www").unwrap();
        assert!(r.fs_path.starts_with("/var/www"));
        assert!(!r.fs_path.contains("/../"));
    }
}

#[test]
fn request_path_is_percent_decoded() {
    let r = route_request("/a%20b/c%2Fd", "/", "/r").unwrap();
    assert_eq!(r.url_path, "/a b/c/d");
    assert_eq!(r.fs_path, "/r/a b/c/d");
    let r = route_request("/100%", "/", "/r").unwrap();
    assert_eq!(r.url_path, "/100%");
    let r = route_request("/%2e%2e/%2E%2E/x", "/", "/r").unwrap();
    assert_eq!(r.url_path, "");
    assert_eq!(route_request("/%ff", "/", "/r").err(), Some(Error::Io(IoKind::NotFound)));
}
