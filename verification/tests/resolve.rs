use static_http::request::{Headers, Request, RequestError};
use static_http::resolve::{
    candidates, check_request, request_path, resolve, target_path, Probe, Resource,
};

fn request(method: &str, target: &str, version: &str) -> Request {
    Request {
        method: method.to_owned(),
        target: target.to_owned(),
        version: version.to_owned(),
        headers: Headers::new(),
    }
}

fn probe(file: bool, index_html: bool, index_htm: bool, directory: bool) -> Probe {
    Probe { file, index_html, index_htm, directory }
}

fn static_file(resource: Resource) -> (String, String) {
    match resource {
        Resource::StaticFile { path, mime_type } => (path, mime_type),
        other => panic!("no file: {other:?}"),
    }
}

#[test]
fn check_accepts_get_over_http_1_1() {
    assert_eq!(check_request(&request("GET", "/", "HTTP/1.1")), Ok(()));
    assert_eq!(check_request(&request("GET", "/a?b", "HTTP/1.1")), Ok(()));
}

#[test]
fn check_refuses_other_versions() {
    for version in ["HTTP/1.0", "HTTP/2", "http/1.1", "", "HTTP/1.1 "] {
        assert_eq!(
            check_request(&request("GET", "/", version)),
            Err(RequestError::UnsupportedVersion)
        );
    }
}

#[test]
fn check_refuses_other_methods() {
    for method in ["POST", "HEAD", "get", "", "GETT", "PUT", "DELETE"] {
        assert_eq!(
            check_request(&request(method, "/", "HTTP/1.1")),
            Err(RequestError::UnsupportedMethod)
        );
    }
}

#[test]
fn check_refuses_relative_targets() {
    for target in ["", "index.html", "../x", "http://host/", "*", "?/"] {
        assert_eq!(
            check_request(&request("GET", target, "HTTP/1.1")),
            Err(RequestError::RelativeTarget)
        );
    }
}

#[test]
fn check_looks_at_version_then_method_then_target() {
    assert_eq!(
        check_request(&request("POST", "x", "HTTP/1.0")),
        Err(RequestError::UnsupportedVersion)
    );
    assert_eq!(
        check_request(&request("POST", "x", "HTTP/1.1")),
        Err(RequestError::UnsupportedMethod)
    );
    assert_eq!(
        check_request(&request("GET", "x", "HTTP/1.0")),
        Err(RequestError::UnsupportedVersion)
    );
}

#[test]
fn target_path_of_root_is_dot() {
    assert_eq!(target_path("/"), Ok(".".to_owned()));
    assert_eq!(target_path("/?a=b"), Ok(".".to_owned()));
    assert_eq!(target_path("/./"), Ok(".".to_owned()));
    assert_eq!(target_path("/.."), Ok(".".to_owned()));
    assert_eq!(target_path(""), Ok(".".to_owned()));
}

#[test]
fn target_path_cuts_query_at_first_question_mark() {
    assert_eq!(target_path("/a/b?x=1"), Ok("a/b".to_owned()));
    assert_eq!(target_path("/a?b?c"), Ok("a".to_owned()));
    assert_eq!(target_path("/a?%zz"), Ok("a".to_owned()));
    assert_eq!(target_path("/a?../../b"), Ok("a".to_owned()));
}

#[test]
fn target_path_decodes_before_normalizing() {
    assert_eq!(target_path("/a%20b"), Ok("a b".to_owned()));
    assert_eq!(target_path("/a+b"), Ok("a b".to_owned()));
    assert_eq!(target_path("/%2e%2e/%2e%2e/etc/passwd"), Ok("etc/passwd".to_owned()));
    assert_eq!(target_path("/a%2Fb%2F..%2Fc"), Ok("a/c".to_owned()));
    assert_eq!(target_path("/a/%2E/b"), Ok("a/b".to_owned()));
    assert_eq!(target_path("/x%3Fy"), Ok("x?y".to_owned()));
}

#[test]
fn target_path_never_leaves_the_root() {
    let targets = [
        "/../../etc/passwd",
        "/..%2F..%2Fetc/passwd",
        "/a/../../../b",
        "/%2e%2e",
        "/./../",
        "/a/b/c/../../../../../../..",
        "/..../..",
    ];
    for target in targets {
        let path = target_path(target).unwrap();
        assert!(!path.starts_with('/'));
        if path != "." {
            for segment in path.split('/') {
                assert!(!segment.is_empty());
                assert_ne!(segment, ".");
                assert_ne!(segment, "..");
            }
        }
    }
    assert_eq!(target_path("/../../etc/passwd"), Ok("etc/passwd".to_owned()));
}

#[test]
fn candidates_of_any_target_stay_below_the_root() {
    let targets = [
        "/",
        "/..",
        "/../../etc/passwd",
        "/a/..%2f..%2f../b",
        "/%2e%2e/%2e%2e/",
        "/a/b/../../../..//c/.",
        "/..%2F",
        "/...",
    ];
    for target in targets {
        let path = target_path(target).unwrap();
        for candidate in candidates(&path) {
            assert!(!candidate.starts_with('/'), "{candidate:?}");
            for segment in candidate.split('/') {
                assert_ne!(segment, "..", "{candidate:?}");
            }
        }
    }
}

#[test]
fn target_path_refuses_malformed_escapes() {
    assert_eq!(target_path("/%"), Err(RequestError::MalformedEncoding));
    assert_eq!(target_path("/a%2"), Err(RequestError::MalformedEncoding));
    assert_eq!(target_path("/a%zzb"), Err(RequestError::MalformedEncoding));
    assert_eq!(target_path("/%?ok"), Err(RequestError::MalformedEncoding));
}

#[test]
fn request_path_checks_before_decoding() {
    assert_eq!(
        request_path(&request("GET", "/a/../b/c.txt?q", "HTTP/1.1")),
        Ok("b/c.txt".to_owned())
    );
    assert_eq!(
        request_path(&request("GET", "/%", "HTTP/1.0")),
        Err(RequestError::UnsupportedVersion)
    );
    assert_eq!(
        request_path(&request("PUT", "/%", "HTTP/1.1")),
        Err(RequestError::UnsupportedMethod)
    );
    assert_eq!(
        request_path(&request("GET", "%", "HTTP/1.1")),
        Err(RequestError::RelativeTarget)
    );
    assert_eq!(
        request_path(&request("GET", "/%", "HTTP/1.1")),
        Err(RequestError::MalformedEncoding)
    );
}

#[test]
fn candidates_in_order() {
    assert_eq!(
        candidates("sub"),
        vec!["sub", "sub/index.html", "sub/index.htm"]
    );
    assert_eq!(candidates("."), vec![".", "./index.html", "./index.htm"]);
}

#[test]
fn resolve_file_comes_first() {
    let found = resolve("/a.css", "a.css", probe(true, true, true, true));
    assert_eq!(static_file(found), ("a.css".to_owned(), "text/css".to_owned()));
    let found = resolve("/data", "data", probe(true, false, false, false));
    assert_eq!(
        static_file(found),
        ("data".to_owned(), "application/octet-stream".to_owned())
    );
}

#[test]
fn resolve_index_html_before_index_htm() {
    let found = resolve("/sub/", "sub", probe(false, true, true, true));
    assert_eq!(
        static_file(found),
        ("sub/index.html".to_owned(), "text/html".to_owned())
    );
    let found = resolve("/sub/", "sub", probe(false, false, true, true));
    assert_eq!(
        static_file(found),
        ("sub/index.htm".to_owned(), "text/html".to_owned())
    );
}

#[test]
fn resolve_index_is_served_without_trailing_slash() {
    let found = resolve("/sub", "sub", probe(false, true, false, true));
    assert_eq!(
        static_file(found),
        ("sub/index.html".to_owned(), "text/html".to_owned())
    );
}

#[test]
fn resolve_directory_with_slash_is_listed() {
    match resolve("/sub/", "sub", probe(false, false, false, true)) {
        Resource::Directory { path } => assert_eq!(path, "sub"),
        other => panic!("no directory: {other:?}"),
    }
    match resolve("/", ".", probe(false, false, false, true)) {
        Resource::Directory { path } => assert_eq!(path, "."),
        other => panic!("no directory: {other:?}"),
    }
}

#[test]
fn resolve_directory_without_slash_redirects() {
    match resolve("/sub", "sub", probe(false, false, false, true)) {
        Resource::Redirect { location } => assert_eq!(location, "/sub/"),
        other => panic!("no redirect: {other:?}"),
    }
    match resolve("/a/../sub", "sub", probe(false, false, false, true)) {
        Resource::Redirect { location } => assert_eq!(location, "/a/../sub/"),
        other => panic!("no redirect: {other:?}"),
    }
    match resolve("/sub?x=1", "sub", probe(false, false, false, true)) {
        Resource::Redirect { location } => assert_eq!(location, "/sub?x=1/"),
        other => panic!("no redirect: {other:?}"),
    }
}

#[test]
fn resolve_nothing_found() {
    assert!(matches!(
        resolve("/missing.txt", "missing.txt", probe(false, false, false, false)),
        Resource::NotFound
    ));
    assert!(matches!(
        resolve("/missing/", "missing", probe(false, false, false, false)),
        Resource::NotFound
    ));
}
