use static_http::codec::CodecError;
use static_http::listing::{render_listing, Entry};
use static_http::resolve::Resource;
use static_http::response::{respond, Body, Response};

fn pair(name: &str, value: &str) -> (String, String) {
    (name.to_owned(), value.to_owned())
}

#[test]
fn respond_to_static_file() {
    let resource = Resource::StaticFile {
        path: "./index.html".to_owned(),
        mime_type: "text/html".to_owned(),
    };
    let response = respond(resource, &vec![]).unwrap();
    assert_eq!(response.status_code, 200);
    assert_eq!(response.status_text, "OK");
    assert_eq!(response.headers, vec![pair("Content-Type", "text/html")]);
    assert!(matches!(&response.body, Body::File(path) if path == "./index.html"));
    assert_eq!(
        response.head(),
        "HTTP/1.1 200 OK\r\nContent-Type: text/html\r\n\r\n"
    );
}

#[test]
fn respond_to_directory() {
    let entries = vec![
        Entry { name: "b.txt".to_owned(), is_dir: false },
        Entry { name: "a".to_owned(), is_dir: true },
    ];
    let resource = Resource::Directory { path: "sub".to_owned() };
    let response = respond(resource, &entries).unwrap();
    assert_eq!(response.status_code, 200);
    assert_eq!(response.status_text, "OK");
    assert_eq!(
        response.headers,
        vec![pair("Content-Type", "text/html; charset=utf-8")]
    );
    let page = render_listing("sub", &entries).unwrap();
    assert!(matches!(&response.body, Body::Text(text) if *text == page));
    assert_eq!(
        response.head(),
        "HTTP/1.1 200 OK\r\nContent-Type: text/html; charset=utf-8\r\n\r\n"
    );
}

#[test]
fn respond_to_unlinkable_directory() {
    let entries = vec![Entry { name: "\u{e9}".to_owned(), is_dir: false }];
    let resource = Resource::Directory { path: "sub".to_owned() };
    assert!(matches!(
        respond(resource, &entries),
        Err(CodecError::UnsupportedCharacter)
    ));
}

#[test]
fn respond_ignores_entries_for_other_resources() {
    let entries = vec![Entry { name: "\u{e9}".to_owned(), is_dir: false }];
    let response = respond(Resource::NotFound, &entries).unwrap();
    assert_eq!(response.status_code, 404);
    let resource = Resource::Redirect { location: "/x/".to_owned() };
    assert_eq!(respond(resource, &entries).unwrap().status_code, 301);
}

#[test]
fn respond_to_redirect() {
    let resource = Resource::Redirect { location: "/sub/".to_owned() };
    let response = respond(resource, &vec![]).unwrap();
    assert_eq!(response.status_code, 301);
    assert_eq!(response.status_text, "Moved Permanently");
    assert_eq!(response.headers, vec![pair("Location", "/sub/")]);
    assert!(matches!(response.body, Body::Empty));
    assert_eq!(
        response.head(),
        "HTTP/1.1 301 Moved Permanently\r\nLocation: /sub/\r\n\r\n"
    );
}

#[test]
fn respond_to_not_found() {
    let response = respond(Resource::NotFound, &vec![]).unwrap();
    assert_eq!(response.status_code, 404);
    assert_eq!(response.status_text, "Not Found");
    assert!(response.headers.is_empty());
    assert!(matches!(response.body, Body::Empty));
    assert_eq!(response.head(), "HTTP/1.1 404 Not Found\r\n\r\n");
}

#[test]
fn head_writes_code_in_decimal() {
    let codes = [(0u16, "0"), (7, "7"), (10, "10"), (99, "99"), (100, "100"), (65535, "65535")];
    for (code, text) in codes {
        let response = Response {
            status_code: code,
            status_text: "Reason".to_owned(),
            headers: vec![],
            body: Body::Empty,
        };
        assert_eq!(response.head(), format!("HTTP/1.1 {text} Reason\r\n\r\n"));
    }
}

#[test]
fn head_writes_headers_in_order() {
    let response = Response {
        status_code: 200,
        status_text: "OK".to_owned(),
        headers: vec![pair("B", "2"), pair("A", "1"), pair("B", "3")],
        body: Body::Text("ignored".to_owned()),
    };
    assert_eq!(
        response.head(),
        "HTTP/1.1 200 OK\r\nB: 2\r\nA: 1\r\nB: 3\r\n\r\n"
    );
}
