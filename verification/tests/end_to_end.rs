use static_http::listing::Entry;
use static_http::request::{head_complete, parse_request, RequestError};
use static_http::resolve::{candidates, request_path, resolve, Probe};
use static_http::response::{respond, Body, Response};

/// A root directory held in memory: its files with their content, and its
/// directories.
struct Root {
    files: Vec<(&'static str, &'static str)>,
    directories: Vec<&'static str>,
}

impl Root {
    fn is_file(&self, path: &str) -> bool {
        let path = path.strip_prefix("./").unwrap_or(path);
        self.files.iter().any(|(name, _)| *name == path)
    }

    fn is_dir(&self, path: &str) -> bool {
        path == "." || self.directories.iter().any(|name| *name == path)
    }

    fn entries(&self, path: &str) -> Vec<Entry> {
        let prefix = if path == "." { String::new() } else { format!("{path}/") };
        let direct = |name: &str| match name.strip_prefix(prefix.as_str()) {
            Some(rest) if !rest.is_empty() && !rest.contains('/') => Some(rest.to_owned()),
            _ => None,
        };
        let mut entries = Vec::new();
        for (name, _) in &self.files {
            if let Some(name) = direct(name) {
                entries.push(Entry { name, is_dir: false });
            }
        }
        for name in &self.directories {
            if let Some(name) = direct(name) {
                entries.push(Entry { name, is_dir: true });
            }
        }
        entries
    }

    fn content(&self, path: &str) -> String {
        let path = path.strip_prefix("./").unwrap_or(path);
        let (_, content) = self.files.iter().find(|(name, _)| *name == path).unwrap();
        content.to_string()
    }

    /// Serves the request whose head is `head`; gives the bytes sent.
    fn serve(&self, head: &str) -> Result<String, RequestError> {
        let mut lines: Vec<String> = Vec::new();
        for line in head.lines() {
            lines.push(line.to_owned());
            if head_complete(&lines) {
                break;
            }
        }
        let request = parse_request(&lines)?;
        let path = request_path(&request)?;
        let tried = candidates(&path);
        let probe = Probe {
            file: self.is_file(&tried[0]),
            index_html: self.is_file(&tried[1]),
            index_htm: self.is_file(&tried[2]),
            directory: self.is_dir(&path),
        };
        let resource = resolve(&request.target, &path, probe);
        let entries = self.entries(&path);
        let response: Response = respond(resource, &entries).unwrap();
        let mut sent = response.head();
        match &response.body {
            Body::Empty => {}
            Body::Text(text) => sent.push_str(text),
            Body::File(path) => sent.push_str(&self.content(path)),
        }
        Ok(sent)
    }
}

fn root() -> Root {
    Root {
        files: vec![
            ("index.html", "<p>home</p>"),
            ("sub/notes.txt", "notes"),
            ("sub/a b.txt", "spaced"),
            ("site/index.htm", "<p>site</p>"),
            ("etc/passwd", "inside the root"),
        ],
        directories: vec!["sub", "sub/inner", "site", "etc"],
    }
}

fn get(target: &str) -> String {
    format!("GET {target} HTTP/1.1\r\nHost: localhost\r\n\r\n")
}

#[test]
fn serves_index_html_for_root() {
    assert_eq!(
        root().serve(&get("/")).unwrap(),
        "HTTP/1.1 200 OK\r\nContent-Type: text/html\r\n\r\n<p>home</p>"
    );
}

#[test]
fn serves_index_htm_where_no_index_html() {
    assert_eq!(
        root().serve(&get("/site/")).unwrap(),
        "HTTP/1.1 200 OK\r\nContent-Type: text/html\r\n\r\n<p>site</p>"
    );
}

#[test]
fn redirects_directory_without_slash() {
    assert_eq!(
        root().serve(&get("/sub")).unwrap(),
        "HTTP/1.1 301 Moved Permanently\r\nLocation: /sub/\r\n\r\n"
    );
}

#[test]
fn lists_directory_without_index() {
    let sent = root().serve(&get("/sub/")).unwrap();
    let (head, body) = sent.split_once("\r\n\r\n").unwrap();
    assert_eq!(head, "HTTP/1.1 200 OK\r\nContent-Type: text/html; charset=utf-8");
    let first = body.find("<li>").unwrap();
    assert!(body[first..].starts_with("<li><a href=\"..\">..</a></li>\n"));
    assert!(body.contains("<li><a href=\"notes.txt\">\u{1F4C4} notes.txt</a></li>"));
    assert!(body.contains("<li><a href=\"a%20b.txt\">\u{1F4C4} a b.txt</a></li>"));
    assert!(body.contains("<li><a href=\"inner\">\u{1F4C1} inner/</a></li>"));
    assert!(body.starts_with("<!DOCTYPE html>"));
    assert!(body.ends_with("</ul>\n<hr>\n</html>\n"));
}

#[test]
fn missing_file_is_not_found() {
    assert_eq!(
        root().serve(&get("/missing.txt")).unwrap(),
        "HTTP/1.1 404 Not Found\r\n\r\n"
    );
}

#[test]
fn traversal_stays_inside_root() {
    assert_eq!(
        root().serve(&get("/../../etc/passwd")).unwrap(),
        "HTTP/1.1 200 OK\r\nContent-Type: application/octet-stream\r\n\r\ninside the root"
    );
    assert_eq!(
        root().serve(&get("/%2e%2e/%2e%2e/etc/passwd")).unwrap(),
        "HTTP/1.1 200 OK\r\nContent-Type: application/octet-stream\r\n\r\ninside the root"
    );
}

#[test]
fn serves_file_named_by_encoded_target_with_query() {
    assert_eq!(
        root().serve(&get("/sub/a%20b.txt?download=1")).unwrap(),
        "HTTP/1.1 200 OK\r\nContent-Type: text/plain\r\n\r\nspaced"
    );
    assert_eq!(
        root().serve(&get("/sub/a+b.txt")).unwrap(),
        "HTTP/1.1 200 OK\r\nContent-Type: text/plain\r\n\r\nspaced"
    );
}

#[test]
fn unserved_requests_get_no_response() {
    let root = root();
    assert_eq!(root.serve(""), Err(RequestError::MalformedRequestLine));
    assert_eq!(
        root.serve("GET /\r\n\r\n"),
        Err(RequestError::MalformedRequestLine)
    );
    assert_eq!(
        root.serve("GET / HTTP/1.0\r\n\r\n"),
        Err(RequestError::UnsupportedVersion)
    );
    assert_eq!(
        root.serve("POST / HTTP/1.1\r\n\r\n"),
        Err(RequestError::UnsupportedMethod)
    );
    assert_eq!(
        root.serve("GET index.html HTTP/1.1\r\n\r\n"),
        Err(RequestError::RelativeTarget)
    );
    assert_eq!(
        root.serve("GET /%zz HTTP/1.1\r\n\r\n"),
        Err(RequestError::MalformedEncoding)
    );
}
