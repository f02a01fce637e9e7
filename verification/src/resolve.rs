//! From a request to the resource it names: which requests are served,
//! which path below the root a target stands for, and what is found there.

use crate::codec::{url_decode, url_decoded};
use crate::mime::{content_type, mime_type};
use crate::path::{
    is_normalized, is_plain_segment, lemma_normalized_is_normalized, normalize_path, normalized,
    parent_dir,
};
use crate::request::{Request, RequestError};
use crate::text::{
    find, from_chars, lemma_position, lemma_split_around, lemma_split_pieces, lemma_split_whole,
    position, same_text, slice, split, to_chars,
};
use vstd::prelude::*;
use vstd::string::{StrSliceExecFns, StringExecFns};

verus! {

/// The one method that is served.
pub const METHOD: &'static str = "GET";

/// The one protocol version that is served.
pub const VERSION: &'static str = "HTTP/1.1";

/// The path of the root itself.
pub const ROOT: &'static str = ".";

/// What follows the path of a directory in the path of the index file that
/// is looked for first.
pub const INDEX_HTML: &'static str = "/index.html";

/// What follows the path of a directory in the path of the index file that
/// is looked for second.
pub const INDEX_HTM: &'static str = "/index.htm";

/// Why a request line is refused before its target is read, if it is: the
/// version is looked at first, then the method, then the target.
pub open spec fn refusal(method: Seq<char>, target: Seq<char>, version: Seq<char>) -> Option<
    RequestError,
> {
    if version != VERSION@ {
        Some(RequestError::UnsupportedVersion)
    } else if method != METHOD@ {
        Some(RequestError::UnsupportedMethod)
    } else if target.len() == 0 || target[0] != '/' {
        Some(RequestError::RelativeTarget)
    } else {
        None
    }
}

/// The target up to its first `?`: the path without the query string.
pub open spec fn without_query(target: Seq<char>) -> Seq<char> {
    match position(target, '?') {
        Some(i) => target.take(i),
        None => target,
    }
}

/// The path below the root that a target stands for: its path part,
/// decoded, then normalized, with `.` for the root. `None` where the path
/// part cannot be decoded.
pub open spec fn served_path(target: Seq<char>) -> Option<Seq<char>> {
    match url_decoded(without_query(target)) {
        Some(path) => Some(
            if normalized(path).len() == 0 {
                ROOT@
            } else {
                normalized(path)
            },
        ),
        None => None,
    }
}

/// The path of the first index file looked for in a directory.
pub open spec fn index_html_in(path: Seq<char>) -> Seq<char> {
    path + INDEX_HTML@
}

/// The path of the second index file looked for in a directory.
pub open spec fn index_htm_in(path: Seq<char>) -> Seq<char> {
    path + INDEX_HTM@
}

/// Whether a text ends with `/`.
pub open spec fn ends_with_slash(text: Seq<char>) -> bool {
    text.len() > 0 && text.last() == '/'
}

/// What the file system holds at a served path.
#[derive(Clone, Copy, Debug, PartialEq, Eq, Structural)]
pub struct Probe {
    /// The path is a regular file.
    pub file: bool,
    /// `index.html` in the path is a regular file.
    pub index_html: bool,
    /// `index.htm` in the path is a regular file.
    pub index_htm: bool,
    /// The path is a directory.
    pub directory: bool,
}

/// What a request resolves to.
#[derive(Clone, Debug)]
pub enum Resource {
    /// A regular file, to be sent with its content type.
    StaticFile { path: String, mime_type: String },
    /// A directory, to be listed.
    Directory { path: String },
    /// A directory that was asked for without the `/` at the end: the
    /// client is sent to `location`.
    Redirect { location: String },
    /// Nothing.
    NotFound,
}

/// A resource, its strings taken as texts.
pub ghost enum Outcome {
    StaticFile { path: Seq<char>, mime_type: Seq<char> },
    Directory { path: Seq<char> },
    Redirect { location: Seq<char> },
    NotFound,
}

impl View for Resource {
    type V = Outcome;

    open spec fn view(&self) -> Outcome {
        match self {
            Resource::StaticFile { path, mime_type } => Outcome::StaticFile {
                path: path@,
                mime_type: mime_type@,
            },
            Resource::Directory { path } => Outcome::Directory { path: path@ },
            Resource::Redirect { location } => Outcome::Redirect { location: location@ },
            Resource::NotFound => Outcome::NotFound,
        }
    }
}

/// The resource for a request with the target `target`, whose served path
/// is `path`, where the file system holds `probe`. A file comes before a
/// directory, the path itself before `index.html`, and that before
/// `index.htm`. A directory is listed only where the target ends with `/`;
/// otherwise the client is sent to the target with `/` behind it.
pub open spec fn resolution(target: Seq<char>, path: Seq<char>, probe: Probe) -> Outcome {
    if probe.file {
        Outcome::StaticFile { path, mime_type: content_type(path) }
    } else if probe.index_html {
        Outcome::StaticFile {
            path: index_html_in(path),
            mime_type: content_type(index_html_in(path)),
        }
    } else if probe.index_htm {
        Outcome::StaticFile {
            path: index_htm_in(path),
            mime_type: content_type(index_htm_in(path)),
        }
    } else if probe.directory {
        if ends_with_slash(target) {
            Outcome::Directory { path }
        } else {
            Outcome::Redirect { location: target.push('/') }
        }
    } else {
        Outcome::NotFound
    }
}

/// Checks that a request can be served at all: its version is `HTTP/1.1`,
/// its method is `GET` and its target begins with `/`.
pub fn check_request(request: &Request) -> (r: Result<(), RequestError>)
    ensures
        match refusal(request.method@, request.target@, request.version@) {
            Some(e) => r == Err::<(), RequestError>(e),
            None => r is Ok,
        },
{
    if !same_text(request.version.as_str(), VERSION) {
        return Err(RequestError::UnsupportedVersion);
    }
    if !same_text(request.method.as_str(), METHOD) {
        return Err(RequestError::UnsupportedMethod);
    }
    let target = request.target.as_str();
    if target.is_empty() || target.get_char(0) != '/' {
        return Err(RequestError::RelativeTarget);
    }
    Ok(())
}

/// The path below the root that `target` stands for: the query string is
/// cut off, the rest decoded and normalized, and the root is `.`.
pub fn target_path(target: &str) -> (r: Result<String, RequestError>)
    ensures
        match served_path(target@) {
            Some(path) => r is Ok && r->Ok_0@ == path,
            None => r == Err::<String, RequestError>(RequestError::MalformedEncoding),
        },
{
    let chars = to_chars(target);
    let end = match find(&chars, '?') {
        Some(i) => {
            proof {
                lemma_position(chars@, '?');
            }
            i
        },
        None => chars.len(),
    };
    let raw = from_chars(&slice(&chars, 0, end));
    assert(raw@ == without_query(target@));
    match url_decode(raw.as_str()) {
        Ok(decoded) => {
            let path = normalize_path(decoded);
            if path.as_str().is_empty() {
                Ok(ROOT.to_owned())
            } else {
                Ok(path)
            }
        },
        Err(_) => Err(RequestError::MalformedEncoding),
    }
}

/// The path below the root that a request asks for, where the request is
/// served at all.
pub fn request_path(request: &Request) -> (r: Result<String, RequestError>)
    ensures
        match refusal(request.method@, request.target@, request.version@) {
            Some(e) => r == Err::<String, RequestError>(e),
            None => match served_path(request.target@) {
                Some(path) => r is Ok && r->Ok_0@ == path,
                None => r == Err::<String, RequestError>(RequestError::MalformedEncoding),
            },
        },
{
    match check_request(request) {
        Ok(()) => target_path(request.target.as_str()),
        Err(e) => Err(e),
    }
}

/// The paths to look for a regular file at, in this order: the served path
/// itself, `index.html` in it, `index.htm` in it.
pub fn candidates(path: &str) -> (r: Vec<String>)
    ensures
        r@.len() == 3,
        r@[0]@ == path@,
        r@[1]@ == index_html_in(path@),
        r@[2]@ == index_htm_in(path@),
{
    let mut r: Vec<String> = Vec::new();
    r.push(path.to_owned());
    r.push(path.to_owned().concat(INDEX_HTML));
    r.push(path.to_owned().concat(INDEX_HTM));
    r
}

/// Resolves a request to a resource: see [`resolution`].
pub fn resolve(target: &str, path: &str, probe: Probe) -> (r: Resource)
    ensures
        r@ == resolution(target@, path@, probe),
{
    if probe.file {
        Resource::StaticFile { path: path.to_owned(), mime_type: mime_type(path) }
    } else if probe.index_html {
        let index = path.to_owned().concat(INDEX_HTML);
        let mime_type = mime_type(index.as_str());
        Resource::StaticFile { path: index, mime_type }
    } else if probe.index_htm {
        let index = path.to_owned().concat(INDEX_HTM);
        let mime_type = mime_type(index.as_str());
        Resource::StaticFile { path: index, mime_type }
    } else if probe.directory {
        let chars = to_chars(target);
        if chars.len() > 0 && chars[chars.len() - 1] == '/' {
            Resource::Directory { path: path.to_owned() }
        } else {
            let mut location = target.to_owned();
            location.push('/');
            Resource::Redirect { location }
        }
    } else {
        Resource::NotFound
    }
}

/// The served path of any target is `.`, the root itself, or a path in
/// normal form.
pub proof fn lemma_served_path_below_root(target: Seq<char>)
    ensures
        served_path(target) matches Some(path) ==> path == ROOT@ || is_normalized(path),
{
    if let Some(decoded) = url_decoded(without_query(target)) {
        lemma_normalized_is_normalized(decoded);
    }
}

/// Whether a path stays below the directory that it is followed from: it
/// does not begin at the root of the file system, and none of its segments
/// is `..`.
pub open spec fn stays_below(path: Seq<char>) -> bool {
    let segments = split(path, '/');
    &&& segments[0].len() > 0
    &&& forall|i: int| 0 <= i < segments.len() ==> #[trigger] segments[i] != parent_dir()
}

/// Whatever the target, every path that is looked for in the file system
/// stays below the root: the served path and both index files in it.
pub proof fn lemma_candidates_stay_below_root(target: Seq<char>)
    ensures
        served_path(target) matches Some(path) ==> stays_below(path) && stays_below(
            index_html_in(path),
        ) && stays_below(index_htm_in(path)),
{
    if let Some(path) = served_path(target) {
        lemma_served_path_below_root(target);
        reveal_strlit(".");
        if path == ROOT@ {
            assert(forall|j: int| 0 <= j < path.len() ==> path[j] != '/');
            lemma_split_whole(path, '/');
            assert(path.len() != parent_dir().len());
        } else {
            assert(path.len() > 0);
            lemma_split_pieces(path, '/');
            assert(is_plain_segment(split(path, '/')[0]));
            assert forall|i: int| 0 <= i < split(path, '/').len() implies #[trigger] split(
                path,
                '/',
            )[i] != parent_dir() by {
                assert(is_plain_segment(split(path, '/')[i]));
            }
        }
        lemma_index_stays_below(path, "index.html"@);
        lemma_index_stays_below(path, "index.htm"@);
        reveal_strlit("/index.html");
        reveal_strlit("index.html");
        reveal_strlit("/index.htm");
        reveal_strlit("index.htm");
        assert(index_html_in(path) == path.push('/') + "index.html"@);
        assert(index_htm_in(path) == path.push('/') + "index.htm"@);
        assert(forall|j: int| 0 <= j < "index.html"@.len() ==> "index.html"@[j] != '/');
        assert(forall|j: int| 0 <= j < "index.htm"@.len() ==> "index.htm"@[j] != '/');
        assert("index.html"@.len() != parent_dir().len());
        assert("index.htm"@.len() != parent_dir().len());
    }
}

/// A file that stands in a directory below the root stays below the root.
proof fn lemma_index_stays_below(directory: Seq<char>, name: Seq<char>)
    requires
        stays_below(directory),
    ensures
        (forall|j: int| 0 <= j < name.len() ==> name[j] != '/') && name != parent_dir()
            ==> stays_below(directory.push('/') + name),
{
    if (forall|j: int| 0 <= j < name.len() ==> name[j] != '/') && name != parent_dir() {
        lemma_split_around(directory, name, '/');
        lemma_split_whole(name, '/');
        lemma_split_pieces(directory, '/');
        let segments = split(directory.push('/') + name, '/');
        assert(segments == split(directory, '/').push(name));
        assert forall|i: int| 0 <= i < segments.len() implies #[trigger] segments[i]
            != parent_dir() by {
            if i < segments.len() - 1 {
                assert(split(directory, '/')[i] != parent_dir());
            }
        }
    }
}

} // verus!
