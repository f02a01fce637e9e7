//! Responses: what is sent for each resource, and its head on the wire.

use crate::codec::CodecError;
use crate::listing::{all_linkable, listing, render_listing, Entry};
use crate::resolve::{Outcome, Resource, VERSION};
use vstd::prelude::*;
use vstd::string::StringExecFns;

verus! {

/// The reason of the status 200.
pub const OK: &'static str = "OK";

/// The reason of the status 301.
pub const MOVED_PERMANENTLY: &'static str = "Moved Permanently";

/// The reason of the status 404.
pub const NOT_FOUND: &'static str = "Not Found";

/// The name of the header field that gives the content type of the body.
pub const CONTENT_TYPE: &'static str = "Content-Type";

/// The name of the header field that says where a resource has moved to.
pub const LOCATION: &'static str = "Location";

/// The content type of a directory listing.
pub const LISTING_TYPE: &'static str = "text/html; charset=utf-8";

/// Where the body of a response comes from.
#[derive(Clone, Debug)]
pub enum Body {
    /// There is no body.
    Empty,
    /// The body is this text.
    Text(String),
    /// The body is the content of the file at this path, to be streamed.
    File(String),
}

/// A body, its strings taken as texts.
pub ghost enum Content {
    Empty,
    Text(Seq<char>),
    File(Seq<char>),
}

impl View for Body {
    type V = Content;

    open spec fn view(&self) -> Content {
        match self {
            Body::Empty => Content::Empty,
            Body::Text(text) => Content::Text(text@),
            Body::File(path) => Content::File(path@),
        }
    }
}

/// A response: the status, the header fields in the order in which they are
/// sent, and the body.
#[derive(Clone, Debug)]
pub struct Response {
    /// The status code.
    pub status_code: u16,
    /// The reason phrase that follows the code.
    pub status_text: String,
    /// The header fields, each a name and a value.
    pub headers: Vec<(String, String)>,
    /// The body.
    pub body: Body,
}

/// A response, its strings taken as texts.
pub ghost struct Reply {
    pub status_code: int,
    pub status_text: Seq<char>,
    pub headers: Seq<(Seq<char>, Seq<char>)>,
    pub body: Content,
}

/// Header fields, their strings taken as texts.
pub open spec fn field_texts(headers: Seq<(String, String)>) -> Seq<(Seq<char>, Seq<char>)> {
    headers.map_values(|field: (String, String)| (field.0@, field.1@))
}

impl View for Response {
    type V = Reply;

    open spec fn view(&self) -> Reply {
        Reply {
            status_code: self.status_code as int,
            status_text: self.status_text@,
            headers: field_texts(self.headers@),
            body: self.body@,
        }
    }
}

/// The response for each resource, where `entries` are the entries of the
/// directory to list:
/// a file is sent with `200 OK` and its content type, a listing with
/// `200 OK` as HTML in UTF-8, a redirect with `301 Moved Permanently` and
/// the location, and nothing with `404 Not Found`.
pub open spec fn reply_to(resource: Outcome, entries: Seq<Entry>) -> Reply {
    match resource {
        Outcome::StaticFile { path, mime_type } => Reply {
            status_code: 200,
            status_text: OK@,
            headers: seq![(CONTENT_TYPE@, mime_type)],
            body: Content::File(path),
        },
        Outcome::Directory { path } => Reply {
            status_code: 200,
            status_text: OK@,
            headers: seq![(CONTENT_TYPE@, LISTING_TYPE@)],
            body: Content::Text(listing(path, entries)),
        },
        Outcome::Redirect { location } => Reply {
            status_code: 301,
            status_text: MOVED_PERMANENTLY@,
            headers: seq![(LOCATION@, location)],
            body: Content::Empty,
        },
        Outcome::NotFound => Reply {
            status_code: 404,
            status_text: NOT_FOUND@,
            headers: Seq::empty(),
            body: Content::Empty,
        },
    }
}

/// The decimal digit for a value below ten.
pub open spec fn digit(n: nat) -> char
    recommends
        n < 10,
{
    (n + 48) as char
}

/// The decimal numeral of `n`, without leading zeros.
pub open spec fn decimal(n: nat) -> Seq<char>
    decreases n,
{
    if n < 10 {
        seq![digit(n)]
    } else {
        decimal(n / 10).push(digit(n % 10))
    }
}

/// One line for each header field: the name, `: `, the value, and the end
/// of the line.
pub open spec fn header_lines(headers: Seq<(Seq<char>, Seq<char>)>) -> Seq<char>
    decreases headers.len(),
{
    if headers.len() == 0 {
        Seq::empty()
    } else {
        header_lines(headers.drop_last()) + headers.last().0 + ": "@ + headers.last().1 + "\r\n"@
    }
}

impl Reply {
    /// The head of the response as it goes over the wire: the status line
    /// with the protocol version, the code and the reason, then the header
    /// lines and the empty line that ends them.
    pub open spec fn head(self) -> Seq<char> {
        VERSION@ + " "@ + decimal(self.status_code as nat) + " "@ + self.status_text + "\r\n"@
            + header_lines(self.headers) + "\r\n"@
    }
}

/// Appends the decimal numeral of `n`.
fn push_decimal(out: &mut String, n: u16)
    ensures
        final(out)@ == old(out)@ + decimal(n as nat),
    decreases n,
{
    if n >= 10 {
        push_decimal(out, n / 10);
    }
    let d = (n % 10) as u8;
    out.push((d + 48) as char);
}

/// The response for `resource`; `entries` are the entries of the directory
/// where the resource is one, and are not looked at otherwise. A listing
/// whose entries cannot all be linked is refused as a whole.
pub fn respond(resource: Resource, entries: &Vec<Entry>) -> (r: Result<Response, CodecError>)
    ensures
        resource@ is Directory && !all_linkable(entries@) ==> r == Err::<Response, CodecError>(
            CodecError::UnsupportedCharacter,
        ),
        !(resource@ is Directory && !all_linkable(entries@)) ==> r is Ok && r->Ok_0@ == reply_to(
            resource@,
            entries@,
        ),
{
    let mut headers: Vec<(String, String)> = Vec::new();
    match resource {
        Resource::StaticFile { path, mime_type } => {
            headers.push((CONTENT_TYPE.to_owned(), mime_type));
            let response = Response {
                status_code: 200,
                status_text: OK.to_owned(),
                headers,
                body: Body::File(path),
            };
            assert(response@.headers == seq![(CONTENT_TYPE@, mime_type@)]);
            Ok(response)
        },
        Resource::Directory { path } => {
            let page = match render_listing(path.as_str(), entries) {
                Ok(page) => page,
                Err(e) => {
                    return Err(CodecError::UnsupportedCharacter);
                },
            };
            headers.push((CONTENT_TYPE.to_owned(), LISTING_TYPE.to_owned()));
            let response = Response {
                status_code: 200,
                status_text: OK.to_owned(),
                headers,
                body: Body::Text(page),
            };
            assert(response@.headers == seq![(CONTENT_TYPE@, LISTING_TYPE@)]);
            Ok(response)
        },
        Resource::Redirect { location } => {
            headers.push((LOCATION.to_owned(), location));
            let response = Response {
                status_code: 301,
                status_text: MOVED_PERMANENTLY.to_owned(),
                headers,
                body: Body::Empty,
            };
            assert(response@.headers == seq![(LOCATION@, location@)]);
            Ok(response)
        },
        Resource::NotFound => {
            let response = Response {
                status_code: 404,
                status_text: NOT_FOUND.to_owned(),
                headers,
                body: Body::Empty,
            };
            assert(response@.headers == Seq::<(Seq<char>, Seq<char>)>::empty());
            Ok(response)
        },
    }
}

impl Response {
    /// The head of the response as it goes over the wire:
    /// `HTTP/1.1 <code> <reason>`, one `Name: value` line for each header
    /// field, and an empty line, each line ended by CR LF. The body follows
    /// the head.
    pub fn head(&self) -> (r: String)
        ensures
            r@ == self@.head(),
    {
        let mut out = String::new();
        out.append(VERSION);
        out.append(" ");
        push_decimal(&mut out, self.status_code);
        out.append(" ");
        out.append(self.status_text.as_str());
        out.append("\r\n");
        let ghost start = out@;
        let ghost fields = field_texts(self.headers@);
        let mut i: usize = 0;
        assert(out@ == start + header_lines(fields.take(0)));
        while i < self.headers.len()
            invariant
                i <= self.headers@.len(),
                fields == field_texts(self.headers@),
                out@ == start + header_lines(fields.take(i as int)),
            decreases self.headers@.len() - i,
        {
            let ghost before = out@;
            let ghost taken = fields.take(i + 1);
            out.append(self.headers[i].0.as_str());
            out.append(": ");
            out.append(self.headers[i].1.as_str());
            out.append("\r\n");
            proof {
                assert(taken.drop_last() == fields.take(i as int));
                assert(taken.last() == fields[i as int]);
                assert(out@ == before + fields[i as int].0 + ": "@ + fields[i as int].1 + "\r\n"@);
                assert(out@ == start + header_lines(taken));
            }
            i += 1;
        }
        assert(fields.take(fields.len() as int) == fields);
        out.append("\r\n");
        out
    }
}

} // verus!
