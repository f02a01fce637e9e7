//! The request pipeline of a small HTTP/1.1 server for static files and
//! directory listings, from the lines of a request to the head and body of
//! the response.
//!
//! The library decides; it neither reads nor writes. A server built on it
//! reads the head of a request line by line until [`request::head_complete`],
//! hands the lines to [`request::parse_request`], and asks
//! [`resolve::request_path`] for the path below its root directory. It looks
//! in the file system for what [`resolve::candidates`] names and reports what
//! it found as a [`resolve::Probe`]. [`resolve::resolve`] then names the
//! resource, [`response::respond`] the response, and
//! [`response::Response::head`] the bytes to send before the body.
//!
//! Every function states what it returns over plain texts, and the laws that
//! the pipeline rests on are proved beside the functions they speak of: no
//! path that is looked for in the file system leaves the root
//! ([`path::lemma_normalized_is_normalized`],
//! [`resolve::lemma_candidates_stay_below_root`]), normalizing is idempotent
//! ([`path::lemma_normalize_idempotent`]), and decoding inverts encoding
//! ([`codec::lemma_decode_inverts_encode`]).

pub mod codec;
pub mod config;
pub mod listing;
pub mod mime;
pub mod path;
pub mod request;
pub mod resolve;
pub mod response;
pub mod text;
