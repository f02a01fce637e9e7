//! Content types by file name extension.

use crate::text::{
    is_text, lemma_split_around, lemma_split_pieces, lemma_split_whole, split, to_chars,
};
use vstd::prelude::*;

verus! {

/// The content type of a file whose extension is not in the table, or that
/// has none.
pub const DEFAULT_TYPE: &'static str = "application/octet-stream";

/// The part of `name` behind its last `.`, where it has a `.`.
pub open spec fn extension(name: Seq<char>) -> Option<Seq<char>> {
    let pieces = split(name, '.');
    if pieces.len() >= 2 {
        Some(pieces.last())
    } else {
        None
    }
}

/// The table of content types, by extension. Case matters.
pub open spec fn type_of_extension(ext: Seq<char>) -> Seq<char> {
    if ext == "html"@ || ext == "htm"@ {
        "text/html"@
    } else if ext == "jpeg"@ || ext == "jpg"@ {
        "image/jpeg"@
    } else if ext == "png"@ {
        "image/png"@
    } else if ext == "txt"@ {
        "text/plain"@
    } else if ext == "css"@ {
        "text/css"@
    } else if ext == "js"@ {
        "text/javascript"@
    } else if ext == "json"@ {
        "application/json"@
    } else {
        DEFAULT_TYPE@
    }
}

/// The content type of the file called `name`.
pub open spec fn content_type(name: Seq<char>) -> Seq<char> {
    match extension(name) {
        Some(ext) => type_of_extension(ext),
        None => DEFAULT_TYPE@,
    }
}

/// Where the last `.` of `name` stands at `dot`, the extension is what
/// follows it.
proof fn lemma_extension_after_last_dot(name: Seq<char>, dot: int)
    requires
        0 <= dot < name.len(),
        name[dot] == '.',
        forall|j: int| dot < j < name.len() ==> name[j] != '.',
    ensures
        extension(name) == Some(name.skip(dot + 1)),
{
    let stem = name.take(dot);
    let ext = name.skip(dot + 1);
    assert(stem.push('.') + ext == name);
    lemma_split_around(stem, ext, '.');
    lemma_split_pieces(stem, '.');
    lemma_split_whole(ext, '.');
}

/// The place of the last `.` in `s`; -1 where there is none.
proof fn last_dot(s: Seq<char>) -> (dot: int)
    ensures
        -1 <= dot < s.len(),
        dot >= 0 ==> s[dot] == '.',
        forall|j: int| dot < j < s.len() ==> s[j] != '.',
    decreases s.len(),
{
    if s.len() == 0 {
        -1
    } else if s.last() == '.' {
        s.len() - 1
    } else {
        let dot = last_dot(s.drop_last());
        assert forall|j: int| dot < j < s.len() implies s[j] != '.' by {
            if j < s.len() - 1 {
                assert(s.drop_last()[j] != '.');
            }
        }
        dot
    }
}

/// No extension that holds `/` is in the table.
proof fn lemma_no_type_across_slash(ext: Seq<char>, slash: int)
    requires
        0 <= slash < ext.len(),
        ext[slash] == '/',
    ensures
        type_of_extension(ext) == DEFAULT_TYPE@,
{
    reveal_strlit("html");
    reveal_strlit("htm");
    reveal_strlit("jpeg");
    reveal_strlit("jpg");
    reveal_strlit("png");
    reveal_strlit("txt");
    reveal_strlit("css");
    reveal_strlit("js");
    reveal_strlit("json");
}

/// The content type of a file depends on its name alone, not on the
/// directory that its path leads through: what stands before a `/` of the
/// path does not count.
pub proof fn lemma_content_type_by_file_name(directory: Seq<char>, name: Seq<char>)
    ensures
        content_type(directory.push('/') + name) == content_type(name),
{
    let path = directory.push('/') + name;
    let offset = directory.len() + 1;
    let in_name = last_dot(name);
    if in_name >= 0 {
        lemma_extension_after_last_dot(name, in_name);
        assert(path[offset + in_name] == name[in_name]);
        assert forall|j: int| offset + in_name < j < path.len() implies path[j] != '.' by {
            assert(path[j] == name[j - offset]);
        }
        lemma_extension_after_last_dot(path, offset + in_name);
        assert(path.skip(offset + in_name + 1) == name.skip(in_name + 1));
    } else {
        lemma_split_whole(name, '.');
        let in_path = last_dot(path);
        if in_path >= 0 {
            lemma_extension_after_last_dot(path, in_path);
            assert(in_path < offset - 1) by {
                if in_path >= offset {
                    assert(path[in_path] == name[in_path - offset]);
                }
            }
            let ext = path.skip(in_path + 1);
            assert(ext[offset - 1 - (in_path + 1)] == path[offset - 1]);
            lemma_no_type_across_slash(ext, offset - 1 - (in_path + 1));
        } else {
            lemma_split_whole(path, '.');
        }
    }
}

fn lookup(ext: &Vec<char>) -> (r: &'static str)
    ensures
        r@ == type_of_extension(ext@),
{
    if is_text(ext, "html") || is_text(ext, "htm") {
        "text/html"
    } else if is_text(ext, "jpeg") || is_text(ext, "jpg") {
        "image/jpeg"
    } else if is_text(ext, "png") {
        "image/png"
    } else if is_text(ext, "txt") {
        "text/plain"
    } else if is_text(ext, "css") {
        "text/css"
    } else if is_text(ext, "js") {
        "text/javascript"
    } else if is_text(ext, "json") {
        "application/json"
    } else {
        DEFAULT_TYPE
    }
}

/// The content type for `file_path`, by what follows its last `.`:
/// `text/html` for `html` and `htm`, `image/jpeg` for `jpeg` and `jpg`,
/// `image/png`, `text/plain` for `txt`, `text/css`, `text/javascript` for
/// `js`, `application/json`; `application/octet-stream` for anything else
/// and for a name without `.`.
pub fn mime_type(file_path: &str) -> (r: String)
    ensures
        r@ == content_type(file_path@),
{
    let chars = to_chars(file_path);
    let mut i: usize = chars.len();
    while i > 0 && chars[i - 1] != '.'
        invariant
            i <= chars.len(),
            forall|j: int| i <= j < chars.len() ==> chars@[j] != '.',
        decreases i,
    {
        i -= 1;
    }
    if i == 0 {
        proof {
            lemma_split_whole(chars@, '.');
        }
        return DEFAULT_TYPE.to_owned();
    }
    let mut ext: Vec<char> = Vec::new();
    let mut k: usize = i;
    while k < chars.len()
        invariant
            i <= k <= chars.len(),
            ext@ == chars@.subrange(i as int, k as int),
        decreases chars.len() - k,
    {
        ext.push(chars[k]);
        k += 1;
    }
    proof {
        assert(ext@ == chars@.skip(i as int));
        lemma_extension_after_last_dot(chars@, i - 1);
    }
    lookup(&ext).to_owned()
}

} // verus!
