//! The HTML page that lists a directory.

use crate::codec::{html_encode, html_escaped, url_encode, url_encoded, CodecError};
use vstd::prelude::*;
use vstd::string::StringExecFns;
use vstd::utf8::is_ascii_chars;

verus! {

/// The page up to the place in its title that names the directory.
pub const PAGE_OPEN: &'static str = "<!DOCTYPE html>
<html lang=\"en\">
<head>
  <meta charset=\"utf-8\">
  <title>Index of ";

/// The page from its title to the place in its heading that names the
/// directory.
pub const PAGE_STYLE: &'static str = "</title>
  <style>
  body {
    background-color: Canvas;
    color: CanvasText;
    color-scheme: light dark;
  }
  a, a:visited, a:active {
    text-decoration: none;
  }
  </style>
</head>
<h1>Directory Listing</h1>
<h2>Directory: ";

/// The page from its heading to the start of its list.
pub const LIST_OPEN: &'static str = "</h2>
<hr>
<ul>
";

/// The first item of every list: the link to the parent directory.
pub const PARENT_ITEM: &'static str = "  <li><a href=\"..\">..</a></li>\n";

/// The page from the end of its list on.
pub const PAGE_CLOSE: &'static str = "</ul>
<hr>
</html>
";

/// The mark before the name of a directory.
pub const FOLDER_MARK: &'static str = "\u{1F4C1} ";

/// The mark before the name of anything that is no directory.
pub const FILE_MARK: &'static str = "\u{1F4C4} ";

/// One entry of a directory.
#[derive(Clone, Debug)]
pub struct Entry {
    /// The file name of the entry.
    pub name: String,
    /// Whether the entry is a directory.
    pub is_dir: bool,
}

/// The name of an entry as the page shows it: a folder mark before a
/// directory and `/` behind it, a file mark before anything else.
pub open spec fn shown_name(name: Seq<char>, is_dir: bool) -> Seq<char> {
    if is_dir {
        FOLDER_MARK@ + name + "/"@
    } else {
        FILE_MARK@ + name
    }
}

/// The list item for one entry: a link to its percent-encoded name, around
/// its shown name, escaped for HTML.
pub open spec fn item(name: Seq<char>, is_dir: bool) -> Seq<char> {
    "  <li><a href=\""@ + url_encoded(name) + "\">"@ + html_escaped(shown_name(name, is_dir))
        + "</a></li>\n"@
}

/// The list items for `entries`, in their order.
pub open spec fn items(entries: Seq<Entry>) -> Seq<char>
    decreases entries.len(),
{
    if entries.len() == 0 {
        Seq::empty()
    } else {
        items(entries.drop_last()) + item(entries.last().name@, entries.last().is_dir)
    }
}

/// The page that lists `entries` as the content of `directory`: a title
/// and a heading that name the directory, then the list, which begins with
/// the link to the parent directory.
pub open spec fn listing(directory: Seq<char>, entries: Seq<Entry>) -> Seq<char> {
    PAGE_OPEN@ + directory + PAGE_STYLE@ + directory + LIST_OPEN@ + PARENT_ITEM@ + items(entries)
        + PAGE_CLOSE@
}

/// Whether every entry has an ASCII name, so that each can be linked.
pub open spec fn all_linkable(entries: Seq<Entry>) -> bool {
    forall|i: int| 0 <= i < entries.len() ==> is_ascii_chars(#[trigger] entries[i].name@)
}

/// Renders the page that lists `entries` as the content of `directory`:
/// first the link to `..`, then one item for each entry, in the order
/// given. The whole page is refused where an entry's name is not ASCII;
/// nothing is rendered in part.
pub fn render_listing(directory: &str, entries: &Vec<Entry>) -> (r: Result<String, CodecError>)
    ensures
        all_linkable(entries@) ==> r is Ok && r->Ok_0@ == listing(directory@, entries@),
        !all_linkable(entries@) ==> r == Err::<String, CodecError>(
            CodecError::UnsupportedCharacter,
        ),
{
    let mut page = String::new();
    page.append(PAGE_OPEN);
    page.append(directory);
    page.append(PAGE_STYLE);
    page.append(directory);
    page.append(LIST_OPEN);
    page.append(PARENT_ITEM);
    let ghost start = page@;
    assert(page@ == start + items(entries@.take(0)));
    let mut i: usize = 0;
    while i < entries.len()
        invariant
            i <= entries@.len(),
            all_linkable(entries@.take(i as int)),
            start == PAGE_OPEN@ + directory@ + PAGE_STYLE@ + directory@ + LIST_OPEN@
                + PARENT_ITEM@,
            page@ == start + items(entries@.take(i as int)),
        decreases entries@.len() - i,
    {
        let entry = &entries[i];
        let ghost before = page@;
        let link = match url_encode(entry.name.as_str()) {
            Ok(link) => link,
            Err(_) => {
                assert(!is_ascii_chars(entries@[i as int].name@));
                return Err(CodecError::UnsupportedCharacter);
            },
        };
        let shown = if entry.is_dir {
            FOLDER_MARK.to_owned().concat(entry.name.as_str()).concat("/")
        } else {
            FILE_MARK.to_owned().concat(entry.name.as_str())
        };
        page.append("  <li><a href=\"");
        page.append(link.as_str());
        page.append("\">");
        page.append(html_encode(shown).as_str());
        page.append("</a></li>\n");
        proof {
            let taken = entries@.take(i + 1);
            assert(taken.drop_last() == entries@.take(i as int));
            assert(taken.last() == entries@[i as int]);
            assert(page@ == before + item(entry.name@, entry.is_dir));
            assert forall|k: int| 0 <= k < taken.len() implies is_ascii_chars(
                #[trigger] taken[k].name@,
            ) by {
                if k < i {
                    assert(entries@.take(i as int)[k] == taken[k]);
                }
            }
        }
        i += 1;
    }
    assert(entries@.take(entries@.len() as int) == entries@);
    page.append(PAGE_CLOSE);
    Ok(page)
}

} // verus!
