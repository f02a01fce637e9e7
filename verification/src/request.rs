//! Requests: the request line and the header fields that follow it.

use crate::text::{
    find, from_chars, lemma_position, position, same_text, slice, split, split_chars, texts,
    to_chars, trim, trimmed, views,
};
use vstd::prelude::*;

verus! {

/// Why a request is not served.
#[derive(Clone, Copy, Debug, PartialEq, Eq, Structural)]
pub enum RequestError {
    /// The request line is missing or is not three tokens with one space
    /// between each two.
    MalformedRequestLine,
    /// The version is not `HTTP/1.1`.
    UnsupportedVersion,
    /// The method is not `GET`.
    UnsupportedMethod,
    /// The target does not begin with `/`.
    RelativeTarget,
    /// The path in the target holds a `%` without two hexadecimal digits.
    MalformedEncoding,
}

/// The kinds of failure that end a connection without a response.
#[derive(Clone, Copy, Debug, PartialEq, Eq, Structural)]
pub enum ErrorKind {
    /// The request breaks the protocol as this server speaks it.
    Protocol,
    /// The target cannot be decoded.
    Decode,
}

impl RequestError {
    /// The kind of this failure.
    pub open spec fn spec_kind(self) -> ErrorKind {
        if self == RequestError::MalformedEncoding {
            ErrorKind::Decode
        } else {
            ErrorKind::Protocol
        }
    }

    /// The kind of this failure: decoding for a malformed escape, protocol
    /// for everything else.
    #[verifier::when_used_as_spec(spec_kind)]
    pub fn kind(self) -> (k: ErrorKind)
        ensures
            k == self.spec_kind(),
    {
        match self {
            RequestError::MalformedEncoding => ErrorKind::Decode,
            _ => ErrorKind::Protocol,
        }
    }
}

/// The fields that a list of name and value pairs stands for.
spec fn fields_of(entries: Seq<(String, String)>) -> Map<Seq<char>, Seq<char>>
    decreases entries.len(),
{
    if entries.len() == 0 {
        Map::empty()
    } else {
        fields_of(entries.drop_last()).insert(entries.last().0@, entries.last().1@)
    }
}

/// Whether no two pairs have the same name.
spec fn distinct_names(entries: Seq<(String, String)>) -> bool {
    forall|i: int, j: int|
        0 <= i < j < entries.len() ==> (#[trigger] entries[i]).0@ != (#[trigger] entries[j]).0@
}

/// The header fields of a request, by name. A name is kept as it was
/// received and occurs once: a field received again replaces the one
/// before it.
#[derive(Debug)]
pub struct Headers {
    entries: Vec<(String, String)>,
}

impl Clone for Headers {
    fn clone(&self) -> (r: Headers)
        ensures
            r@ == self@,
    {
        proof {
            use_type_invariant(self);
        }
        let mut entries: Vec<(String, String)> = Vec::new();
        let mut i: usize = 0;
        while i < self.entries.len()
            invariant
                i <= self.entries@.len(),
                entries@ == self.entries@.take(i as int),
            decreases self.entries@.len() - i,
        {
            entries.push((self.entries[i].0.clone(), self.entries[i].1.clone()));
            assert(self.entries@.take(i + 1) == self.entries@.take(i as int).push(
                self.entries@[i as int],
            ));
            i += 1;
        }
        assert(self.entries@.take(self.entries@.len() as int) == self.entries@);
        Headers { entries }
    }
}

impl View for Headers {
    type V = Map<Seq<char>, Seq<char>>;

    closed spec fn view(&self) -> Map<Seq<char>, Seq<char>> {
        fields_of(self.entries@)
    }
}

impl Headers {
    #[verifier::type_invariant]
    spec fn names_occur_once(self) -> bool {
        distinct_names(self.entries@)
    }

    /// No fields.
    pub fn new() -> (r: Headers)
        ensures
            r@ == Map::<Seq<char>, Seq<char>>::empty(),
    {
        Headers { entries: Vec::new() }
    }

    /// The place of the pair called `name`.
    fn index_of(&self, name: &str) -> (r: Option<usize>)
        ensures
            match r {
                Some(i) => i < self.entries@.len() && self.entries@[i as int].0@ == name@,
                None => forall|i: int|
                    0 <= i < self.entries@.len() ==> (#[trigger] self.entries@[i]).0@ != name@,
            },
    {
        let mut i: usize = 0;
        while i < self.entries.len()
            invariant
                i <= self.entries@.len(),
                forall|j: int| 0 <= j < i ==> (#[trigger] self.entries@[j]).0@ != name@,
            decreases self.entries@.len() - i,
        {
            if same_text(self.entries[i].0.as_str(), name) {
                return Some(i);
            }
            i += 1;
        }
        None
    }

    /// Sets the field `name` to `value`, in place of any value it had.
    pub fn insert(&mut self, name: String, value: String)
        ensures
            final(self)@ == old(self)@.insert(name@, value@),
    {
        proof {
            use_type_invariant(&*self);
        }
        let found = self.index_of(name.as_str());
        let mut entries: Vec<(String, String)> = Vec::new();
        core::mem::swap(&mut entries, &mut self.entries);
        match found {
            Some(i) => {
                proof {
                    lemma_fields_replace(entries@, i as int, (name, value));
                }
                entries.set(i, (name, value));
            },
            None => {
                proof {
                    lemma_fields_add(entries@, (name, value));
                }
                entries.push((name, value));
            },
        }
        self.entries = entries;
    }

    /// The value of the field `name`, where it was received.
    pub fn get(&self, name: &str) -> (r: Option<&String>)
        ensures
            match r {
                Some(value) => self@.contains_key(name@) && self@[name@] == value@,
                None => !self@.contains_key(name@),
            },
    {
        proof {
            use_type_invariant(self);
            lemma_field_names(self.entries@, name@);
        }
        match self.index_of(name) {
            Some(i) => {
                proof {
                    lemma_field_value(self.entries@, i as int);
                }
                Some(&self.entries[i].1)
            },
            None => None,
        }
    }

    /// How many fields there are.
    pub fn len(&self) -> (r: usize)
        ensures
            r == self@.len(),
    {
        proof {
            use_type_invariant(self);
            lemma_fields_len(self.entries@);
        }
        self.entries.len()
    }
}

/// A request as it was received. Nothing in it has been checked.
#[derive(Clone, Debug)]
pub struct Request {
    /// The first token of the request line.
    pub method: String,
    /// The second token of the request line: the path, with its query
    /// string if it has one.
    pub target: String,
    /// The third token of the request line.
    pub version: String,
    /// The header fields.
    pub headers: Headers,
}

/// The name and value in a header line: what stands before and behind its
/// first `:`, each without the blanks around it. A line without `:` is no
/// header line.
pub open spec fn header_field(line: Seq<char>) -> Option<(Seq<char>, Seq<char>)> {
    match position(line, ':') {
        Some(i) => Some((trimmed(line.take(i)), trimmed(line.skip(i + 1)))),
        None => None,
    }
}

/// `fields` with the fields of the header lines that `lines` begins with,
/// each set in turn. The first line that is no header line ends them.
pub open spec fn collected(lines: Seq<Seq<char>>, fields: Map<Seq<char>, Seq<char>>) -> Map<
    Seq<char>,
    Seq<char>,
>
    decreases lines.len(),
{
    if lines.len() == 0 {
        fields
    } else {
        match header_field(lines[0]) {
            Some((name, value)) => collected(lines.skip(1), fields.insert(name, value)),
            None => fields,
        }
    }
}

/// Reads one header line. `None` says that the line is no header line, so
/// that the headers ended before it.
pub fn parse_header_line(line: &str) -> (r: Option<(String, String)>)
    ensures
        match r {
            Some((name, value)) => header_field(line@) == Some((name@, value@)),
            None => header_field(line@) is None,
        },
{
    let chars = to_chars(line);
    match find(&chars, ':') {
        Some(i) => {
            proof {
                lemma_position(chars@, ':');
            }
            let name = trim(&slice(&chars, 0, i));
            let value = trim(&slice(&chars, i + 1, chars.len()));
            Some((from_chars(&name), from_chars(&value)))
        },
        None => None,
    }
}

/// Whether `lines` end the head of a request: there is a request line, and
/// the last line behind it is no header line.
pub open spec fn ends_head(lines: Seq<Seq<char>>) -> bool {
    lines.len() >= 2 && header_field(lines.last()) is None
}

/// Whether the lines read so far end the head of the request, so that no
/// further line belongs to it.
pub fn head_complete(lines: &Vec<String>) -> (r: bool)
    ensures
        r == ends_head(texts(lines@)),
{
    lines.len() >= 2 && parse_header_line(lines[lines.len() - 1].as_str()).is_none()
}

/// Reads a request from the lines of its head: the request line, then the
/// header lines. The request line must be exactly three tokens with one
/// space between each two. The header lines end at the first line without
/// `:`, which an empty line is; what follows that line is not read.
pub fn parse_request(lines: &Vec<String>) -> (r: Result<Request, RequestError>)
    ensures
        match r {
            Ok(request) => {
                &&& lines@.len() >= 1
                &&& split(lines@[0]@, ' ') == seq![
                    request.method@,
                    request.target@,
                    request.version@,
                ]
                &&& request.headers@ == collected(texts(lines@).skip(1), Map::empty())
            },
            Err(e) => {
                &&& e == RequestError::MalformedRequestLine
                &&& lines@.len() == 0 || split(lines@[0]@, ' ').len() != 3
            },
        },
{
    if lines.len() == 0 {
        return Err(RequestError::MalformedRequestLine);
    }
    let tokens = split_chars(&to_chars(lines[0].as_str()), ' ');
    if tokens.len() != 3 {
        assert(views(tokens@).len() == tokens@.len());
        return Err(RequestError::MalformedRequestLine);
    }
    let method = from_chars(&tokens[0]);
    let target = from_chars(&tokens[1]);
    let version = from_chars(&tokens[2]);
    assert(views(tokens@) == seq![method@, target@, version@]);
    let mut headers = Headers::new();
    let ghost all = texts(lines@);
    let mut i: usize = 1;
    assert(all.skip(1) == all.skip(i as int));
    while i < lines.len()
        invariant_except_break
            collected(all.skip(1), Map::empty()) == collected(all.skip(i as int), headers@),
        invariant
            1 <= i <= lines@.len(),
            all == texts(lines@),
        ensures
            collected(all.skip(1), Map::empty()) == headers@,
        decreases lines@.len() - i,
    {
        assert(all.skip(i as int).skip(1) == all.skip(i + 1));
        match parse_header_line(lines[i].as_str()) {
            Some((name, value)) => {
                headers.insert(name, value);
            },
            None => {
                break ;
            },
        }
        i += 1;
    }
    Ok(Request { method, target, version, headers })
}

/// A name is among the fields exactly if a pair has it.
proof fn lemma_field_names(entries: Seq<(String, String)>, name: Seq<char>)
    ensures
        fields_of(entries).contains_key(name) <==> exists|i: int|
            0 <= i < entries.len() && (#[trigger] entries[i]).0@ == name,
    decreases entries.len(),
{
    if entries.len() > 0 {
        let front = entries.drop_last();
        lemma_field_names(front, name);
        if fields_of(entries).contains_key(name) {
            if entries.last().0@ == name {
                assert(entries[entries.len() - 1].0@ == name);
            } else {
                let i = choose|i: int| 0 <= i < front.len() && (#[trigger] front[i]).0@ == name;
                assert(entries[i].0@ == name);
            }
        }
        if exists|i: int| 0 <= i < entries.len() && (#[trigger] entries[i]).0@ == name {
            let i = choose|i: int| 0 <= i < entries.len() && (#[trigger] entries[i]).0@ == name;
            if i < front.len() {
                assert(front[i].0@ == name);
            }
        }
    }
}

/// Where names are distinct, each pair gives the value of its name.
proof fn lemma_field_value(entries: Seq<(String, String)>, i: int)
    requires
        distinct_names(entries),
        0 <= i < entries.len(),
    ensures
        fields_of(entries).contains_key(entries[i].0@),
        fields_of(entries)[entries[i].0@] == entries[i].1@,
    decreases entries.len(),
{
    if i < entries.len() - 1 {
        let front = entries.drop_last();
        assert(distinct_names(front)) by {
            assert forall|a: int, b: int| 0 <= a < b < front.len() implies (#[trigger] front[a]).0@
                != (#[trigger] front[b]).0@ by {
                assert(entries[a].0@ != entries[b].0@);
            }
        }
        lemma_field_value(front, i);
        assert(entries[i].0@ != entries[entries.len() - 1].0@);
    }
}

/// Replacing the pair at `i` by one of the same name keeps the names
/// distinct and replaces the value of that name.
proof fn lemma_fields_replace(entries: Seq<(String, String)>, i: int, pair: (String, String))
    requires
        distinct_names(entries),
        0 <= i < entries.len(),
        entries[i].0@ == pair.0@,
    ensures
        distinct_names(entries.update(i, pair)),
        fields_of(entries.update(i, pair)) == fields_of(entries).insert(pair.0@, pair.1@),
{
    let after = entries.update(i, pair);
    assert(distinct_names(after)) by {
        assert forall|a: int, b: int| 0 <= a < b < after.len() implies (#[trigger] after[a]).0@ != (
        #[trigger] after[b]).0@ by {
            assert(entries[a].0@ != entries[b].0@);
        }
    }
    let want = fields_of(entries).insert(pair.0@, pair.1@);
    assert forall|name: Seq<char>| fields_of(after).contains_key(name) <==> want.contains_key(
        name,
    ) by {
        lemma_field_names(after, name);
        lemma_field_names(entries, name);
        if fields_of(after).contains_key(name) {
            let k = choose|k: int| 0 <= k < after.len() && (#[trigger] after[k]).0@ == name;
            assert(entries[k].0@ == name);
        }
        if want.contains_key(name) {
            if name == pair.0@ {
                assert(after[i].0@ == name);
            } else {
                let k = choose|k: int| 0 <= k < entries.len() && (#[trigger] entries[k]).0@ == name;
                assert(after[k].0@ == name);
            }
        }
    }
    assert forall|name: Seq<char>| fields_of(after).contains_key(name) implies fields_of(
        after,
    )[name] == want[name] by {
        lemma_field_names(after, name);
        let k = choose|k: int| 0 <= k < after.len() && (#[trigger] after[k]).0@ == name;
        lemma_field_value(after, k);
        if k != i {
            assert(entries[k] == after[k]);
            lemma_field_value(entries, k);
            if k < i {
                assert(entries[k].0@ != entries[i].0@);
            } else {
                assert(entries[i].0@ != entries[k].0@);
            }
        }
    }
    assert(fields_of(after) =~= want);
}

/// Adding a pair of a new name keeps the names distinct.
proof fn lemma_fields_add(entries: Seq<(String, String)>, pair: (String, String))
    requires
        distinct_names(entries),
        forall|i: int| 0 <= i < entries.len() ==> (#[trigger] entries[i]).0@ != pair.0@,
    ensures
        distinct_names(entries.push(pair)),
        fields_of(entries.push(pair)) == fields_of(entries).insert(pair.0@, pair.1@),
{
    let after = entries.push(pair);
    assert(after.drop_last() == entries);
    assert forall|a: int, b: int| 0 <= a < b < after.len() implies (#[trigger] after[a]).0@ != (
    #[trigger] after[b]).0@ by {
        if b < entries.len() {
            assert(entries[a].0@ != entries[b].0@);
        } else {
            assert(entries[a].0@ != pair.0@);
        }
    }
}

/// Where names are distinct, there are as many fields as pairs.
proof fn lemma_fields_len(entries: Seq<(String, String)>)
    requires
        distinct_names(entries),
    ensures
        fields_of(entries).dom().finite(),
        fields_of(entries).len() == entries.len(),
    decreases entries.len(),
{
    if entries.len() > 0 {
        let front = entries.drop_last();
        assert(distinct_names(front)) by {
            assert forall|a: int, b: int| 0 <= a < b < front.len() implies (#[trigger] front[a]).0@
                != (#[trigger] front[b]).0@ by {
                assert(entries[a].0@ != entries[b].0@);
            }
        }
        lemma_fields_len(front);
        lemma_field_names(front, entries.last().0@);
        if fields_of(front).contains_key(entries.last().0@) {
            let i = choose|i: int|
                0 <= i < front.len() && (#[trigger] front[i]).0@ == entries.last().0@;
            assert(entries[i].0@ != entries[entries.len() - 1].0@);
        }
    }
}

} // verus!
