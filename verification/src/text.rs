//! Character-level access to strings, and splitting and joining of texts.

use vstd::prelude::*;
use vstd::std_specs::iter::IteratorSpec;

verus! {

/// Assumed of `String::push` of the standard library, and not proved here:
/// the call puts the given character at the end of the string and changes
/// nothing else of it.
pub assume_specification[ String::push ](s: &mut String, c: char)
    ensures
        final(s)@ == old(s)@.push(c),
;

/// The characters of `s`, in order.
pub fn to_chars(s: &str) -> (v: Vec<char>)
    ensures
        v@ == s@,
{
    let mut v: Vec<char> = Vec::new();
    for c in it: s.chars()
        invariant
            v@ == it.seq().take(it.index()),
            it.seq() == s@,
    {
        v.push(c);
    }
    v
}

/// The string made of the characters of `v`, in order.
pub fn from_chars(v: &Vec<char>) -> (s: String)
    ensures
        s@ == v@,
{
    let mut s = String::new();
    let mut i: usize = 0;
    while i < v.len()
        invariant
            i <= v.len(),
            s@ == v@.take(i as int),
        decreases v.len() - i,
    {
        s.push(v[i]);
        i += 1;
    }
    s
}

/// Whether `text` holds exactly the characters of `literal`.
pub fn is_text(text: &Vec<char>, literal: &str) -> (r: bool)
    ensures
        r == (text@ == literal@),
{
    let mut i: usize = 0;
    for c in it: literal.chars()
        invariant
            it.seq() == literal@,
            i == it.index(),
            i <= text.len(),
            text@.take(i as int) == literal@.take(i as int),
    {
        if i >= text.len() || text[i] != c {
            assert(text@ == literal@ ==> text@[i as int] == literal@[i as int]);
            return false;
        }
        assert(text@.take(i + 1) == text@.take(i as int).push(text@[i as int]));
        assert(literal@.take(i + 1) == literal@.take(i as int).push(c));
        i += 1;
    }
    assert(literal@.take(literal@.len() as int) == literal@);
    assert(text@.take(text@.len() as int) == text@);
    i == text.len()
}

/// Whether `a` and `b` hold the same characters.
pub fn same_text(a: &str, b: &str) -> (r: bool)
    ensures
        r == (a@ == b@),
{
    let mut left = a.chars();
    let mut right = b.chars();
    let ghost mut k: int = 0;
    loop
        invariant
            0 <= k <= a@.len(),
            k <= b@.len(),
            a@.take(k) == b@.take(k),
            left.remaining() == a@.skip(k),
            right.remaining() == b@.skip(k),
        decreases a@.len() - k,
    {
        match (left.next(), right.next()) {
            (Some(x), Some(y)) => {
                if x != y {
                    return false;
                }
                proof {
                    assert(a@.take(k + 1) == a@.take(k).push(x));
                    assert(b@.take(k + 1) == b@.take(k).push(y));
                    k = k + 1;
                }
            },
            (None, None) => {
                assert(a@.take(k) == a@ && b@.take(k) == b@);
                return true;
            },
            _ => {
                return false;
            },
        }
    }
}

/// The characters of `text` from `from` up to, not including, `to`.
pub(crate) fn slice(text: &Vec<char>, from: usize, to: usize) -> (part: Vec<char>)
    requires
        from <= to <= text.len(),
    ensures
        part@ == text@.subrange(from as int, to as int),
{
    let mut part: Vec<char> = Vec::new();
    let mut k: usize = from;
    while k < to
        invariant
            from <= k <= to <= text.len(),
            part@ == text@.subrange(from as int, k as int),
        decreases to - k,
    {
        part.push(text[k]);
        k += 1;
    }
    part
}

/// The place of the first `c` in `s`, where `s` holds one.
pub open spec fn position(s: Seq<char>, c: char) -> Option<int>
    decreases s.len(),
{
    if s.len() == 0 {
        None
    } else if s[0] == c {
        Some(0)
    } else {
        match position(s.skip(1), c) {
            Some(i) => Some(i + 1),
            None => None,
        }
    }
}

/// `position` gives the least index that holds `c`, and nothing exactly
/// where no index holds it.
pub proof fn lemma_position(s: Seq<char>, c: char)
    ensures
        match position(s, c) {
            Some(i) => 0 <= i < s.len() && s[i] == c && forall|j: int| 0 <= j < i ==> s[j] != c,
            None => forall|j: int| 0 <= j < s.len() ==> s[j] != c,
        },
    decreases s.len(),
{
    if s.len() > 0 && s[0] != c {
        let rest = s.skip(1);
        lemma_position(rest, c);
        match position(rest, c) {
            Some(i) => {
                assert forall|j: int| 0 <= j < i + 1 implies s[j] != c by {
                    if j > 0 {
                        assert(rest[j - 1] != c);
                    }
                }
            },
            None => {
                assert forall|j: int| 0 <= j < s.len() implies s[j] != c by {
                    if j > 0 {
                        assert(rest[j - 1] != c);
                    }
                }
            },
        }
    }
}

/// Finds the first `c` in `text`.
pub fn find(text: &Vec<char>, c: char) -> (r: Option<usize>)
    ensures
        match r {
            Some(i) => position(text@, c) == Some(i as int),
            None => position(text@, c) is None,
        },
{
    let mut i: usize = 0;
    while i < text.len()
        invariant
            i <= text.len(),
            forall|j: int| 0 <= j < i ==> text@[j] != c,
        decreases text.len() - i,
    {
        if text[i] == c {
            proof {
                lemma_position(text@, c);
            }
            return Some(i);
        }
        i += 1;
    }
    proof {
        lemma_position(text@, c);
    }
    None
}

/// Space and horizontal tab: the whitespace that may surround a header
/// field.
pub open spec fn is_blank(c: char) -> bool {
    c == ' ' || c == '\t'
}

/// `s` without the blanks at its start.
pub open spec fn trimmed_start(s: Seq<char>) -> Seq<char>
    decreases s.len(),
{
    if s.len() > 0 && is_blank(s[0]) {
        trimmed_start(s.skip(1))
    } else {
        s
    }
}

/// `s` without the blanks at its end.
pub open spec fn trimmed_end(s: Seq<char>) -> Seq<char>
    decreases s.len(),
{
    if s.len() > 0 && is_blank(s.last()) {
        trimmed_end(s.drop_last())
    } else {
        s
    }
}

/// `s` without the blanks around it.
pub open spec fn trimmed(s: Seq<char>) -> Seq<char> {
    trimmed_end(trimmed_start(s))
}

/// Removes the blanks around `text`.
pub fn trim(text: &Vec<char>) -> (r: Vec<char>)
    ensures
        r@ == trimmed(text@),
{
    let mut from: usize = 0;
    assert(text@.skip(0) == text@);
    while from < text.len() && (text[from] == ' ' || text[from] == '\t')
        invariant
            from <= text.len(),
            trimmed_start(text@) == trimmed_start(text@.skip(from as int)),
        decreases text.len() - from,
    {
        assert(text@.skip(from as int).skip(1) == text@.skip(from + 1));
        from += 1;
    }
    let ghost started = text@.skip(from as int);
    let mut to: usize = text.len();
    assert(started.take(to - from) == started);
    while to > from && (text[to - 1] == ' ' || text[to - 1] == '\t')
        invariant
            from <= to <= text.len(),
            started == text@.skip(from as int),
            trimmed_end(started) == trimmed_end(started.take(to - from)),
        decreases to,
    {
        assert(started.take(to - from).drop_last() == started.take(to - from - 1));
        to -= 1;
    }
    assert(started.take(to - from) == text@.subrange(from as int, to as int));
    slice(text, from, to)
}

/// The texts of a sequence of strings.
pub open spec fn texts(lines: Seq<String>) -> Seq<Seq<char>> {
    lines.map_values(|line: String| line@)
}

/// The texts held by a sequence of character vectors.
pub open spec fn views(parts: Seq<Vec<char>>) -> Seq<Seq<char>> {
    parts.map_values(|p: Vec<char>| p@)
}

/// The pieces of `s` between the occurrences of `sep`. There is always at
/// least one piece: a text without `sep` is its own single piece, and a
/// `sep` at either end leaves an empty piece there.
pub open spec fn split(s: Seq<char>, sep: char) -> Seq<Seq<char>>
    decreases s.len(),
{
    if s.len() == 0 {
        seq![Seq::empty()]
    } else {
        let before = split(s.drop_last(), sep);
        if s.last() == sep {
            before.push(Seq::empty())
        } else {
            before.update(before.len() - 1, before.last().push(s.last()))
        }
    }
}

/// The pieces of `parts` with one `sep` between each two neighbours.
pub open spec fn join(parts: Seq<Seq<char>>, sep: char) -> Seq<char>
    decreases parts.len(),
{
    if parts.len() == 0 {
        Seq::empty()
    } else if parts.len() == 1 {
        parts[0]
    } else {
        join(parts.drop_last(), sep).push(sep) + parts.last()
    }
}

/// Whether no piece of `parts` holds `sep`.
pub open spec fn free_of(parts: Seq<Seq<char>>, sep: char) -> bool {
    forall|i: int, j: int|
        0 <= i < parts.len() && 0 <= j < parts[i].len() ==> #[trigger] parts[i][j] != sep
}

/// Splitting gives at least one piece, and no piece holds the separator.
pub proof fn lemma_split_pieces(s: Seq<char>, sep: char)
    ensures
        split(s, sep).len() >= 1,
        free_of(split(s, sep), sep),
    decreases s.len(),
{
    if s.len() > 0 {
        lemma_split_pieces(s.drop_last(), sep);
    }
}

/// Joining the pieces of a text gives the text back.
pub proof fn lemma_join_split(s: Seq<char>, sep: char)
    ensures
        join(split(s, sep), sep) == s,
    decreases s.len(),
{
    if s.len() > 0 {
        let front = s.drop_last();
        let before = split(front, sep);
        lemma_join_split(front, sep);
        lemma_split_pieces(front, sep);
        if s.last() == sep {
            assert(before.push(Seq::empty()).drop_last() == before);
            assert(front.push(sep) + Seq::<char>::empty() == s);
        } else {
            let after = before.update(before.len() - 1, before.last().push(s.last()));
            if before.len() > 1 {
                assert(after.drop_last() == before.drop_last());
                assert(join(before.drop_last(), sep).push(sep) + before.last().push(s.last())
                    == (join(before.drop_last(), sep).push(sep) + before.last()).push(s.last()));
            }
            assert(front.push(s.last()) == s);
        }
    }
}

/// A text split at a separator splits into the pieces of what stands
/// before it, followed by the pieces of what stands behind it.
pub proof fn lemma_split_around(a: Seq<char>, b: Seq<char>, sep: char)
    ensures
        split(a.push(sep) + b, sep) == split(a, sep) + split(b, sep),
    decreases b.len(),
{
    let whole = a.push(sep) + b;
    if b.len() == 0 {
        assert(whole == a.push(sep));
        assert(whole.drop_last() == a);
        assert(split(a, sep).push(Seq::empty()) == split(a, sep) + split(b, sep));
    } else {
        let front = b.drop_last();
        lemma_split_around(a, front, sep);
        lemma_split_pieces(front, sep);
        assert(whole.drop_last() == a.push(sep) + front);
        assert(whole.last() == b.last());
        let left = split(a, sep);
        let right = split(front, sep);
        if b.last() == sep {
            assert((left + right).push(Seq::empty()) == left + right.push(Seq::empty()));
        } else {
            assert((left + right).update(
                (left + right).len() - 1,
                (left + right).last().push(b.last()),
            ) == left + right.update(right.len() - 1, right.last().push(b.last())));
        }
    }
}

/// A text without the separator is its own single piece.
pub proof fn lemma_split_whole(s: Seq<char>, sep: char)
    requires
        forall|j: int| 0 <= j < s.len() ==> s[j] != sep,
    ensures
        split(s, sep) == seq![s],
    decreases s.len(),
{
    if s.len() > 0 {
        let front = s.drop_last();
        assert forall|j: int| 0 <= j < front.len() implies front[j] != sep by {
            assert(s[j] != sep);
        }
        lemma_split_whole(front, sep);
        assert(s[s.len() - 1] != sep);
        assert(front.push(s.last()) == s);
        assert(seq![front].update(0, s) == seq![s]);
    } else {
        assert(s == Seq::<char>::empty());
    }
}

/// Splitting what was joined gives the pieces back, where there is at
/// least one piece and none of them holds the separator.
pub proof fn lemma_split_join(parts: Seq<Seq<char>>, sep: char)
    requires
        parts.len() >= 1,
        free_of(parts, sep),
    ensures
        split(join(parts, sep), sep) == parts,
    decreases parts.len(),
{
    let last = parts.last();
    assert forall|j: int| 0 <= j < last.len() implies last[j] != sep by {
        assert(parts[parts.len() - 1][j] != sep);
    }
    lemma_split_whole(last, sep);
    if parts.len() == 1 {
        assert(seq![last] == parts);
    } else {
        let front = parts.drop_last();
        assert(free_of(front, sep)) by {
            assert forall|i: int, j: int|
                0 <= i < front.len() && 0 <= j < front[i].len() implies #[trigger] front[i][j]
                != sep by {
                assert(parts[i][j] != sep);
            }
        }
        lemma_split_join(front, sep);
        lemma_split_around(join(front, sep), last, sep);
        assert(front + seq![last] == parts);
    }
}

/// Splits `text` at every `sep`.
pub fn split_chars(text: &Vec<char>, sep: char) -> (parts: Vec<Vec<char>>)
    ensures
        views(parts@) == split(text@, sep),
{
    let mut parts: Vec<Vec<char>> = Vec::new();
    let mut piece: Vec<char> = Vec::new();
    let mut i: usize = 0;
    while i < text.len()
        invariant
            i <= text.len(),
            views(parts@).push(piece@) == split(text@.take(i as int), sep),
        decreases text.len() - i,
    {
        let ghost done = views(parts@);
        let ghost cur = piece@;
        assert(text@.take(i + 1).drop_last() == text@.take(i as int));
        if text[i] == sep {
            parts.push(piece);
            piece = Vec::new();
            assert(views(parts@) == done.push(cur));
        } else {
            piece.push(text[i]);
            assert(done.push(cur).update(done.len() as int, cur.push(text@[i as int]))
                == done.push(piece@));
        }
        i += 1;
    }
    assert(text@.take(text@.len() as int) == text@);
    let ghost done = views(parts@);
    parts.push(piece);
    assert(views(parts@) == done.push(piece@));
    parts
}

/// Joins `parts` with one `sep` between each two neighbours.
pub fn join_chars(parts: &Vec<Vec<char>>, sep: char) -> (text: Vec<char>)
    ensures
        text@ == join(views(parts@), sep),
{
    let mut text: Vec<char> = Vec::new();
    let mut k: usize = 0;
    while k < parts.len()
        invariant
            k <= parts.len(),
            text@ == join(views(parts@).take(k as int), sep),
        decreases parts.len() - k,
    {
        let ghost before = text@;
        let ghost taken = views(parts@).take(k + 1);
        assert(taken.drop_last() == views(parts@).take(k as int));
        assert(taken.last() == parts@[k as int]@);
        if k > 0 {
            text.push(sep);
        }
        let part = &parts[k];
        let mut j: usize = 0;
        while j < part.len()
            invariant
                j <= part.len(),
                text@ == (if k > 0 {
                    before.push(sep)
                } else {
                    before
                }) + part@.take(j as int),
            decreases part.len() - j,
        {
            text.push(part[j]);
            assert(part@.take(j + 1) == part@.take(j as int).push(part@[j as int]));
            j += 1;
        }
        assert(part@.take(part@.len() as int) == part@);
        k += 1;
    }
    assert(views(parts@).take(parts@.len() as int) == views(parts@));
    text
}

} // verus!
