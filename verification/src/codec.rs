//! Percent-encoding of URL path text and escaping of HTML text.

use crate::text::to_chars;
use vstd::prelude::*;
use vstd::utf8::is_ascii_chars;

verus! {

/// Why a text could not be encoded or decoded.
#[derive(Clone, Copy, Debug, PartialEq, Eq, Structural)]
pub enum CodecError {
    /// The text to encode holds a character outside ASCII.
    UnsupportedCharacter,
    /// A `%` in the text to decode is not followed by two hexadecimal digits.
    MalformedEncoding,
}

/// The characters that percent-encoding leaves as they are.
pub open spec fn is_unreserved(c: char) -> bool {
    ||| 'a' <= c <= 'z'
    ||| 'A' <= c <= 'Z'
    ||| '0' <= c <= '9'
    ||| c == '.'
    ||| c == '~'
    ||| c == '_'
    ||| c == '-'
}

/// The upper-case hexadecimal digit for a value below sixteen.
pub open spec fn hex_digit(n: int) -> char
    recommends
        0 <= n < 16,
{
    if n < 10 {
        (n + 48) as char
    } else {
        (n + 55) as char
    }
}

/// `%XX` for the byte value `b`, most significant digit first.
pub open spec fn escape(b: int) -> Seq<char>
    recommends
        0 <= b < 256,
{
    seq!['%', hex_digit(b / 16), hex_digit(b % 16)]
}

/// What one character becomes when encoded.
pub open spec fn encode_char(c: char) -> Seq<char> {
    if is_unreserved(c) {
        seq![c]
    } else {
        escape(c as int)
    }
}

/// The percent-encoding of an ASCII text.
pub open spec fn url_encoded(s: Seq<char>) -> Seq<char> {
    s.flat_map(|c: char| encode_char(c))
}

fn unreserved(c: char) -> (r: bool)
    ensures
        r == is_unreserved(c),
{
    ('a' <= c && c <= 'z') || ('A' <= c && c <= 'Z') || ('0' <= c && c <= '9') || c == '.'
        || c == '~' || c == '_' || c == '-'
}

fn hex_digit_of(n: u8) -> (c: char)
    requires
        n < 16,
    ensures
        c == hex_digit(n as int),
{
    if n < 10 {
        (n + 48) as char
    } else {
        (n + 55) as char
    }
}

/// Percent-encodes `input`: letters, digits and `. ~ _ -` stay, every other
/// ASCII character becomes `%XX`. A character outside ASCII is refused.
pub fn url_encode(input: &str) -> (r: Result<String, CodecError>)
    ensures
        is_ascii_chars(input@) ==> r is Ok && r->Ok_0@ == url_encoded(input@),
        !is_ascii_chars(input@) ==> r == Err::<String, CodecError>(
            CodecError::UnsupportedCharacter,
        ),
{
    if !input.is_ascii() {
        return Err(CodecError::UnsupportedCharacter);
    }
    let mut res = String::new();
    for c in it: input.chars()
        invariant
            it.seq() == input@,
            is_ascii_chars(input@),
            res@ == url_encoded(input@.take(it.index())),
    {
        let ghost i = it.index();
        if unreserved(c) {
            res.push(c);
        } else {
            let b = c as u8;
            res.push('%');
            res.push(hex_digit_of(b / 16));
            res.push(hex_digit_of(b % 16));
        }
        proof {
            input@.lemma_flat_map_take_append(|c: char| encode_char(c), i);
        }
    }
    assert(input@.take(input@.len() as int) == input@);
    Ok(res)
}

/// The value of one hexadecimal digit, in either case.
pub open spec fn hex_value(c: char) -> Option<int> {
    if '0' <= c <= '9' {
        Some(c as int - 48)
    } else if 'a' <= c <= 'f' {
        Some(c as int - 87)
    } else if 'A' <= c <= 'F' {
        Some(c as int - 55)
    } else {
        None
    }
}

/// `s` with every `+` turned into a space.
pub open spec fn plus_as_space(s: Seq<char>) -> Seq<char> {
    s.map_values(|c: char| if c == '+' { ' ' } else { c })
}

/// `head` followed by `tail`, where there is a tail.
pub open spec fn prepend(head: Seq<char>, tail: Option<Seq<char>>) -> Option<Seq<char>> {
    match tail {
        Some(t) => Some(head + t),
        None => None,
    }
}

/// `s` read from the left with each `%XX` replaced by the character whose
/// code is the byte `XX`; `None` where a `%` lacks its two digits.
pub open spec fn unescaped(s: Seq<char>) -> Option<Seq<char>>
    decreases s.len(),
{
    if s.len() == 0 {
        Some(Seq::empty())
    } else if s[0] != '%' {
        prepend(seq![s[0]], unescaped(s.skip(1)))
    } else if s.len() >= 3 && hex_value(s[1]) is Some && hex_value(s[2]) is Some {
        let byte = 16 * hex_value(s[1])->0 + hex_value(s[2])->0;
        prepend(seq![byte as char], unescaped(s.skip(3)))
    } else {
        None
    }
}

/// The text that a percent-encoded text stands for.
pub open spec fn url_decoded(s: Seq<char>) -> Option<Seq<char>> {
    unescaped(plus_as_space(s))
}

/// Whether every `%` in `s` is followed by two hexadecimal digits.
pub open spec fn escapes_complete(s: Seq<char>) -> bool {
    forall|i: int|
        0 <= i < s.len() && #[trigger] s[i] == '%' ==> {
            &&& i + 2 < s.len()
            &&& hex_value(s[i + 1]) is Some
            &&& hex_value(s[i + 2]) is Some
        }
}

/// A character may move from the front of the tail to the end of the head.
proof fn lemma_prepend_push(head: Seq<char>, c: char, tail: Option<Seq<char>>)
    ensures
        prepend(head, prepend(seq![c], tail)) == prepend(head.push(c), tail),
{
    if tail is Some {
        assert(head + (seq![c] + tail->0) =~= head.push(c) + tail->0);
    }
}

fn hex_value_of(c: char) -> (r: Option<u8>)
    ensures
        r is Some <==> hex_value(c) is Some,
        r is Some ==> r->0 == hex_value(c)->0,
{
    if '0' <= c && c <= '9' {
        Some(c as u8 - 48)
    } else if 'a' <= c && c <= 'f' {
        Some(c as u8 - 87)
    } else if 'A' <= c && c <= 'F' {
        Some(c as u8 - 55)
    } else {
        None
    }
}

/// Decodes a percent-encoded text: `+` stands for a space and `%XX` for the
/// character whose code is the byte `XX`. A `%` without two hexadecimal
/// digits behind it is refused.
pub fn url_decode(input: &str) -> (r: Result<String, CodecError>)
    ensures
        match r {
            Ok(text) => url_decoded(input@) == Some(text@),
            Err(e) => url_decoded(input@) is None && e == CodecError::MalformedEncoding,
        },
        r is Ok <==> escapes_complete(input@),
{
    proof {
        lemma_decodable_iff_escapes_complete(input@);
    }
    let chars = to_chars(input);
    let n = chars.len();
    let ghost spaced = plus_as_space(input@);
    let mut res = String::new();
    let mut i: usize = 0;
    proof {
        assert(spaced.skip(0) == spaced);
        assert(unescaped(spaced) is Some ==> Seq::<char>::empty() + unescaped(spaced)->0
            == unescaped(spaced)->0);
    }
    while i < n
        invariant
            i <= n,
            n == chars@.len(),
            chars@ == input@,
            spaced == plus_as_space(input@),
            unescaped(spaced) == prepend(res@, unescaped(spaced.skip(i as int))),
        decreases n - i,
    {
        let c = chars[i];
        let ghost rest = spaced.skip(i as int);
        let ghost old_res = res@;
        if c == '%' {
            if n - i < 3 {
                return Err(CodecError::MalformedEncoding);
            }
            match (hex_value_of(chars[i + 1]), hex_value_of(chars[i + 2])) {
                (Some(high), Some(low)) => {
                    let byte = high * 16 + low;
                    res.push(byte as char);
                    proof {
                        assert(rest.skip(3) == spaced.skip(i + 3));
                        lemma_prepend_push(old_res, byte as char, unescaped(rest.skip(3)));
                    }
                    i += 3;
                },
                _ => {
                    return Err(CodecError::MalformedEncoding);
                },
            }
        } else {
            let plain = if c == '+' { ' ' } else { c };
            res.push(plain);
            proof {
                assert(rest.skip(1) == spaced.skip(i + 1));
                lemma_prepend_push(old_res, plain, unescaped(rest.skip(1)));
            }
            i += 1;
        }
    }
    Ok(res)
}

/// Decoding succeeds exactly on the texts in which every `%` has its two
/// hexadecimal digits.
pub proof fn lemma_decodable_iff_escapes_complete(s: Seq<char>)
    ensures
        url_decoded(s) is Some <==> escapes_complete(s),
{
    let t = plus_as_space(s);
    lemma_unescaped_iff_escapes_complete(t);
    if escapes_complete(s) {
        assert forall|i: int| 0 <= i < t.len() && #[trigger] t[i] == '%' implies i + 2 < t.len()
            && hex_value(t[i + 1]) is Some && hex_value(t[i + 2]) is Some by {
            assert(s[i] == '%');
        }
    }
    if escapes_complete(t) {
        assert forall|i: int| 0 <= i < s.len() && #[trigger] s[i] == '%' implies i + 2 < s.len()
            && hex_value(s[i + 1]) is Some && hex_value(s[i + 2]) is Some by {
            assert(t[i] == '%');
        }
    }
}

proof fn lemma_unescaped_iff_escapes_complete(s: Seq<char>)
    ensures
        unescaped(s) is Some <==> escapes_complete(s),
    decreases s.len(),
{
    if s.len() == 0 {
    } else if s[0] != '%' {
        lemma_unescaped_iff_escapes_complete(s.skip(1));
        lemma_escapes_complete_skip(s, 1);
    } else if s.len() >= 3 && hex_value(s[1]) is Some && hex_value(s[2]) is Some {
        lemma_unescaped_iff_escapes_complete(s.skip(3));
        lemma_escapes_complete_skip(s, 3);
    } else {
        assert(s[0] == '%');
    }
}

/// Dropping a prefix that is one plain character or one whole escape does
/// not change whether the escapes are complete.
proof fn lemma_escapes_complete_skip(s: Seq<char>, k: int)
    requires
        k == 1 || k == 3,
        s.len() >= k,
        k == 1 ==> s[0] != '%',
        k == 3 ==> hex_value(s[1]) is Some && hex_value(s[2]) is Some,
    ensures
        escapes_complete(s) <==> escapes_complete(s.skip(k)),
{
    let t = s.skip(k);
    if escapes_complete(s) {
        assert forall|i: int| 0 <= i < t.len() && #[trigger] t[i] == '%' implies i + 2 < t.len()
            && hex_value(t[i + 1]) is Some && hex_value(t[i + 2]) is Some by {
            assert(s[i + k] == '%');
        }
    }
    if escapes_complete(t) {
        assert forall|i: int| 0 <= i < s.len() && #[trigger] s[i] == '%' implies i + 2 < s.len()
            && hex_value(s[i + 1]) is Some && hex_value(s[i + 2]) is Some by {
            if i >= k {
                assert(t[i - k] == '%');
            }
        }
    }
}

/// Decoding gives back every ASCII text that was encoded.
pub proof fn lemma_decode_inverts_encode(s: Seq<char>)
    requires
        is_ascii_chars(s),
    ensures
        url_decoded(url_encoded(s)) == Some(s),
    decreases s.len(),
{
    if s.len() == 0 {
        assert(url_encoded(s) == Seq::<char>::empty());
        assert(plus_as_space(url_encoded(s)) == Seq::<char>::empty());
    } else {
        let front = s.drop_last();
        let c = s.last();
        lemma_decode_inverts_encode(front);
        front.lemma_flat_map_push(|c: char| encode_char(c), c);
        assert(front.push(c) == s);
        lemma_encoded_char_decodes(c);
        assert(plus_as_space(url_encoded(front) + encode_char(c)) == plus_as_space(
            url_encoded(front),
        ) + encode_char(c));
        lemma_unescaped_concat(plus_as_space(url_encoded(front)), encode_char(c));
        assert(front + seq![c] == s);
    }
}

/// A text of letters, digits and `. ~ _ -` can be encoded, decoding gives
/// it back, and its encoding is the text itself.
pub proof fn lemma_unreserved_round_trip(s: Seq<char>)
    requires
        forall|i: int| 0 <= i < s.len() ==> is_unreserved(#[trigger] s[i]),
    ensures
        is_ascii_chars(s),
        url_decoded(url_encoded(s)) == Some(s),
        url_encoded(s) == s,
    decreases s.len(),
{
    if s.len() == 0 {
        assert(url_encoded(s) == Seq::<char>::empty());
    } else {
        let front = s.drop_last();
        lemma_unreserved_round_trip(front);
        front.lemma_flat_map_push(|c: char| encode_char(c), s.last());
        assert(front.push(s.last()) == s);
    }
    assert(is_ascii_chars(s)) by {
        assert forall|i: int| 0 <= i < s.len() implies '\0' <= #[trigger] s[i] <= '\u{7f}' by {
            assert(is_unreserved(s[i]));
        }
    }
    lemma_decode_inverts_encode(s);
}

/// An encoded text holds nothing but letters, digits, `. ~ _ -` and `%`.
pub proof fn lemma_encoded_is_url_safe(s: Seq<char>)
    requires
        is_ascii_chars(s),
    ensures
        forall|i: int|
            0 <= i < url_encoded(s).len() ==> {
                let c = #[trigger] url_encoded(s)[i];
                is_unreserved(c) || c == '%'
            },
    decreases s.len(),
{
    if s.len() == 0 {
        assert(url_encoded(s) == Seq::<char>::empty());
    } else {
        let front = s.drop_last();
        lemma_encoded_is_url_safe(front);
        front.lemma_flat_map_push(|c: char| encode_char(c), s.last());
        assert(front.push(s.last()) == s);
        let b = s.last() as int;
        assert(is_unreserved(hex_digit(b / 16)) && is_unreserved(hex_digit(b % 16)));
        assert forall|i: int| 0 <= i < url_encoded(s).len() implies {
            let c = #[trigger] url_encoded(s)[i];
            is_unreserved(c) || c == '%'
        } by {
            if i < url_encoded(front).len() {
                assert(url_encoded(s)[i] == url_encoded(front)[i]);
            } else {
                assert(url_encoded(s)[i] == encode_char(s.last())[i - url_encoded(front).len()]);
            }
        }
    }
}

/// One encoded ASCII character holds no `+` and decodes to that character.
proof fn lemma_encoded_char_decodes(c: char)
    requires
        c <= '\u{7f}',
    ensures
        plus_as_space(encode_char(c)) == encode_char(c),
        unescaped(encode_char(c)) == Some(seq![c]),
{
    let e = encode_char(c);
    reveal_with_fuel(unescaped, 2);
    if is_unreserved(c) {
        assert(e.skip(1) == Seq::<char>::empty());
        assert(seq![c] + Seq::<char>::empty() == seq![c]);
    } else {
        let b = c as int;
        assert(hex_value(hex_digit(b / 16)) == Some(b / 16));
        assert(hex_value(hex_digit(b % 16)) == Some(b % 16));
        assert(e.skip(3) == Seq::<char>::empty());
        assert((16 * (b / 16) + b % 16) as char == c);
        assert(seq![c] + Seq::<char>::empty() == seq![c]);
    }
}

/// Where the first part decodes, the parts decode one after the other.
proof fn lemma_unescaped_concat(a: Seq<char>, b: Seq<char>)
    requires
        unescaped(a) is Some,
    ensures
        unescaped(a + b) == prepend(unescaped(a)->0, unescaped(b)),
    decreases a.len(),
{
    let tail = unescaped(b);
    if a.len() == 0 {
        assert(a + b == b);
        assert(tail is Some ==> Seq::<char>::empty() + tail->0 == tail->0);
    } else {
        let k: int = if a[0] != '%' { 1 } else { 3 };
        let head = if a[0] != '%' {
            seq![a[0]]
        } else {
            seq![(16 * hex_value(a[1])->0 + hex_value(a[2])->0) as char]
        };
        lemma_unescaped_concat(a.skip(k), b);
        assert((a + b).skip(k) == a.skip(k) + b);
        assert(tail is Some ==> head + (unescaped(a.skip(k))->0 + tail->0) == (head + unescaped(
            a.skip(k),
        )->0) + tail->0);
    }
}

/// The named entity for each of `& < > " '`; any other character as it is.
pub open spec fn html_entity(c: char) -> Seq<char> {
    if c == '&' {
        "&amp;"@
    } else if c == '<' {
        "&lt;"@
    } else if c == '>' {
        "&gt;"@
    } else if c == '"' {
        "&quot;"@
    } else if c == '\'' {
        "&apos;"@
    } else {
        seq![c]
    }
}

/// `s` with each of `& < > " '` replaced by its named entity.
pub open spec fn html_escaped(s: Seq<char>) -> Seq<char> {
    s.flat_map(|c: char| html_entity(c))
}

/// Escapes `input` for use as HTML text: `& < > " '` become `&amp;` `&lt;`
/// `&gt;` `&quot;` `&apos;`.
pub fn html_encode(input: String) -> (r: String)
    ensures
        r@ == html_escaped(input@),
{
    let mut res = String::new();
    for c in it: input.as_str().chars()
        invariant
            it.seq() == input@,
            res@ == html_escaped(input@.take(it.index())),
    {
        proof {
            input@.lemma_flat_map_take_append(|c: char| html_entity(c), it.index());
        }
        if c == '&' {
            res.append("&amp;");
        } else if c == '<' {
            res.append("&lt;");
        } else if c == '>' {
            res.append("&gt;");
        } else if c == '"' {
            res.append("&quot;");
        } else if c == '\'' {
            res.append("&apos;");
        } else {
            res.push(c);
        }
    }
    assert(input@.take(input@.len() as int) == input@);
    res
}

/// An escaped text holds none of `< > " '`.
pub proof fn lemma_html_escaped_has_no_markup(s: Seq<char>)
    ensures
        forall|i: int|
            0 <= i < html_escaped(s).len() ==> {
                let c = #[trigger] html_escaped(s)[i];
                c != '<' && c != '>' && c != '"' && c != '\''
            },
    decreases s.len(),
{
    if s.len() == 0 {
        assert(s.map_values(|c: char| html_entity(c)) == Seq::<Seq<char>>::empty());
    } else {
        let front = s.drop_last();
        lemma_html_escaped_has_no_markup(front);
        front.lemma_flat_map_push(|c: char| html_entity(c), s.last());
        assert(front.push(s.last()) == s);
        reveal_strlit("&amp;");
        reveal_strlit("&lt;");
        reveal_strlit("&gt;");
        reveal_strlit("&quot;");
        reveal_strlit("&apos;");
        assert forall|i: int| 0 <= i < html_escaped(s).len() implies {
            let c = #[trigger] html_escaped(s)[i];
            c != '<' && c != '>' && c != '"' && c != '\''
        } by {
            if i < html_escaped(front).len() {
                assert(html_escaped(s)[i] == html_escaped(front)[i]);
            } else {
                assert(html_escaped(s)[i] == html_entity(s.last())[i - html_escaped(front).len()]);
            }
        }
    }
}

/// What a character becomes where every `from` is replaced by `to`.
pub open spec fn replacing(from: char, to: Seq<char>) -> spec_fn(char) -> Seq<char> {
    |c: char| if c == from { to } else { seq![c] }
}

/// `s` with every `from` replaced by `to`.
pub open spec fn replaced(s: Seq<char>, from: char, to: Seq<char>) -> Seq<char> {
    s.flat_map(replacing(from, to))
}

/// `s` with `&`, then `<`, then `>`, then `"`, then `'` replaced by its
/// entity, one character after the other over the whole text.
pub open spec fn replaced_in_order(s: Seq<char>) -> Seq<char> {
    replaced(
        replaced(
            replaced(replaced(replaced(s, '&', "&amp;"@), '<', "&lt;"@), '>', "&gt;"@),
            '"',
            "&quot;"@,
        ),
        '\'',
        "&apos;"@,
    )
}

/// Escaping is the same as replacing the five characters one after the
/// other, `&` first: no entity is escaped again.
pub proof fn lemma_html_escaped_in_order(s: Seq<char>)
    ensures
        html_escaped(s) == replaced_in_order(s),
    decreases s.len(),
{
    if s.len() == 0 {
        assert(s.map_values(|c: char| html_entity(c)) == Seq::<Seq<char>>::empty());
        lemma_replaced_absent(s, '&', "&amp;"@);
        lemma_replaced_absent(s, '<', "&lt;"@);
        lemma_replaced_absent(s, '>', "&gt;"@);
        lemma_replaced_absent(s, '"', "&quot;"@);
        lemma_replaced_absent(s, '\'', "&apos;"@);
    } else {
        let front = s.drop_last();
        let one = seq![s.last()];
        assert(front + one == s);
        lemma_html_escaped_in_order(front);
        front.lemma_flat_map_push(|c: char| html_entity(c), s.last());
        assert(front.push(s.last()) == s);
        lemma_entity_in_order(s.last());
        let a1 = replaced(front, '&', "&amp;"@);
        let b1 = replaced(one, '&', "&amp;"@);
        lemma_replaced_concat(front, one, '&', "&amp;"@);
        let a2 = replaced(a1, '<', "&lt;"@);
        let b2 = replaced(b1, '<', "&lt;"@);
        lemma_replaced_concat(a1, b1, '<', "&lt;"@);
        let a3 = replaced(a2, '>', "&gt;"@);
        let b3 = replaced(b2, '>', "&gt;"@);
        lemma_replaced_concat(a2, b2, '>', "&gt;"@);
        let a4 = replaced(a3, '"', "&quot;"@);
        let b4 = replaced(b3, '"', "&quot;"@);
        lemma_replaced_concat(a3, b3, '"', "&quot;"@);
        lemma_replaced_concat(a4, b4, '\'', "&apos;"@);
    }
}

/// Replacing goes through a text part by part.
proof fn lemma_replaced_concat(a: Seq<char>, b: Seq<char>, from: char, to: Seq<char>)
    ensures
        replaced(a + b, from, to) == replaced(a, from, to) + replaced(b, from, to),
{
    let f = replacing(from, to);
    assert((a + b).map_values(f) == a.map_values(f) + b.map_values(f));
    vstd::seq_lib::lemma_flatten_concat(a.map_values(f), b.map_values(f));
}

/// Replacing a character that a text does not hold changes nothing.
proof fn lemma_replaced_absent(s: Seq<char>, from: char, to: Seq<char>)
    requires
        forall|i: int| 0 <= i < s.len() ==> s[i] != from,
    ensures
        replaced(s, from, to) == s,
    decreases s.len(),
{
    let f = replacing(from, to);
    if s.len() == 0 {
        assert(s.map_values(f) == Seq::<Seq<char>>::empty());
    } else {
        lemma_replaced_absent(s.drop_last(), from, to);
        s.drop_last().lemma_flat_map_push(f, s.last());
        assert(s.drop_last().push(s.last()) == s);
    }
}

/// Replacing in a text of one character replaces that character or
/// nothing.
proof fn lemma_replaced_one(c: char, from: char, to: Seq<char>)
    ensures
        replaced(seq![c], from, to) == if c == from {
            to
        } else {
            seq![c]
        },
{
    let f = replacing(from, to);
    seq![c].lemma_flat_map_singleton(f);
}

/// The five replacements, applied in order to one character alone, give
/// its entity.
proof fn lemma_entity_in_order(c: char)
    ensures
        replaced_in_order(seq![c]) == html_entity(c),
{
    reveal_strlit("&amp;");
    reveal_strlit("&lt;");
    reveal_strlit("&gt;");
    reveal_strlit("&quot;");
    reveal_strlit("&apos;");
    let r1 = replaced(seq![c], '&', "&amp;"@);
    lemma_replaced_one(c, '&', "&amp;"@);
    let r2 = replaced(r1, '<', "&lt;"@);
    if c == '<' {
        lemma_replaced_one(c, '<', "&lt;"@);
    } else {
        lemma_replaced_absent(r1, '<', "&lt;"@);
    }
    let r3 = replaced(r2, '>', "&gt;"@);
    if c == '>' {
        lemma_replaced_one(c, '>', "&gt;"@);
    } else {
        lemma_replaced_absent(r2, '>', "&gt;"@);
    }
    let r4 = replaced(r3, '"', "&quot;"@);
    if c == '"' {
        lemma_replaced_one(c, '"', "&quot;"@);
    } else {
        lemma_replaced_absent(r3, '"', "&quot;"@);
    }
    if c == '\'' {
        lemma_replaced_one(c, '\'', "&apos;"@);
    } else {
        lemma_replaced_absent(r4, '\'', "&apos;"@);
    }
}

} // verus!
