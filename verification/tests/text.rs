use static_http::text::{
    find, from_chars, is_text, join_chars, same_text, split_chars, to_chars, trim,
};

fn chars(text: &str) -> Vec<char> {
    text.chars().collect()
}

fn strings(parts: &[Vec<char>]) -> Vec<String> {
    parts.iter().map(|part| part.iter().collect()).collect()
}

#[test]
fn chars_round_trip() {
    assert_eq!(to_chars("a\u{e9}\u{1F4C1}"), vec!['a', '\u{e9}', '\u{1F4C1}']);
    assert_eq!(to_chars(""), Vec::<char>::new());
    assert_eq!(from_chars(&vec!['o', 'k']), "ok");
    assert_eq!(from_chars(&to_chars("caf\u{e9} \u{1F4C4}")), "caf\u{e9} \u{1F4C4}");
}

#[test]
fn split_like_std() {
    let samples = ["", "/", "a", "a/b", "/a/b/", "//", "a//b", "a/b/c", "/a"];
    for sample in samples {
        let expected: Vec<String> = sample.split('/').map(str::to_owned).collect();
        assert_eq!(strings(&split_chars(&chars(sample), '/')), expected);
    }
}

#[test]
fn split_exact_pieces() {
    assert_eq!(
        strings(&split_chars(&chars("GET / HTTP/1.1"), ' ')),
        vec!["GET", "/", "HTTP/1.1"]
    );
    assert_eq!(strings(&split_chars(&chars(""), ' ')), vec![""]);
    assert_eq!(strings(&split_chars(&chars(" "), ' ')), vec!["", ""]);
    assert_eq!(strings(&split_chars(&chars("a  b"), ' ')), vec!["a", "", "b"]);
}

#[test]
fn join_exact_text() {
    assert_eq!(join_chars(&vec![], '/'), chars(""));
    assert_eq!(join_chars(&vec![chars("a")], '/'), chars("a"));
    assert_eq!(join_chars(&vec![chars("a"), chars("b")], '/'), chars("a/b"));
    assert_eq!(
        join_chars(&vec![chars(""), chars("x"), chars("")], '/'),
        chars("/x/")
    );
}

#[test]
fn join_inverts_split() {
    let samples = ["", ":", "a:b", "::a::", "no separator", "a:b:c:"];
    for sample in samples {
        let text = chars(sample);
        assert_eq!(join_chars(&split_chars(&text, ':'), ':'), text);
    }
}

#[test]
fn split_inverts_join() {
    let samples: [&[&str]; 5] = [&[""], &["a"], &["a", "b"], &["", "", ""], &["x", "", "yz", ""]];
    for sample in samples {
        let parts: Vec<Vec<char>> = sample.iter().map(|part| chars(part)).collect();
        assert_eq!(split_chars(&join_chars(&parts, '/'), '/'), parts);
    }
}

#[test]
fn find_first_occurrence() {
    assert_eq!(find(&chars("a:b:c"), ':'), Some(1));
    assert_eq!(find(&chars(":"), ':'), Some(0));
    assert_eq!(find(&chars("abc"), ':'), None);
    assert_eq!(find(&chars(""), ':'), None);
    assert_eq!(find(&chars("abc:"), ':'), Some(3));
}

#[test]
fn trim_blanks_only() {
    assert_eq!(trim(&chars("  a b \t")), chars("a b"));
    assert_eq!(trim(&chars("\t\t")), chars(""));
    assert_eq!(trim(&chars("")), chars(""));
    assert_eq!(trim(&chars("x")), chars("x"));
    assert_eq!(trim(&chars(" \r\n ")), chars("\r\n"));
}

#[test]
fn compare_texts() {
    assert!(same_text("", ""));
    assert!(same_text("GET", "GET"));
    assert!(!same_text("GET", "GE"));
    assert!(!same_text("GE", "GET"));
    assert!(!same_text("GET", "get"));
    assert!(same_text("caf\u{e9}", "caf\u{e9}"));
    assert!(is_text(&chars("html"), "html"));
    assert!(!is_text(&chars("html"), "htm"));
    assert!(!is_text(&chars("htm"), "html"));
    assert!(!is_text(&chars("htmx"), "html"));
    assert!(is_text(&chars(""), ""));
}
