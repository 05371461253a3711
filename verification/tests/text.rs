use wecraw::text::{chars_of, contains_char, decimal_string, latin1_string, split_terms, str_equals};

fn strings(v: &[&str]) -> Vec<String> {
    v.iter().map(|s| s.to_string()).collect()
}

#[test]
fn split_on_spaces() {
    assert_eq!(split_terms("hello world"), strings(&["hello", "world"]));
}

#[test]
fn split_keeps_empty_pieces() {
    assert_eq!(split_terms("a,,b"), strings(&["a", "", "b"]));
    assert_eq!(split_terms("end."), strings(&["end", ""]));
    assert_eq!(split_terms(""), strings(&[""]));
}

#[test]
fn split_on_every_symbol() {
    let text = "a b,c.d_e-f/g{h}i\"j'k;l:m\nn\\o";
    let pieces = split_terms(text);
    assert_eq!(pieces.len(), 15);
    assert_eq!(pieces, strings(&["a", "b", "c", "d", "e", "f", "g", "h", "i", "j", "k", "l", "m", "n", "o"]));
}

#[test]
fn split_matches_std_split() {
    let symbols = [' ', ',', '.', '_', '-', '/', '{', '}', '"', '\'', ';', ':', '\n', '\\'];
    for text in ["", "x", "  ", "the quick-brown fox.", "ünï/cödé  text", "a\\b\nc"] {
        let expected: Vec<String> = text.split(symbols).map(|s| s.to_string()).collect();
        assert_eq!(split_terms(text), expected);
    }
}

#[test]
fn split_keeps_other_characters() {
    assert_eq!(split_terms("why?not!"), strings(&["why?not!"]));
}

#[test]
fn chars_of_unicode() {
    assert_eq!(chars_of("aé😀"), vec!['a', 'é', '😀']);
}

#[test]
fn contains_question_mark() {
    assert!(contains_char("http://x.org/?q=1", '?'));
    assert!(!contains_char("http://x.org/", '?'));
    assert!(!contains_char("", '?'));
}

#[test]
fn equality_checks() {
    assert!(str_equals("/index.js", "/index.js"));
    assert!(!str_equals("/index.js", "/index.j"));
    assert!(!str_equals("a", "b"));
    assert!(str_equals("", ""));
}

#[test]
fn decimal_numbers() {
    assert_eq!(decimal_string(0), "0");
    assert_eq!(decimal_string(7), "7");
    assert_eq!(decimal_string(10), "10");
    assert_eq!(decimal_string(90210), "90210");
    assert_eq!(decimal_string(u64::MAX), u64::MAX.to_string());
}

#[test]
fn bytes_read_as_latin1() {
    assert_eq!(latin1_string(b"rust web"), "rust web");
    assert_eq!(latin1_string(&[0x68, 0xe9]), "h\u{e9}");
    assert_eq!(latin1_string(&[]), "");
}
