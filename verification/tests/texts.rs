use param_serv::text::{
    eq_ignore_case, find, is_whitespace, join, lines, read_pairs, replace, split, split_at_char,
    split_once, string_of, strip_prefix, trim, trim_line_end, write_pairs,
};

fn chars(s: &str) -> Vec<char> {
    s.chars().collect()
}

fn strings(parts: &[&[char]]) -> Vec<String> {
    parts.iter().map(|p| string_of(p)).collect()
}

fn owned(pairs: &[(&str, &str)]) -> Vec<(String, String)> {
    pairs.iter().map(|(a, b)| (a.to_string(), b.to_string())).collect()
}

#[test]
fn white_space_is_what_unicode_says() {
    for n in 0..0x110000u32 {
        if let Some(c) = char::from_u32(n) {
            assert_eq!(is_whitespace(c), c.is_whitespace(), "{:x}", n);
        }
    }
}

#[test]
fn first_occurrence() {
    assert_eq!(find(&chars("abcabc"), &chars("ca")), Some(2));
    assert_eq!(find(&chars("abc"), &chars("abcd")), None);
    assert_eq!(find(&chars("aaab"), &chars("aab")), Some(1));
    assert_eq!(find(&chars(""), &chars("")), Some(0));
    assert_eq!(find(&chars("xyz"), &chars("a")), None);
}

#[test]
fn cutting() {
    for s in ["", ",", "a", "a,b", ",a,,b,", "äö,ü"] {
        let c = chars(s);
        let want: Vec<String> = s.split(',').map(str::to_owned).collect();
        assert_eq!(strings(&split(&c, ',')), want);
    }
    let c = chars("k: v: w");
    let (a, b) = split_once(&c, ": ").unwrap();
    assert_eq!((string_of(a), string_of(b)), ("k".to_string(), "v: w".to_string()));
    assert!(split_once(&c, "; ").is_none());
    let c = chars("a=b=c");
    let (a, b) = split_at_char(&c, '=').unwrap();
    assert_eq!((string_of(a), string_of(b)), ("a".to_string(), "b=c".to_string()));
    assert!(split_at_char(&c, ':').is_none());
    assert_eq!(strip_prefix(&chars("data: x"), "data: ").map(string_of), Some("x".to_string()));
    assert!(strip_prefix(&chars("dat"), "data: ").is_none());
    assert!(strip_prefix(&chars("date: x"), "data: ").is_none());
}

#[test]
fn line_ends() {
    for s in ["", "\n", "a", "a\n", "a\r\nb", "a\r", "a\r\r\n", "\r\n\r\n", "a\n\nb\n", "a\rb\nc"] {
        let c = chars(s);
        let want: Vec<String> = s.lines().map(str::to_owned).collect();
        assert_eq!(strings(&lines(&c)), want, "{:?}", s);
    }
}

#[test]
fn trimming() {
    for s in ["", " ", " a ", "\t a b\u{3000}\n", "a", "\u{a0}x\u{200b}"] {
        assert_eq!(string_of(trim(&chars(s))), s.trim(), "{:?}", s);
    }
    for s in ["", "\r\n", "a\r\n", "a \r\r\n\n", "\ra"] {
        let want = s.trim_end_matches(['\r', '\n']);
        assert_eq!(string_of(trim_line_end(&chars(s))), want, "{:?}", s);
    }
}

#[test]
fn letter_case() {
    assert!(eq_ignore_case(&chars("Content-LENGTH"), "content-length"));
    assert!(!eq_ignore_case(&chars("Content-Lengt"), "content-length"));
    assert!(!eq_ignore_case(&chars("\u{212a}"), "k"));
    assert!(!eq_ignore_case(&chars("@"), "`"));
    assert!(!eq_ignore_case(&chars("["), "{"));
}

#[test]
fn joining_and_replacing() {
    let parts: Vec<String> = vec!["a".to_string(), "".to_string(), "b".to_string()];
    assert_eq!(join(&parts, ','), "a,,b");
    assert_eq!(join(&Vec::new(), ','), "");
    for s in ["", "aaa", "aaaa", "baab", "xay"] {
        assert_eq!(string_of(&replace(&chars(s), "aa", "b")), s.replace("aa", "b"));
    }
}

#[test]
fn pairs_read_back() {
    let pairs = [("a", "1"), ("b", ""), ("", "x"), ("c", "tab\there"), ("d", "in\rside")];
    let text = write_pairs(&pairs);
    assert_eq!(text, "a\t1\nb\t\n\tx\nc\ttab\there\nd\tin\rside\n");
    assert_eq!(read_pairs(&text), owned(&pairs));
    assert_eq!(read_pairs("no tab\na\t1\r\nb\t2"), owned(&[("a", "1"), ("b", "2")]));
    assert_eq!(read_pairs(""), owned(&[]));
    assert_eq!(write_pairs(&[]), "");
    // What does not keep its form as a line is not read back.
    assert_eq!(read_pairs(&write_pairs(&[("a\tb", "1")])), owned(&[("a", "b\t1")]));
    assert_eq!(read_pairs(&write_pairs(&[("a", "1\r")])), owned(&[("a", "1")]));
}
