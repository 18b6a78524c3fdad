use mini_http::text::{
    chars_of, decimal_string, find_bytes, find_chars, is_space_char, parse_decimal, push_numeral,
    split_chars, split_words, trim_chars,
};

fn cs(s: &str) -> Vec<char> {
    s.chars().collect()
}

fn strings(v: Vec<Vec<char>>) -> Vec<String> {
    v.into_iter().map(|l| l.into_iter().collect()).collect()
}

#[test]
fn white_space_is_the_unicode_property() {
    for c in [' ', '\t', '\n', '\u{0B}', '\u{0C}', '\r', '\u{85}', '\u{A0}', '\u{1680}'] {
        assert!(is_space_char(c));
    }
    for c in ['\u{2000}', '\u{200A}', '\u{2028}', '\u{2029}', '\u{202F}', '\u{205F}', '\u{3000}'] {
        assert!(is_space_char(c));
    }
    for c in ['a', '0', ':', '\u{08}', '\u{0E}', '\u{1C}', '\u{200B}', '\u{FEFF}'] {
        assert!(!is_space_char(c));
    }
}

#[test]
fn white_space_agrees_with_std_on_every_char() {
    let mut n: u32 = 0;
    while n <= 0x10FFFF {
        if let Some(c) = char::from_u32(n) {
            assert_eq!(is_space_char(c), c.is_whitespace());
        }
        n += 1;
    }
}

#[test]
fn find_bytes_gives_the_leftmost_occurrence() {
    assert_eq!(find_bytes(b"ab\r\n\r\ncd\r\n\r\n", b"\r\n\r\n"), Some(2));
    assert_eq!(find_bytes(b"\r\n\r\n", b"\r\n\r\n"), Some(0));
    assert_eq!(find_bytes(b"ab\r\n\rcd", b"\r\n\r\n"), None);
    assert_eq!(find_bytes(b"\r\n\r", b"\r\n\r\n"), None);
    assert_eq!(find_bytes(b"", b"\r\n\r\n"), None);
    assert_eq!(find_bytes(b"\r\r\n\r\n", b"\r\n\r\n"), Some(1));
}

#[test]
fn find_of_an_empty_pattern_is_the_start() {
    assert_eq!(find_bytes(b"abc", b""), Some(0));
    assert_eq!(find_bytes(b"", b""), Some(0));
    assert_eq!(find_chars(&cs("abc"), &[]), Some(0));
}

#[test]
fn find_chars_gives_the_leftmost_occurrence() {
    assert_eq!(find_chars(&cs("Host: a:b"), &[':']), Some(4));
    assert_eq!(find_chars(&cs("no separator"), &[':']), None);
    assert_eq!(find_chars(&cs("é\r\nx"), &['\r', '\n']), Some(1));
}

#[test]
fn split_chars_gives_every_piece() {
    let got = strings(split_chars(&cs("a\r\nb\r\n\r\nc"), &['\r', '\n']));
    assert_eq!(got, vec!["a", "b", "", "c"]);
    let got = strings(split_chars(&cs("one line"), &['\r', '\n']));
    assert_eq!(got, vec!["one line"]);
    let got = strings(split_chars(&cs(""), &['\r', '\n']));
    assert_eq!(got, vec![""]);
    let got = strings(split_chars(&cs("a\r\n"), &['\r', '\n']));
    assert_eq!(got, vec!["a", ""]);
    let got = strings(split_chars(&cs("a\r\r\n\nb"), &['\r', '\n']));
    assert_eq!(got, vec!["a\r", "\nb"]);
}

#[test]
fn split_chars_agrees_with_std() {
    for s in ["", "\r\n", "a\r\nb", "\r\n\r\n", "x\ry\nz", "GET / HTTP/1.1\r\nHost: x\r\nA: b"] {
        let want: Vec<String> = s.split("\r\n").map(String::from).collect();
        assert_eq!(strings(split_chars(&cs(s), &['\r', '\n'])), want);
    }
}

#[test]
fn split_words_gives_the_words() {
    assert_eq!(strings(split_words(&cs("GET /home HTTP/1.1"))), vec!["GET", "/home", "HTTP/1.1"]);
    assert_eq!(strings(split_words(&cs("  GET \t /  x  "))), vec!["GET", "/", "x"]);
    assert_eq!(strings(split_words(&cs(""))), Vec::<String>::new());
    assert_eq!(strings(split_words(&cs(" \u{3000}\u{A0} "))), Vec::<String>::new());
    assert_eq!(strings(split_words(&cs("a\u{2003}b"))), vec!["a", "b"]);
}

#[test]
fn split_words_agrees_with_std() {
    for s in ["", " ", "a", " a", "a ", "a  b", "\ta\nb\rc ", "GET / HTTP/1.1", "é\u{85}ü"] {
        let want: Vec<String> = s.split_whitespace().map(String::from).collect();
        assert_eq!(strings(split_words(&cs(s))), want);
    }
}

#[test]
fn trim_chars_removes_both_ends_only() {
    let t: String = trim_chars(&cs("  a b \t")).into_iter().collect();
    assert_eq!(t, "a b");
    let t: String = trim_chars(&cs("\u{3000}x\u{A0}")).into_iter().collect();
    assert_eq!(t, "x");
    let t: String = trim_chars(&cs("   ")).into_iter().collect();
    assert_eq!(t, "");
    let t: String = trim_chars(&cs("")).into_iter().collect();
    assert_eq!(t, "");
    let t: String = trim_chars(&cs("x")).into_iter().collect();
    assert_eq!(t, "x");
}

#[test]
fn trim_chars_agrees_with_std() {
    for s in ["", " ", "a", " a", "a ", " a b ", "\r\nx\r\n", "\u{2028}y\u{205F}", " \u{200B} "] {
        let got: String = trim_chars(&cs(s)).into_iter().collect();
        assert_eq!(got, s.trim());
    }
}

#[test]
fn parse_decimal_reads_numerals() {
    assert_eq!(parse_decimal(&cs("0")), Some(0));
    assert_eq!(parse_decimal(&cs("42")), Some(42));
    assert_eq!(parse_decimal(&cs("+7")), Some(7));
    assert_eq!(parse_decimal(&cs("00012")), Some(12));
    assert_eq!(parse_decimal(&cs("8192")), Some(8192));
}

#[test]
fn parse_decimal_rejects_what_is_no_numeral() {
    for s in ["", "+", "-1", "-0", "4 2", " 4", "4 ", "++4", "4+", "0x10", "1e3", "１２", "4.0"] {
        assert_eq!(parse_decimal(&cs(s)), None);
    }
}

#[test]
fn parse_decimal_stops_at_the_machine_word() {
    let max = usize::MAX.to_string();
    assert_eq!(parse_decimal(&cs(&max)), Some(usize::MAX));
    let mut over = max.clone();
    over.push('0');
    assert_eq!(parse_decimal(&cs(&over)), None);
    let next = (usize::MAX as u128 + 1).to_string();
    assert_eq!(parse_decimal(&cs(&next)), None);
    let mut padded = String::from("000000000000000000000000");
    padded.push_str(&max);
    assert_eq!(parse_decimal(&cs(&padded)), Some(usize::MAX));
}

#[test]
fn parse_decimal_agrees_with_std() {
    for s in ["", "+", "-", "0", "+0", "-0", "12", "+12", "-12", "1 2", "99999999999999999999999"] {
        assert_eq!(parse_decimal(&cs(s)), s.parse::<usize>().ok());
    }
}

#[test]
fn decimal_string_writes_the_shortest_numeral() {
    assert_eq!(decimal_string(0), "0");
    assert_eq!(decimal_string(7), "7");
    assert_eq!(decimal_string(10), "10");
    assert_eq!(decimal_string(38), "38");
    assert_eq!(decimal_string(1000), "1000");
    assert_eq!(decimal_string(usize::MAX), usize::MAX.to_string());
}

#[test]
fn push_numeral_appends() {
    let mut out = vec!['n', '='];
    push_numeral(405, &mut out);
    assert_eq!(out, vec!['n', '=', '4', '0', '5']);
}

#[test]
fn a_numeral_reads_back_as_its_number() {
    for n in [0usize, 1, 9, 10, 11, 99, 100, 12345, usize::MAX - 1, usize::MAX] {
        assert_eq!(parse_decimal(&cs(&decimal_string(n))), Some(n));
    }
}

#[test]
fn chars_of_gives_the_characters() {
    assert_eq!(chars_of("héllo"), vec!['h', 'é', 'l', 'l', 'o']);
    assert_eq!(chars_of(""), Vec::<char>::new());
    assert_eq!(chars_of("日本\r\n"), vec!['日', '本', '\r', '\n']);
}
