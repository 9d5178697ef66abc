use book_splitter::text::contains_substr;
use book_splitter::text::find_char;
use book_splitter::text::parse_i32;
use book_splitter::text::render_i32;
use book_splitter::text::str_eq;
use book_splitter::text::tail_after_last_char;

#[test]
fn str_eq_basic() {
    assert!(str_eq("abc", "abc"));
    assert!(!str_eq("abc", "abd"));
    assert!(!str_eq("abc", "ab"));
    assert!(str_eq("", ""));
}

#[test]
fn contains_substr_basic() {
    assert!(contains_substr("42.txt", ".txt"));
    assert!(contains_substr("x.txt.bak", ".txt"));
    assert!(!contains_substr("42", ".txt"));
    assert!(contains_substr("anything", ""));
    assert!(!contains_substr("txt", ".txt"));
}

#[test]
fn tail_after_last_char_takes_last_segment() {
    assert_eq!(tail_after_last_char("https://cdn/books/100.txt", '/'), "100.txt");
    assert_eq!(tail_after_last_char("100.txt", '/'), "100.txt");
    assert_eq!(tail_after_last_char("path/to/", '/'), "");
}

#[test]
fn find_char_first_occurrence() {
    assert_eq!(find_char("a.b.c", '.'), Some(1));
    assert_eq!(find_char("abc", '.'), None);
}

#[test]
fn parse_i32_accepts_decimals() {
    assert_eq!(parse_i32("0"), Some(0));
    assert_eq!(parse_i32("42"), Some(42));
    assert_eq!(parse_i32("+7"), Some(7));
    assert_eq!(parse_i32("-12"), Some(-12));
    assert_eq!(parse_i32("2147483647"), Some(i32::MAX));
    assert_eq!(parse_i32("-2147483648"), Some(i32::MIN));
}

#[test]
fn parse_i32_rejects_everything_else() {
    assert_eq!(parse_i32(""), None);
    assert_eq!(parse_i32("-"), None);
    assert_eq!(parse_i32("+"), None);
    assert_eq!(parse_i32("12a"), None);
    assert_eq!(parse_i32("abc"), None);
    assert_eq!(parse_i32("2147483648"), None);
    assert_eq!(parse_i32("-2147483649"), None);
    assert_eq!(parse_i32(" 5"), None);
}

#[test]
fn render_i32_writes_decimal() {
    assert_eq!(render_i32(0), "0");
    assert_eq!(render_i32(7), "7");
    assert_eq!(render_i32(120), "120");
    assert_eq!(render_i32(-12), "-12");
    assert_eq!(render_i32(i32::MAX), "2147483647");
    assert_eq!(render_i32(i32::MIN), "-2147483648");
}

#[test]
fn render_then_parse_round_trips() {
    for n in [0, 1, -1, 99, -100, 123456789, i32::MAX, i32::MIN] {
        assert_eq!(parse_i32(render_i32(n).as_str()), Some(n));
    }
}
