use pg_turbovec::text::{
    chars_of, find_first, find_last, parse_i32, parse_i64, parse_unsigned, push_decimal, push_text,
    same_text, split_at_each, string_of, trim,
};

fn c(s: &str) -> Vec<char> {
    chars_of(s)
}

fn t(v: &[char]) -> String {
    string_of(v)
}

#[test]
fn characters_make_the_text_again() {
    assert_eq!(c("a\u{e9}\u{10FFFF}"), vec!['a', '\u{e9}', '\u{10FFFF}']);
    assert_eq!(t(&c("grün \u{1F600}")), "grün \u{1F600}");
}

#[test]
fn text_is_trimmed_as_the_standard_library_does() {
    for s in ["", " ", "\t a b \n", "x", "\u{a0}x\u{2003}\u{3000}", "\u{200b}x", "\u{1680}\u{85}"] {
        assert_eq!(t(trim(&c(s))), s.trim());
    }
}

#[test]
fn text_is_split_as_the_standard_library_does() {
    for s in ["", ",", "a", "a,b", ",a,,b,"] {
        let got: Vec<String> = split_at_each(&c(s), ',').iter().map(|p| t(p)).collect();
        let want: Vec<String> = s.split(',').map(|p| p.to_string()).collect();
        assert_eq!(got, want);
    }
}

#[test]
fn characters_are_found() {
    assert_eq!(find_first(&c("a:b:c"), ':'), Some(1));
    assert_eq!(find_last(&c("a:b:c"), ':'), Some(3));
    assert_eq!(find_first(&c("abc"), ':'), None);
    assert_eq!(find_last(&c(""), ':'), None);
}

#[test]
fn numbers_are_read_as_the_standard_library_does() {
    for s in [
        "", "+", "-", "0", "-0", "+7", "--7", "007", "2147483647", "2147483648", "-2147483648",
        "-2147483649", "9223372036854775807", "9223372036854775808", "-9223372036854775808",
        "-9223372036854775809", "1_0", "1 ", "99999999999999999999999999999999999999999999",
    ] {
        assert_eq!(parse_i32(&c(s)), s.parse::<i32>().ok());
        assert_eq!(parse_i64(&c(s)), s.parse::<i64>().ok());
        assert_eq!(parse_unsigned(&c(s), u64::from(u16::MAX)), s.parse::<u16>().ok().map(u64::from));
        assert_eq!(parse_unsigned(&c(s), u64::MAX), if s.starts_with('-') { None } else { s.parse::<u64>().ok() });
    }
}

#[test]
fn numbers_are_written() {
    for n in [0, 9, 10, 12345, u64::MAX] {
        let mut out = c("n=");
        push_decimal(&mut out, n);
        assert_eq!(t(&out), format!("n={}", n));
    }
}

#[test]
fn texts_are_compared_and_appended() {
    assert!(same_text(&c("ip"), "ip"));
    assert!(!same_text(&c("ip"), "ipx"));
    assert!(!same_text(&c("ip"), "iq"));
    let mut out = c("a");
    push_text(&mut out, "bc");
    assert_eq!(t(&out), "abc");
}
