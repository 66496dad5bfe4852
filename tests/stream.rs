use rinput::parse::parse_decimal;
use rinput::text::split_line;
use rinput::FromBuf;
use rinput::InputStream;
use rinput::ParseTokenError;

/// Refills `s` from `lines` until it holds a token, as a console reader would.
fn fill(s: &mut InputStream, lines: &mut Vec<&str>) {
    while s.needs_line() {
        let line = lines.remove(0);
        s.refill(line);
    }
}

fn read_i32(s: &mut InputStream, lines: &mut Vec<&str>) -> i32 {
    fill(s, lines);
    s.read()
}

fn read_char(s: &mut InputStream, lines: &mut Vec<&str>) -> char {
    fill(s, lines);
    s.read_char()
}

fn read_str(s: &mut InputStream, lines: &mut Vec<&str>) -> String {
    fill(s, lines);
    s.read_str()
}

#[test]
fn input_test() {
    let mut lines = vec!["-7 q first", "12 rs second"];
    let mut s = InputStream::new();
    let a = read_i32(&mut s, &mut lines);
    let c = read_char(&mut s, &mut lines);
    let t = read_str(&mut s, &mut lines);
    assert_eq!(format!("'{a}' '{c}' '{t}'"), "'-7' 'q' 'first'");

    let a = read_i32(&mut s, &mut lines);
    let c = read_char(&mut s, &mut lines);
    let t = read_str(&mut s, &mut lines);
    assert_eq!(format!("'{a}' '{c}' '{t}'"), "'12' 'r' 's'");
    assert_eq!(read_str(&mut s, &mut lines), "second");
    assert!(s.needs_line());
}

#[test]
fn whole_token_reads_in_order() {
    let mut s = InputStream::new();
    assert!(s.refill("alpha  beta\tgamma delta"));
    assert_eq!(s.read_str(), "alpha");
    assert_eq!(s.read_str(), "beta");
    assert_eq!(s.read_str(), "gamma");
    assert_eq!(s.read_str(), "delta");
    assert!(s.needs_line());
}

#[test]
fn char_read_shortens_front_token() {
    let mut s = InputStream::new();
    s.refill("abc d");
    assert_eq!(s.read_char(), 'a');
    assert_eq!(s.read_str(), "bc");
    assert_eq!(s.read_char(), 'd');
    assert!(s.needs_line());
}

#[test]
fn char_read_of_multibyte_characters() {
    let mut s = InputStream::new();
    s.refill("éß");
    assert_eq!(s.read_char(), 'é');
    assert_eq!(s.read_char(), 'ß');
    assert!(s.needs_line());
}

#[test]
fn typed_read_then_raw() {
    let mut s = InputStream::new();
    s.refill("123 abc");
    let n: i32 = s.read();
    assert_eq!(n, 123);
    assert_eq!(s.read_str(), "abc");
    assert!(s.needs_line());
}

#[test]
fn typed_read_of_bad_token_gives_zero() {
    let mut s = InputStream::new();
    s.refill("abc");
    let n: i32 = s.read();
    assert_eq!(n, 0);
    assert!(s.needs_line());
}

#[test]
fn interleaved_reads_across_lines() {
    let mut lines = vec!["42", "x 7 hello"];
    let mut s = InputStream::new();
    assert_eq!(read_i32(&mut s, &mut lines), 42);
    assert_eq!(read_char(&mut s, &mut lines), 'x');
    assert_eq!(read_i32(&mut s, &mut lines), 7);
    assert_eq!(read_str(&mut s, &mut lines), "hello");
    assert!(s.needs_line());
    assert!(lines.is_empty());
}

#[test]
fn refill_twice_takes_one_line() {
    let mut s = InputStream::new();
    assert!(s.refill("1 2"));
    assert!(!s.refill("3 4"));
    assert_eq!(s.read_str(), "1");
    assert_eq!(s.read_str(), "2");
    assert!(s.needs_line());
}

#[test]
fn blank_line_leaves_buffer_empty() {
    let mut s = InputStream::new();
    assert!(s.refill("   \t  "));
    assert!(s.needs_line());
    assert!(s.refill(""));
    assert!(s.needs_line());
    assert!(s.refill("z"));
    assert_eq!(s.read_char(), 'z');
}

#[test]
fn split_trims_unicode_whitespace_at_ends() {
    let toks = split_line("\u{a0}\u{3000} a\u{a0}b \r\n");
    assert_eq!(toks, vec!["a\u{a0}b".to_string()]);
    let toks = split_line("\u{b}x\u{c}y\u{b}");
    assert_eq!(toks, vec!["x".to_string(), "y".to_string()]);
}

#[test]
fn split_of_empty_line() {
    assert!(split_line("").is_empty());
    assert!(split_line("\n").is_empty());
}

#[test]
fn integer_tokens() {
    assert_eq!(i32::from_token("+15"), Ok(15));
    assert_eq!(i32::from_token("-15"), Ok(-15));
    assert_eq!(u32::from_token("-15"), Err(ParseTokenError));
    assert_eq!(u32::from_token("+"), Err(ParseTokenError));
    assert_eq!(i32::from_token("-"), Err(ParseTokenError));
    assert_eq!(i32::from_token(""), Err(ParseTokenError));
    assert_eq!(i32::from_token("1x"), Err(ParseTokenError));
    assert_eq!(i8::from_token("127"), Ok(127));
    assert_eq!(i8::from_token("128"), Err(ParseTokenError));
    assert_eq!(i8::from_token("-128"), Ok(-128));
    assert_eq!(i8::from_token("-129"), Err(ParseTokenError));
    assert_eq!(u8::from_token("0255"), Ok(255));
    assert_eq!(u8::from_token("256"), Err(ParseTokenError));
    assert_eq!(i16::from_token("-32768"), Ok(i16::MIN));
    assert_eq!(u16::from_token("65535"), Ok(u16::MAX));
    assert_eq!(i64::from_token("-9223372036854775808"), Ok(i64::MIN));
    assert_eq!(i64::from_token("9223372036854775808"), Err(ParseTokenError));
    assert_eq!(u64::from_token("18446744073709551615"), Ok(u64::MAX));
    assert_eq!(u64::from_token("18446744073709551616"), Err(ParseTokenError));
    assert_eq!(usize::from_token("42"), Ok(42));
    assert_eq!(isize::from_token("-42"), Ok(-42));
    assert_eq!(u64::from_token("99999999999999999999999999999"), Err(ParseTokenError));
}

#[test]
fn integer_tokens_agree_with_std() {
    for t in ["0", "-0", "+0", "007", "-2147483648", "2147483647", "2147483648", "+-1", "1 ", "٣"] {
        assert_eq!(i32::from_token(t).ok(), t.parse::<i32>().ok(), "token {t:?}");
        assert_eq!(u32::from_token(t).ok(), t.parse::<u32>().ok(), "token {t:?}");
    }
}

#[test]
fn decimal_within_bounds() {
    let cs: Vec<char> = "-300".chars().collect();
    assert_eq!(parse_decimal(&cs, true, -300, 300), Some(-300));
    assert_eq!(parse_decimal(&cs, true, -299, 300), None);
    assert_eq!(parse_decimal(&cs, false, 0, 300), None);
}

#[test]
fn other_token_types() {
    assert_eq!(bool::from_token("true"), Ok(true));
    assert_eq!(bool::from_token("false"), Ok(false));
    assert_eq!(bool::from_token("True"), Err(ParseTokenError));
    assert_eq!(char::from_token("q"), Ok('q'));
    assert_eq!(char::from_token("qq"), Err(ParseTokenError));
    assert_eq!(String::from_token("word"), Ok("word".to_string()));
}

#[test]
fn typed_reads_fall_back_to_default() {
    let mut s = InputStream::new();
    s.refill("yes ab 300 -1 word");
    let b: bool = s.read();
    let c: char = s.read();
    let n: u8 = s.read();
    let m: u64 = s.read();
    let w: String = s.read();
    assert!(!b);
    assert_eq!(c, '\0');
    assert_eq!(n, 0);
    assert_eq!(m, 0);
    assert_eq!(w, "word");
}

#[test]
fn from_buf_takes_front_token() {
    let mut buf = vec!["123".to_string(), "abc".to_string()];
    assert_eq!(i32::from_buf(&mut buf), Ok(123));
    assert_eq!(buf, vec!["abc".to_string()]);
    assert_eq!(i32::from_buf(&mut buf), Err(ParseTokenError));
    assert!(buf.is_empty());
}
