use scan::{scan_str, Pattern, Scanner};

#[test]
fn round_trip_exhausts() {
    let mut ss = scan_str("Hello, world!");
    let hello: String = ss.scan_to(&Pattern::lit(",")).unwrap();
    assert!(hello == "Hello");
    assert!(ss.next().unwrap() == ' ');
    let world: String = ss.scan().unwrap();
    assert!(world == "world!");
    assert!(!ss.has_next());
}

#[test]
fn trailing_newline_transparent() {
    for input in ["Hello: 42!", "Hello: 42!\n"] {
        let mut ss = scan_str(input);
        let hello: String = ss.scan_to(&Pattern::lit(":")).unwrap();
        assert!(hello == "Hello");
        assert!(ss.next().unwrap() == ' ');
        let n: u32 = ss.scan_to(&Pattern::lit("!")).unwrap();
        assert!(n == 42);
        assert!(ss.next().is_err());
        assert!(!ss.has_next());
    }
}

#[test]
fn next_past_end_fails_empty() {
    let mut ss = scan_str("ab");
    assert!(ss.next().unwrap() == 'a');
    assert!(ss.next().unwrap() == 'b');
    assert!(ss.next().unwrap_err() == "");
    assert!(ss.next().unwrap_err() == "");
    assert!(!ss.has_next());
    assert!(!ss.has_next());
}

#[test]
fn next_crosses_lines() {
    let mut ss = scan_str("ab\ncd");
    assert!(ss.next().unwrap() == 'a');
    assert!(ss.next().unwrap() == 'b');
    assert!(ss.next().unwrap() == 'c');
    assert!(ss.next().unwrap() == 'd');
    assert!(ss.next().is_err());
}

#[test]
fn expect_failure_no_consume() {
    let mut ss = scan_str("Hello, world!");
    assert!(ss.expect(&Pattern::lit("xyz")).unwrap_err() == "Hello, world!");
    assert!(ss.expect(&Pattern::lit("Hello")).unwrap() == 5);
}

#[test]
fn expect_needs_match_at_start() {
    let mut ss = scan_str("Hello, world!");
    // "world" occurs later in the line, but not at the cursor
    assert!(ss.expect(&Pattern::lit("world")).unwrap_err() == "Hello, world!");
}

#[test]
fn delimiter_not_found_no_consume() {
    let mut ss = scan_str("abc");
    assert!(ss.scan_to::<String>(&Pattern::ch('x')).unwrap_err() == "abc");
    let mut buf: Vec<char> = "  ".chars().collect();
    assert!(ss.scan_str_to(&mut buf, &Pattern::ch('x')).unwrap_err() == "abc");
    assert!(buf == "  ".chars().collect::<Vec<char>>());
    let all: String = ss.scan().unwrap();
    assert!(all == "abc");
}

#[test]
fn delimiter_consumed_not_rematched() {
    let mut ss = scan_str("a::b");
    let a: String = ss.scan_to(&Pattern::ch(':')).unwrap();
    assert!(a == "a");
    // the first ':' is consumed: the next search can only find the second
    let empty: String = ss.scan_to(&Pattern::ch(':')).unwrap();
    assert!(empty == "");
    let b: String = ss.scan().unwrap();
    assert!(b == "b");
}

#[test]
fn parse_failure_payload() {
    let mut ss = scan_str("12x");
    assert!(ss.scan::<u32>().unwrap_err() == "12x");
    // the line is discarded on failure too, and no line follows
    assert!(!ss.has_next());
}

#[test]
fn parse_failure_after_delimiter_consumes() {
    let mut ss = scan_str("ab:cd");
    assert!(ss.scan_to::<u32>(&Pattern::ch(':')).unwrap_err() == "ab");
    // the delimiter was consumed even though the parse failed
    let rest: String = ss.scan().unwrap();
    assert!(rest == "cd");
}

#[test]
fn skips_empty_lines() {
    let mut ss = scan_str("\n\n\nfirst\n\nsecond\n");
    let a: String = ss.scan().unwrap();
    assert!(a == "first");
    let b: String = ss.scan().unwrap();
    assert!(b == "second");
    assert!(!ss.has_next());
}

#[test]
fn scan_discards_line() {
    let mut ss = scan_str("one two\nthree");
    let a: String = ss.scan().unwrap();
    assert!(a == "one two");
    let b: String = ss.scan().unwrap();
    assert!(b == "three");
    assert!(!ss.has_next());
}

#[test]
fn has_next_idempotent() {
    let mut ss = scan_str("\n\nx");
    assert!(ss.has_next());
    assert!(ss.has_next());
    assert!(ss.next().unwrap() == 'x');
    assert!(!ss.has_next());
    assert!(!ss.has_next());
}

#[test]
fn buffered_line_has_unread() {
    // whenever a line is reported buffered, a character read succeeds
    let mut ss = scan_str("ab\n\ncd\n");
    let mut count = 0;
    while ss.has_next() {
        assert!(ss.next().is_ok());
        count += 1;
    }
    assert!(count == 4);
    assert!(ss.next().is_err());
}

#[test]
fn carriage_return_kept() {
    let mut ss = scan_str("ab\r\ncd");
    let a: String = ss.scan().unwrap();
    assert!(a == "ab\r");
    let b: String = ss.scan().unwrap();
    assert!(b == "cd");
}

#[test]
fn scan_str_returns_capacity() {
    let mut ss = scan_str("abc");
    let mut buf: Vec<char> = "     ".chars().collect();
    // the returned value is the destination's total length, not the copied count
    assert!(ss.scan_str(&mut buf).unwrap() == 5);
    assert!(buf == "abc  ".chars().collect::<Vec<char>>());
    assert!(!ss.has_next());
}

#[test]
fn scan_str_zero_capacity() {
    let mut ss = scan_str("abc");
    let mut buf: Vec<char> = Vec::new();
    assert!(ss.scan_str(&mut buf).unwrap() == 0);
    let rest: String = ss.scan().unwrap();
    assert!(rest == "abc");
}

#[test]
fn end_of_input_errors_empty() {
    let mut ss = scan_str("");
    assert!(!ss.has_next());
    assert!(ss.expect(&Pattern::ch('a')).unwrap_err() == "");
    assert!(ss.scan::<String>().unwrap_err() == "");
    assert!(ss.scan_to::<u32>(&Pattern::ch(':')).unwrap_err() == "");
    let mut buf: Vec<char> = vec![' '];
    assert!(ss.scan_str(&mut buf).unwrap_err() == "");
    assert!(ss.scan_str_to(&mut buf, &Pattern::ch(':')).unwrap_err() == "");
    assert!(buf == vec![' ']);
}

#[test]
fn multibyte_chars() {
    let mut ss = scan_str("h\u{e9}llo: w\u{f6}rld");
    let h: String = ss.scan_to(&Pattern::ch(':')).unwrap();
    assert!(h == "h\u{e9}llo");
    assert!(ss.next().unwrap() == ' ');
    let w: String = ss.scan().unwrap();
    assert!(w == "w\u{f6}rld");
}
