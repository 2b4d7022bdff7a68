use scan::{scan_str, Pattern, Scanner};

#[test]
fn test_scan() {
    let mut ss = scan_str("Hello, world!");
    let hello: String = ss.scan_to(&Pattern::lit(",")).unwrap();
    assert!(hello == "Hello");
    assert!(ss.next().unwrap() == ' ');
    let world: String = ss.scan().unwrap();
    assert!(world == "world!");
}

#[test]
fn test_scan_to_int() {
    let mut ss = scan_str("Hello: 42!");
    let hello: String = ss.scan_to(&Pattern::lit(":")).unwrap();
    assert!(hello == "Hello");
    assert!(ss.next().unwrap() == ' ');
    let n: u32 = ss.scan_to(&Pattern::lit("!")).unwrap();
    assert!(n == 42);
}

#[test]
fn test_len() {
    let mut ss = scan_str("Hello, world!");
    assert!(ss.expect(&Pattern::lit("Hello")).unwrap() == 5);
    ss.next().unwrap();
    ss.next().unwrap();
}

#[test]
fn test_scan_str() {
    let mut ss = scan_str("Hello, world!");

    assert!(ss.next().unwrap() == 'H');
    assert!(ss.next().unwrap() == 'e');

    let mut s: Vec<char> = "     ".chars().collect();
    ss.scan_str(&mut s).unwrap();
    assert!(s == "llo, ".chars().collect::<Vec<char>>());

    ss.scan_str_to(&mut s, &Pattern::lit("d")).unwrap();
    assert!(s == "worl ".chars().collect::<Vec<char>>());
    assert!(ss.next().is_ok());
    assert!(!ss.has_next());
}

#[test]
fn test_expect() {
    let mut ss = scan_str("Hello, world!");

    ss.expect(&Pattern::lit("Hello")).unwrap();
    ss.expect(&Pattern::ch(',')).unwrap();
    ss.expect(&Pattern::ch(' ')).unwrap();
    assert!(ss.next() == Ok('w'));
}
