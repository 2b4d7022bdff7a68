use scan::parse_u32;

#[test]
fn parse_u32_basics() {
    assert!(parse_u32(&['4', '2']) == Some(42));
    assert!(parse_u32(&['0']) == Some(0));
    assert!(parse_u32(&['+', '7']) == Some(7));
    assert!(parse_u32(&['0', '4', '2']) == Some(42));
}

#[test]
fn parse_u32_rejects() {
    assert!(parse_u32(&[]) == None);
    assert!(parse_u32(&['+']) == None);
    assert!(parse_u32(&['-', '1']) == None);
    assert!(parse_u32(&[' ', '4']) == None);
    assert!(parse_u32(&['+', '+', '4']) == None);
    assert!(parse_u32(&['4', '2', 'x']) == None);
}

#[test]
fn parse_u32_bounds() {
    let max: Vec<char> = "4294967295".chars().collect();
    assert!(parse_u32(&max) == Some(u32::MAX));
    let over: Vec<char> = "4294967296".chars().collect();
    assert!(parse_u32(&over) == None);
    let way_over: Vec<char> = "99999999999999999999".chars().collect();
    assert!(parse_u32(&way_over) == None);
}
