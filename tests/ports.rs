use portwatch::ports::{parse_ports, ParseError};

#[test]
fn parse_range_ports() {
    let input: String = "27000-27009".to_owned();
    let expected: Vec<u16> = vec![
        27000, 27001, 27002, 27003, 27004, 27005, 27006, 27007, 27008, 27009,
    ];
    assert_eq!(Ok(expected), parse_ports(input));
}

#[test]
fn parse_comma_separated_ports() {
    let input: String = "123,456,789".to_owned();
    let expected: Vec<u16> = vec![123, 456, 789];
    assert_eq!(Ok(expected), parse_ports(input));
}

#[test]
fn parse_mixed_range_comma_separated_ports() {
    let input: String = "1688,10-15".to_owned();
    let expected: Vec<u16> = vec![1688, 10, 11, 12, 13, 14, 15];
    assert_eq!(Ok(expected), parse_ports(input));
}

#[test]
fn parse_single_point_range() {
    assert_eq!(Ok(vec![0u16]), parse_ports("0-0".to_owned()));
}

#[test]
fn parse_keeps_token_order_and_duplicates() {
    assert_eq!(Ok(vec![9u16, 1, 2, 3, 2]), parse_ports("9,1-3,2".to_owned()));
}

#[test]
fn parse_bounds_of_port_numbers() {
    assert_eq!(Ok(vec![65535u16]), parse_ports("65535".to_owned()));
    assert_eq!(Ok(vec![65534u16, 65535]), parse_ports("65534-65535".to_owned()));
    assert_eq!(Ok(vec![7u16]), parse_ports("0007".to_owned()));
}

#[test]
fn parse_descending_range_is_empty() {
    assert_eq!(Ok(Vec::<u16>::new()), parse_ports("5-3".to_owned()));
}

#[test]
fn parse_rejects_out_of_range_values() {
    assert_eq!(Err(ParseError), parse_ports("65536".to_owned()));
    assert_eq!(Err(ParseError), parse_ports("80,99999999999999999999".to_owned()));
    assert_eq!(Err(ParseError), parse_ports("1-70000".to_owned()));
}

#[test]
fn parse_rejects_non_numeric_tokens() {
    assert_eq!(Err(ParseError), parse_ports("http".to_owned()));
    assert_eq!(Err(ParseError), parse_ports("80,x,443".to_owned()));
    assert_eq!(Err(ParseError), parse_ports("+80".to_owned()));
    assert_eq!(Err(ParseError), parse_ports(" 80".to_owned()));
}

#[test]
fn parse_rejects_malformed_shapes() {
    assert_eq!(Err(ParseError), parse_ports("".to_owned()));
    assert_eq!(Err(ParseError), parse_ports("1,,2".to_owned()));
    assert_eq!(Err(ParseError), parse_ports("1,".to_owned()));
    assert_eq!(Err(ParseError), parse_ports("1-2-3".to_owned()));
    assert_eq!(Err(ParseError), parse_ports("-5".to_owned()));
    assert_eq!(Err(ParseError), parse_ports("5-".to_owned()));
}
