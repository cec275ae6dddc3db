use dec2bin::dump::dump_bytes;
use dec2bin::parse::{parse_decimal, to_u8, ParseError};
use dec2bin::pipeline::render;

#[test]
fn eight_gives_one_padded_group() {
    assert_eq!(
        render("8"),
        Ok(String::from("0 1 2 3 4 5 6 7\n---------------\n0 0 0 0 1 0 0 0 |0\n"))
    );
}

#[test]
fn zero_inputs_print_zero() {
    assert_eq!(render("0"), Ok(String::from("0\n")));
    assert_eq!(render(""), Ok(String::from("0\n")));
    assert_eq!(render("000"), Ok(String::from("0\n")));
}

#[test]
fn invalid_character_is_reported() {
    assert_eq!(render("12a"), Err(ParseError::InvalidDigit('a')));
    assert_eq!(parse_decimal("12a"), Err(ParseError::InvalidDigit('a')));
    assert_eq!(parse_decimal("00x9y"), Err(ParseError::InvalidDigit('x')));
    assert_eq!(parse_decimal("-1"), Err(ParseError::InvalidDigit('-')));
}

#[test]
fn parse_strips_leading_zeros() {
    assert_eq!(parse_decimal("00120"), Ok(vec![1, 2, 0]));
    assert_eq!(parse_decimal("000"), Ok(vec![]));
    assert_eq!(parse_decimal(""), Ok(vec![]));
    assert_eq!(parse_decimal("9876543210"), Ok(vec![9, 8, 7, 6, 5, 4, 3, 2, 1, 0]));
}

#[test]
fn digit_characters_map_to_values() {
    assert_eq!(to_u8('0'), Ok(0));
    assert_eq!(to_u8('7'), Ok(7));
    assert_eq!(to_u8('9'), Ok(9));
    assert_eq!(to_u8('a'), Err(ParseError::InvalidDigit('a')));
    assert_eq!(to_u8(' '), Err(ParseError::InvalidDigit(' ')));
}

#[test]
fn several_groups_count_down_to_zero() {
    assert_eq!(
        render("256"),
        Ok(String::from(
            "0 1 2 3 4 5 6 7\n---------------\n0 0 0 0 0 0 0 1 |1\n0 0 0 0 0 0 0 0 |0\n"
        ))
    );
}

#[test]
fn large_number_has_many_groups() {
    // 2^64 is a one followed by 64 zeros: nine groups, indices 8 down to 0
    let text = render("18446744073709551616").unwrap();
    let lines: Vec<&str> = text.lines().collect();
    assert_eq!(lines.len(), 2 + 9);
    assert_eq!(lines[2], "0 0 0 0 0 0 0 1 |8");
    for (k, line) in lines[3..].iter().enumerate() {
        assert_eq!(*line, format!("0 0 0 0 0 0 0 0 |{}", 7 - k));
    }
}

#[test]
fn dump_writes_indices_of_two_digits() {
    let groups: Vec<Vec<u8>> = (0..11).map(|_| vec![1, 1, 1, 1, 1, 1, 1, 1]).collect();
    let text = dump_bytes(&groups);
    let lines: Vec<&str> = text.lines().collect();
    assert_eq!(lines[0], "0 1 2 3 4 5 6 7");
    assert_eq!(lines[1], "---------------");
    assert_eq!(lines[2], "1 1 1 1 1 1 1 1 |10");
    assert_eq!(lines[12], "1 1 1 1 1 1 1 1 |0");
    assert_eq!(lines.len(), 13);
}

#[test]
fn dump_of_no_groups_is_the_header() {
    let groups: Vec<Vec<u8>> = Vec::new();
    assert_eq!(dump_bytes(&groups), "0 1 2 3 4 5 6 7\n---------------\n");
}
