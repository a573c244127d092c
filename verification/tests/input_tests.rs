use blazing_goldbach::input::{parse_target, InputError};

fn parse(text: &str) -> Result<Option<u64>, InputError> {
    parse_target(&text.as_bytes().to_vec()).map(|n| n.to_u64())
}

#[test]
fn plain_even_numbers_parse() {
    assert_eq!(parse("100"), Ok(Some(100)));
    assert_eq!(parse("6"), Ok(Some(6)));
    assert_eq!(parse("+1000"), Ok(Some(1000)));
    assert_eq!(parse("0006"), Ok(Some(6)));
    assert_eq!(parse(" 1_000 000\n"), Ok(Some(1000000)));
    assert_eq!(parse("12345678901234567890"), Ok(Some(12345678901234567890)));
    let big = parse_target(&"123456789012345678901234567890".as_bytes().to_vec()).unwrap();
    assert_eq!(big.to_u64(), None);
    assert!(big.is_even());
}

#[test]
fn non_numerals_are_refused() {
    for text in ["", " ", "-", "+", "abc", "12a", "_12", "1.5", "--4", "+-4", "4-", "0x10"] {
        assert_eq!(parse(text), Err(InputError::NotAnInteger), "text={:?}", text);
    }
}

#[test]
fn small_and_negative_numbers_are_refused() {
    for text in ["4", "0", "-0", "-100", "2", " - 8"] {
        assert_eq!(parse(text), Err(InputError::BelowSix), "text={:?}", text);
    }
}

#[test]
fn odd_numbers_are_refused() {
    for text in ["7", "101", "12345678901234567891"] {
        assert_eq!(parse(text), Err(InputError::Odd), "text={:?}", text);
    }
}
