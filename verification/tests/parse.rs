use mandelbrot::grid::Bounds;
use mandelbrot::parse::{find_first, parse_bounds, parse_pair, parse_size, InputParseError};
use std::str::FromStr;

#[test]
fn test_parse_pair() {
    assert_eq!(parse_pair("", ',', i32::from_str), None);
    assert_eq!(parse_pair("10,", ',', i32::from_str), None);
    assert_eq!(parse_pair(",10", ',', i32::from_str), None);
    assert_eq!(parse_pair("10,20", ',', i32::from_str), Some((10, 20)));
    assert_eq!(parse_pair("10,20xy", ',', i32::from_str), None);
    assert_eq!(parse_pair("0.5x", 'x', f64::from_str), None);
    assert_eq!(parse_pair("0.5x1.5", 'x', f64::from_str), Some((0.5, 1.5)));
}

#[test]
fn parse_pair_splits_at_the_first_separator() {
    let whole = |t: &str| -> Result<String, ()> { Ok(t.to_string()) };
    assert_eq!(
        parse_pair("a,b,c", ',', whole),
        Some(("a".to_string(), "b,c".to_string()))
    );
    assert_eq!(parse_pair(",", ',', whole), Some((String::new(), String::new())));
    assert_eq!(parse_pair("abc", ',', whole), None);
    assert_eq!(parse_pair("10x20", ',', whole), None);
}

#[test]
fn parse_pair_counts_characters_not_bytes() {
    let whole = |t: &str| -> Result<String, ()> { Ok(t.to_string()) };
    assert_eq!(
        parse_pair("é1→ü2", '→', whole),
        Some(("é1".to_string(), "ü2".to_string()))
    );
    assert_eq!(parse_pair("12é34", 'é', i32::from_str), Some((12, 34)));
}

#[test]
fn parse_pair_needs_both_sides() {
    let even = |t: &str| -> Result<u32, ()> {
        match t.parse::<u32>() {
            Ok(v) if v % 2 == 0 => Ok(v),
            _ => Err(()),
        }
    };
    assert_eq!(parse_pair("2:4", ':', even), Some((2, 4)));
    assert_eq!(parse_pair("2:5", ':', even), None);
    assert_eq!(parse_pair("3:4", ':', even), None);
    assert_eq!(parse_pair("3:5", ':', even), None);
}

#[test]
fn find_first_gives_the_first_position() {
    assert_eq!(find_first("", 'x'), None);
    assert_eq!(find_first("x", 'x'), Some(0));
    assert_eq!(find_first("10x20x30", 'x'), Some(2));
    assert_eq!(find_first("1020", 'x'), None);
    assert_eq!(find_first("äöx", 'x'), Some(2));
}

#[test]
fn parse_size_reads_decimal_digits() {
    assert_eq!(parse_size("0"), Ok(0));
    assert_eq!(parse_size("7"), Ok(7));
    assert_eq!(parse_size("1000"), Ok(1000));
    assert_eq!(parse_size("007"), Ok(7));
    assert_eq!(parse_size("+12"), Ok(12));
    assert_eq!(parse_size(&usize::MAX.to_string()), Ok(usize::MAX));
}

#[test]
fn parse_size_refuses_what_is_not_a_size() {
    for text in ["", "+", "-1", "-0", " 1", "1 ", "1_000", "12a", "a12", "1.5", "++1", "1+", "x", "٣"] {
        assert_eq!(parse_size(text), Err(InputParseError::Malformed), "{:?}", text);
    }
    assert_eq!(parse_size("18446744073709551616"), Err(InputParseError::Malformed));
    assert_eq!(parse_size("99999999999999999999999999"), Err(InputParseError::Malformed));
    assert_eq!(parse_size("99999999999999999999999999x"), Err(InputParseError::Malformed));
}

#[test]
fn parse_size_agrees_with_the_standard_parser() {
    let texts = [
        "", "0", "1", "+1", "-1", "+", "-", "42", "0042", "4 2", "42 ", " 42", "4_2", "0x2a",
        "18446744073709551615", "18446744073709551616", "4294967295", "4294967296", "+0", "00",
        "1e3", "12345678901234567890", "123456789012345678901", "٤٢", "4２",
    ];
    for text in texts {
        assert_eq!(parse_size(text).ok(), usize::from_str(text).ok(), "{:?}", text);
    }
}

#[test]
fn parse_bounds_reads_width_and_height() {
    assert_eq!(parse_bounds("1000x750"), Ok(Bounds { width: 1000, height: 750 }));
    assert_eq!(parse_bounds("1x1"), Ok(Bounds { width: 1, height: 1 }));
    assert_eq!(parse_bounds("+3x+4"), Ok(Bounds { width: 3, height: 4 }));
    assert_eq!(parse_bounds("010x020"), Ok(Bounds { width: 10, height: 20 }));
}

#[test]
fn parse_bounds_refuses_a_text_without_separator() {
    assert_eq!(parse_bounds("1000,750"), Err(InputParseError::Malformed));
    assert_eq!(parse_bounds("1000"), Err(InputParseError::Malformed));
    assert_eq!(parse_bounds(""), Err(InputParseError::Malformed));
    assert_eq!(parse_bounds("1000X750"), Err(InputParseError::Malformed));
}

#[test]
fn parse_bounds_refuses_sides_that_are_not_numbers() {
    assert_eq!(parse_bounds("x"), Err(InputParseError::Malformed));
    assert_eq!(parse_bounds("10x"), Err(InputParseError::Malformed));
    assert_eq!(parse_bounds("x10"), Err(InputParseError::Malformed));
    assert_eq!(parse_bounds("10x20x30"), Err(InputParseError::Malformed));
    assert_eq!(parse_bounds("10 x 20"), Err(InputParseError::Malformed));
    assert_eq!(parse_bounds("-10x20"), Err(InputParseError::Malformed));
    assert_eq!(parse_bounds("1.5x2"), Err(InputParseError::Malformed));
    assert_eq!(parse_bounds("18446744073709551616x1"), Err(InputParseError::Malformed));
}

#[test]
fn parse_bounds_refuses_empty_and_uncountable_images() {
    assert_eq!(parse_bounds("0x5"), Err(InputParseError::InvalidDimensions));
    assert_eq!(parse_bounds("5x0"), Err(InputParseError::InvalidDimensions));
    assert_eq!(parse_bounds("0x0"), Err(InputParseError::InvalidDimensions));
    let max = usize::MAX.to_string();
    assert_eq!(
        parse_bounds(&format!("{}x2", max)),
        Err(InputParseError::InvalidDimensions)
    );
    assert_eq!(
        parse_bounds(&format!("{}x1", max)),
        Ok(Bounds { width: usize::MAX, height: 1 })
    );
}
