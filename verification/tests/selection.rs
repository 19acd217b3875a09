use std::collections::HashSet;
use streamsplit::selection::parse_selection;
use streamsplit::{ParseError, Splitter};

fn set_of(text: &str) -> HashSet<u32> {
    parse_selection(text).unwrap()
}

#[test]
fn single_ordinal() {
    assert_eq!(set_of("0"), HashSet::from([0]));
    assert_eq!(set_of("007"), HashSet::from([7]));
}

#[test]
fn union_of_ordinals_and_ranges() {
    assert_eq!(set_of("2,3,4"), HashSet::from([2, 3, 4]));
    assert_eq!(
        set_of("1-3,7,8,9-12"),
        HashSet::from([1, 2, 3, 7, 8, 9, 10, 11, 12])
    );
    assert_eq!(
        set_of("1-3,7,8,7-12"),
        HashSet::from([1, 2, 3, 7, 8, 9, 10, 11, 12])
    );
}

#[test]
fn duplicates_collapse() {
    assert_eq!(set_of("5,5,5"), HashSet::from([5]));
    assert_eq!(set_of("1-4,2-3"), HashSet::from([1, 2, 3, 4]));
}

#[test]
fn white_space_around_fields_is_trimmed() {
    assert_eq!(set_of(" \t2\n, 3 ,\u{a0}4\u{3000}"), HashSet::from([2, 3, 4]));
    assert_eq!(set_of("  1-2  "), HashSet::from([1, 2]));
}

#[test]
fn white_space_inside_a_range_is_refused() {
    assert_eq!(parse_selection("1 - 3"), Err(ParseError::InvalidNumber));
    assert_eq!(parse_selection("1- 3"), Err(ParseError::InvalidNumber));
}

#[test]
fn plus_sign_is_accepted() {
    assert_eq!(set_of("+5"), HashSet::from([5]));
    assert_eq!(set_of("+1-+3"), HashSet::from([1, 2, 3]));
    assert_eq!(parse_selection("+"), Err(ParseError::InvalidNumber));
    assert_eq!(parse_selection("++1"), Err(ParseError::InvalidNumber));
}

#[test]
fn largest_ordinal() {
    assert_eq!(set_of("4294967295"), HashSet::from([u32::MAX]));
    assert_eq!(
        set_of("4294967293-4294967295"),
        HashSet::from([u32::MAX - 2, u32::MAX - 1, u32::MAX])
    );
    assert_eq!(parse_selection("4294967296"), Err(ParseError::InvalidNumber));
    assert_eq!(
        parse_selection("99999999999999999999999"),
        Err(ParseError::InvalidNumber)
    );
}

#[test]
fn descending_range_is_refused() {
    assert_eq!(parse_selection("12-7"), Err(ParseError::RangeNotAscending));
    assert_eq!(parse_selection("3-3"), Err(ParseError::RangeNotAscending));
    assert_eq!(
        parse_selection("1-3,7,8,12-7"),
        Err(ParseError::RangeNotAscending)
    );
    assert_eq!(
        parse_selection("12-7,1,2"),
        Err(ParseError::RangeNotAscending)
    );
}

#[test]
fn non_integer_is_refused() {
    assert_eq!(parse_selection("1,2,a"), Err(ParseError::InvalidNumber));
    assert_eq!(parse_selection("a,1,2"), Err(ParseError::InvalidNumber));
    assert_eq!(parse_selection("1.5"), Err(ParseError::InvalidNumber));
    assert_eq!(parse_selection("-5"), Err(ParseError::InvalidNumber));
    assert_eq!(parse_selection("1-"), Err(ParseError::InvalidNumber));
    assert_eq!(parse_selection("1-2-3"), Err(ParseError::InvalidNumber));
    assert_eq!(parse_selection("\u{663}"), Err(ParseError::InvalidNumber));
}

#[test]
fn empty_field_is_refused() {
    assert_eq!(parse_selection(""), Err(ParseError::InvalidNumber));
    assert_eq!(parse_selection("   "), Err(ParseError::InvalidNumber));
    assert_eq!(parse_selection("1,,2"), Err(ParseError::InvalidNumber));
    assert_eq!(parse_selection("1,2,"), Err(ParseError::InvalidNumber));
    assert_eq!(parse_selection(",1"), Err(ParseError::InvalidNumber));
}

#[test]
fn leftmost_bad_field_decides() {
    assert_eq!(parse_selection("x,5-1"), Err(ParseError::InvalidNumber));
    assert_eq!(parse_selection("5-1,x"), Err(ParseError::RangeNotAscending));
    assert_eq!(parse_selection("x-1"), Err(ParseError::InvalidNumber));
    assert_eq!(parse_selection("9-x"), Err(ParseError::InvalidNumber));
}

#[test]
fn splitter_keeps_the_delimiter() {
    let splitter = Splitter::try_from_idx(Some("0-1".to_string()), "::".to_string()).unwrap();
    match splitter {
        Splitter::Indices { indices, delimiter } => {
            assert_eq!(indices, HashSet::from([0, 1]));
            assert_eq!(delimiter, "::");
        }
        Splitter::Replace(_) => panic!("an index list selects"),
    }
    let err = Splitter::try_from_idx(Some("4-2".to_string()), "::".to_string()).unwrap_err();
    assert_eq!(err, ParseError::RangeNotAscending);
    let err = Splitter::try_from_idx(Some("b".to_string()), "::".to_string()).unwrap_err();
    assert_eq!(err, ParseError::InvalidNumber);
}

#[test]
fn parse_error_messages() {
    assert_eq!(
        ParseError::RangeNotAscending.message(),
        "range begin value must be smaller than end value"
    );
    assert_eq!(
        ParseError::InvalidNumber.message(),
        "index is not an unsigned 32-bit number"
    );
}

#[test]
fn trimmed_characters_are_the_unicode_white_space() {
    let one = HashSet::from([1]);
    for code in 0..=0x10ffffu32 {
        let Some(c) = char::from_u32(code) else {
            continue;
        };
        if c.is_whitespace() {
            assert_eq!(parse_selection(&format!("{c}1{c}{c}")), Ok(one.clone()), "{code:#x}");
        } else if code < 0x3100 || code % 251 == 0 {
            assert_ne!(parse_selection(&format!("{c}1{c}")), Ok(one.clone()), "{code:#x}");
        }
    }
}

#[test]
fn numbers_are_read_as_u32_from_str_reads_them() {
    let texts = [
        "", "0", "00", "1", "42", "+42", "-42", "+", "-", "+-1", "4294967295", "4294967296",
        "04294967295", "42949672950", "1 ", " 1", "1_000", "0x10", "1e3", "\u{967}\u{968}", "\u{663}",
        "18446744073709551616", "+0", "+4294967295", "+4294967296",
    ];
    for text in texts {
        if text.contains('-') || text.trim() != text {
            continue;
        }
        let expect = text.parse::<u32>().ok().map(|n| HashSet::from([n]));
        assert_eq!(parse_selection(text).ok(), expect, "{text:?}");
    }
}
