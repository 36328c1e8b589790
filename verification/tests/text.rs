use analyse::{parse_number, parse_row, Record, RowError};

fn record(id: u64, author_age: u64, pages: u64, publication_age: u64, nationality: &str) -> Record {
    Record { id, author_age, pages, publication_age, author_nationality: nationality.to_string() }
}

#[test]
fn number_of_plain_digits() {
    assert_eq!(parse_number(b"0"), Some(0));
    assert_eq!(parse_number(b"7"), Some(7));
    assert_eq!(parse_number(b"42"), Some(42));
    assert_eq!(parse_number(b"1234567890"), Some(1234567890));
}

#[test]
fn number_with_leading_zeros() {
    assert_eq!(parse_number(b"007"), Some(7));
    assert_eq!(parse_number(b"0000000000000000000000000000000000000001"), Some(1));
}

#[test]
fn number_with_a_plus_sign() {
    assert_eq!(parse_number(b"+5"), Some(5));
    assert_eq!(parse_number(b"+0"), Some(0));
}

#[test]
fn number_at_the_upper_bound() {
    assert_eq!(parse_number(b"18446744073709551615"), Some(u64::MAX));
    assert_eq!(parse_number(b"18446744073709551616"), None);
    assert_eq!(parse_number(b"18446744073709551620"), None);
    assert_eq!(parse_number(b"99999999999999999999"), None);
    assert_eq!(parse_number(b"184467440737095516150"), None);
}

#[test]
fn number_that_is_none() {
    assert_eq!(parse_number(b""), None);
    assert_eq!(parse_number(b"+"), None);
    assert_eq!(parse_number(b"-"), None);
    assert_eq!(parse_number(b"-1"), None);
    assert_eq!(parse_number(b"++1"), None);
    assert_eq!(parse_number(b"1+"), None);
    assert_eq!(parse_number(b"abc"), None);
    assert_eq!(parse_number(b"12a"), None);
    assert_eq!(parse_number(b" 1"), None);
    assert_eq!(parse_number(b"1 "), None);
    assert_eq!(parse_number(b"1_000"), None);
    assert_eq!(parse_number(b"1.5"), None);
    assert_eq!(parse_number(b"0x10"), None);
    assert_eq!(parse_number("١٢".as_bytes()), None);
}

#[test]
fn number_agrees_with_the_standard_parser() {
    let pieces = ["", "+", "-", "0", "1", "9", "18446744073709551615", "18446744073709551616", " ", "a", "00", "/", ":"];
    for first in pieces {
        for second in pieces {
            let text = format!("{}{}", first, second);
            assert_eq!(parse_number(text.as_bytes()), text.parse::<u64>().ok(), "text {:?}", text);
        }
    }
}

#[test]
fn row_with_six_fields() {
    let parsed = parse_row("US, 1, 30, 100, 5, American");
    assert_eq!(parsed, Ok(("US", record(1, 30, 100, 5, "American"))));
}

#[test]
fn row_with_more_than_six_fields() {
    let parsed = parse_row("US, 1, 30, 100, 5, American, more, and more");
    assert_eq!(parsed, Ok(("US", record(1, 30, 100, 5, "American"))));
}

#[test]
fn row_with_empty_text_fields() {
    assert_eq!(parse_row(", 1, 2, 3, 4, "), Ok(("", record(1, 2, 3, 4, ""))));
}

#[test]
fn row_keeps_text_fields_as_they_are() {
    let parsed = parse_row(" U S , 1, 2, 3, 4,  North,Korean ");
    assert_eq!(parsed, Ok((" U S ", record(1, 2, 3, 4, " North,Korean "))));
}

#[test]
fn row_with_text_beyond_ascii() {
    let parsed = parse_row("Österreich, 1, 2, 3, 4, 日本\u{1F600}");
    assert_eq!(parsed, Ok(("Österreich", record(1, 2, 3, 4, "日本\u{1F600}"))));
}

#[test]
fn row_with_a_field_that_is_no_number() {
    assert_eq!(parse_row("US, abc, 30, 100, 5, American"), Err(RowError::InvalidNumber));
    assert_eq!(parse_row("US, 1, 3o, 100, 5, American"), Err(RowError::InvalidNumber));
    assert_eq!(parse_row("US, 1, 30, , 5, American"), Err(RowError::InvalidNumber));
    assert_eq!(parse_row("US, 1, 30, 100, -5, American"), Err(RowError::InvalidNumber));
    assert_eq!(parse_row("US, 1, 30, 100, 5 , American"), Err(RowError::InvalidNumber));
    assert_eq!(parse_row("US,  1, 30, 100, 5, American"), Err(RowError::InvalidNumber));
}

#[test]
fn row_with_a_number_that_does_not_fit() {
    assert_eq!(
        parse_row("US, 18446744073709551616, 30, 100, 5, American"),
        Err(RowError::InvalidNumber)
    );
    assert_eq!(
        parse_row("US, 18446744073709551615, 30, 100, 5, American"),
        Ok(("US", record(u64::MAX, 30, 100, 5, "American")))
    );
}

#[test]
fn row_with_too_few_fields() {
    assert_eq!(parse_row(""), Err(RowError::MissingField));
    assert_eq!(parse_row("US"), Err(RowError::MissingField));
    assert_eq!(parse_row("US, 1"), Err(RowError::MissingField));
    assert_eq!(parse_row("US, 1, 30"), Err(RowError::MissingField));
    assert_eq!(parse_row("US, 1, 30, 100"), Err(RowError::MissingField));
    assert_eq!(parse_row("US, 1, 30, 100, 5"), Err(RowError::MissingField));
    assert_eq!(parse_row("US,1,30,100,5,American"), Err(RowError::MissingField));
}

#[test]
fn row_reports_the_first_thing_that_is_wrong() {
    assert_eq!(parse_row("US, abc"), Err(RowError::InvalidNumber));
    assert_eq!(parse_row("US, 1, x"), Err(RowError::InvalidNumber));
    assert_eq!(parse_row("US, 1, 2, 3, x"), Err(RowError::InvalidNumber));
    assert_eq!(parse_row("US, 1, 2, 3, 4x"), Err(RowError::InvalidNumber));
    assert_eq!(parse_row("US, 1, 2, 3, 4"), Err(RowError::MissingField));
}

#[test]
fn row_is_cut_at_a_comma_and_a_space_only() {
    assert_eq!(parse_row("A,B, 1, 2, 3, 4, C,D"), Ok(("A,B", record(1, 2, 3, 4, "C,D"))));
    assert_eq!(parse_row("A,, 1, 2, 3, 4, ,"), Ok(("A,", record(1, 2, 3, 4, ","))));
    assert_eq!(parse_row("A, 1, 2, 3, 4,"), Err(RowError::InvalidNumber));
}
