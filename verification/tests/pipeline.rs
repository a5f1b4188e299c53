use celltable::pipeline::format_table;

fn format(s: &str) -> Result<String, usize> {
    format_table(s.chars().collect()).map(|text| text.into_iter().collect())
}

#[test]
fn format_three_body_rows() {
    let input = "\"one\" \"two\" \"three\"\n\"four\" \"five\" \"six\"\n\"seven\" \"eight\" \"nine\"\n";
    assert_eq!(
        format(input),
        Ok(String::from(
            "\
            | one   | two   | three |\n\
            |-------|-------|-------|\n\
            | four  | five  | six   |\n\
            | seven | eight | nine  |\n\
            "
        ))
    );
}

#[test]
fn format_single_body_row_keeps_only_the_header() {
    assert_eq!(
        format("\"a\" \"b\"\n\"c\" \"d\"\n"),
        Ok(String::from("| a | b |\n"))
    );
}

#[test]
fn format_empty_input() {
    assert_eq!(format(""), Ok(String::new()));
}

#[test]
fn format_rejects_unquoted_text() {
    assert_eq!(format("..."), Err(0));
}

#[test]
fn format_rejects_unterminated_cell() {
    assert_eq!(format("\"..."), Err(0));
}

#[test]
fn format_reports_byte_offsets() {
    // The header cell holds a two-byte code point: the bad character after
    // it sits at byte offset 5.
    assert_eq!(format("\"\u{e9}\" x"), Err(5));
}

#[test]
fn format_normalizes_short_and_long_rows() {
    let input = "\"a\" \"b\" \"c\"\n\"0\" \"1\"\n\"2\" \"3\" \"4\" \"5\"\n\"6\" \"7\" \"8\"\n";
    assert_eq!(
        format(input),
        Ok(String::from(
            "\
            | a | b | c |\n\
            |---|---|---|\n\
            | 0 | 1 |   |\n\
            | 2 | 3 | 4 |\n\
            | 6 | 7 | 8 |\n\
            "
        ))
    );
}

#[test]
fn format_aligns_by_code_points() {
    let input = "\"h\u{e9}llo\" \"a\"\n\"x\" \"y\"\n\"z\" \"w\"\n";
    assert_eq!(
        format(input),
        Ok(String::from(
            "\
            | h\u{e9}llo | a |\n\
            |-------|---|\n\
            | x     | y |\n\
            | z     | w |\n\
            "
        ))
    );
}
