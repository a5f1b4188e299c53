use celltable::table::Table;

fn row(cells: &[&str]) -> Vec<Vec<char>> {
    cells.iter().map(|s| s.chars().collect()).collect()
}

fn rendered(table: &Table) -> String {
    table.render().into_iter().collect()
}

#[test]
fn to_string() {
    let table = Table::new()
        .head(row(&["one", "two", "three"]))
        .tail(row(&["four", "five", "six"]))
        .tail(row(&["seven", "eight", "nine"]));

    assert_eq!(
        rendered(&table),
        "\
        | one   | two   | three |\n\
        |-------|-------|-------|\n\
        | four  | five  | six   |\n\
        | seven | eight | nine  |\n\
        "
    );
}

#[test]
fn rendering_twice_is_identical() {
    let table = Table::new()
        .head(row(&["k", "v"]))
        .tail(row(&["left", "right"]))
        .tail(row(&["a", "b"]));
    let first = rendered(&table);
    let second = rendered(&table);
    assert_eq!(first, second);
}

#[test]
fn empty_table_renders_nothing() {
    let table = Table::new();
    assert_eq!(rendered(&table), "");
}

#[test]
fn single_body_row_renders_only_the_header() {
    let table = Table::new().head(row(&["a", "b"])).tail(row(&["c", "d"]));
    assert_eq!(rendered(&table), "| a | b |\n");
}

#[test]
fn zero_body_rows_render_header_and_border() {
    let table = Table::new().head(row(&["ab", "c"]));
    assert_eq!(rendered(&table), "| ab | c |\n|----|---|\n");
}

#[test]
fn widths_count_code_points() {
    // Two-byte code points still occupy one cell of width each.
    let table = Table::new()
        .head(row(&["h\u{e9}", "x"]))
        .tail(row(&["a", "long"]))
        .tail(row(&["b", "c"]));
    assert_eq!(
        rendered(&table),
        "\
        | h\u{e9} | x    |\n\
        |----|------|\n\
        | a  | long |\n\
        | b  | c    |\n\
        "
    );
}

#[test]
fn counts_track_columns_and_rows() {
    let empty = Table::new();
    assert_eq!(empty.cols_len(), 0);
    assert_eq!(empty.rows_len(), 0);
    let table = Table::new()
        .head(row(&["a", "b", "c"]))
        .tail(row(&["1", "2", "3"]))
        .tail(row(&["4", "5", "6"]));
    assert_eq!(table.cols_len(), 3);
    assert_eq!(table.rows_len(), 2);
}
