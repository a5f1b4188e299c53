use celltable::lexeme::Lexeme;
use celltable::rows::Rows;

fn cell(s: &str) -> Lexeme {
    Lexeme::Cell(s.chars().collect())
}

fn text(cells: Vec<Vec<char>>) -> Vec<String> {
    cells.into_iter().map(|c| c.into_iter().collect()).collect()
}

#[test]
fn iterator() {
    let table = vec![
        cell("a"),
        cell("b"),
        cell("c"),
        Lexeme::NewLine,
        cell("0"),
        cell("1"),
        Lexeme::NewLine,
        cell("2"),
        cell("3"),
        cell("4"),
        cell("5"),
        Lexeme::NewLine,
        Lexeme::NewLine,
    ];

    let rows = Rows::new(table);
    let (mut head, mut tail) = rows.split();

    let header = text(head.drain());
    assert_eq!(header, ["a", "b", "c"]);
    head.finish(&mut tail);

    let row = tail.row().expect("a first body row");
    assert_eq!(text(row.drain(&mut tail)), ["0", "1", ""]);

    let row = tail.row().expect("a second body row");
    assert_eq!(text(row.drain(&mut tail)), ["2", "3", "4"]);

    let row = tail.row().expect("a third body row");
    assert_eq!(text(row.drain(&mut tail)), ["", "", ""]);

    assert!(tail.row().is_none());
}

#[test]
fn header_stops_at_line_break() {
    let rows = Rows::new(vec![cell("a"), Lexeme::NewLine, cell("b"), Lexeme::NewLine]);
    let (mut head, mut tail) = rows.split();
    assert_eq!(head.next(), Some("a".chars().collect::<Vec<char>>()));
    assert_eq!(head.next(), None);
    assert_eq!(head.next(), None);
    head.finish(&mut tail);
    let row = tail.row().expect("one body row");
    assert_eq!(text(row.drain(&mut tail)), ["b"]);
    assert!(tail.row().is_none());
}

#[test]
fn row_exposes_remaining_length() {
    let rows = Rows::new(vec![
        cell("a"),
        cell("b"),
        Lexeme::NewLine,
        cell("x"),
        cell("y"),
        Lexeme::NewLine,
    ]);
    let (mut head, mut tail) = rows.split();
    while head.next().is_some() {}
    head.finish(&mut tail);
    let mut row = tail.row().expect("one body row");
    assert_eq!(row.len(), 2);
    assert_eq!(row.next(), Some(vec!['x']));
    assert_eq!(row.len(), 1);
    assert_eq!(row.next(), Some(vec!['y']));
    assert_eq!(row.len(), 0);
    assert_eq!(row.next(), None);
    row.finish(&mut tail);
    assert!(tail.row().is_none());
}

#[test]
fn missing_line_break_at_the_end_fills_columns() {
    let rows = Rows::new(vec![
        cell("a"),
        cell("b"),
        cell("c"),
        Lexeme::NewLine,
        cell("x"),
    ]);
    let (mut head, mut tail) = rows.split();
    while head.next().is_some() {}
    head.finish(&mut tail);
    let row = tail.row().expect("one body row");
    assert_eq!(text(row.drain(&mut tail)), ["x", "", ""]);
    assert!(tail.row().is_none());
}
