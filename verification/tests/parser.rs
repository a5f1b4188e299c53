use celltable::lexeme::Lexeme;
use celltable::parser::Parser;

fn cs(s: &str) -> Vec<char> {
    s.chars().collect()
}

fn collect_tokens(mut parser: Parser) -> Vec<Result<Lexeme, usize>> {
    let mut out = Vec::new();
    while let Some(token) = parser.next() {
        out.push(token);
    }
    out
}

#[test]
fn parse_empty() {
    let mut parser = Parser::new(cs(""));
    assert!(parser.next().is_none());
}

#[test]
fn parse_empty_cell() {
    let parser = Parser::new(cs(r#" """" "#));
    let parsed: Vec<Lexeme> = collect_tokens(parser)
        .into_iter()
        .map(Result::unwrap)
        .collect();
    assert_eq!(parsed, [Lexeme::Cell(cs("")), Lexeme::Cell(cs(""))]);
}

#[test]
fn parse_one() {
    let parser = Parser::new(cs(r#" "hi" "#));
    let parsed: Vec<Lexeme> = collect_tokens(parser)
        .into_iter()
        .map(Result::unwrap)
        .collect();
    assert_eq!(parsed, [Lexeme::Cell(cs("hi"))]);
}

#[test]
fn parse_two() {
    let parser = Parser::new(cs(r#" "hi" "fi" "#));
    let parsed: Vec<Lexeme> = collect_tokens(parser)
        .into_iter()
        .map(Result::unwrap)
        .collect();
    assert_eq!(parsed, [Lexeme::Cell(cs("hi")), Lexeme::Cell(cs("fi"))]);
}

#[test]
fn parse_nl() {
    let parser = Parser::new(cs("\n \n\n"));
    let parsed: Vec<Lexeme> = collect_tokens(parser)
        .into_iter()
        .map(Result::unwrap)
        .collect();
    assert_eq!(parsed, [Lexeme::NewLine, Lexeme::NewLine, Lexeme::NewLine]);
}

#[test]
fn parse_two_nl() {
    let parser = Parser::new(cs(
        r#" "hi"
                "fi"
            "#,
    ));
    let parsed: Vec<Lexeme> = collect_tokens(parser)
        .into_iter()
        .map(Result::unwrap)
        .collect();
    assert_eq!(
        parsed,
        [
            Lexeme::Cell(cs("hi")),
            Lexeme::NewLine,
            Lexeme::Cell(cs("fi")),
            Lexeme::NewLine,
        ]
    );
}

#[test]
fn parse_error_start() {
    let parser = Parser::new(cs("..."));
    let parsed = collect_tokens(parser);
    assert_eq!(parsed, [Err(0)]);
}

#[test]
fn parse_error_end() {
    let parser = Parser::new(cs("\"..."));
    let parsed = collect_tokens(parser);
    assert_eq!(parsed, [Err(0)]);
}

#[test]
fn parse_error_offset_counts_bytes() {
    // The cell text is one two-byte code point, so the offending `x` sits at
    // byte offset 5 even though it is the sixth code point's fifth byte.
    let parser = Parser::new(cs("\u{22}\u{e9}\u{22} x"));
    let parsed = collect_tokens(parser);
    assert_eq!(parsed, [Ok(Lexeme::Cell(cs("\u{e9}"))), Err(5)]);
}

#[test]
fn parse_error_is_final() {
    let mut parser = Parser::new(cs(". \"ok\""));
    assert_eq!(parser.next(), Some(Err(0)));
    assert!(parser.next().is_none());
    assert!(parser.next().is_none());
}

#[test]
fn parse_unterminated_reports_opening_quote() {
    let parser = Parser::new(cs("\"ab\" \"cd"));
    let parsed = collect_tokens(parser);
    assert_eq!(parsed, [Ok(Lexeme::Cell(cs("ab"))), Err(5)]);
}

#[test]
fn parse_cell_keeps_inner_whitespace() {
    let parser = Parser::new(cs("\"a b\"\t\"c\""));
    let parsed: Vec<Lexeme> = collect_tokens(parser)
        .into_iter()
        .map(Result::unwrap)
        .collect();
    assert_eq!(parsed, [Lexeme::Cell(cs("a b")), Lexeme::Cell(cs("c"))]);
}

#[test]
fn parse_cell_may_span_lines() {
    let parser = Parser::new(cs("\"a\nb\""));
    let parsed: Vec<Lexeme> = collect_tokens(parser)
        .into_iter()
        .map(Result::unwrap)
        .collect();
    assert_eq!(parsed, [Lexeme::Cell(cs("a\nb"))]);
}
