use json_pop::error::CompilationError;
use json_pop::extra::diagnostic::{decimal, describe, from_parse_error, join_expected};
use json_pop::lex::Token;
use json_pop::parse_str;
use json_pop::parser::ParseError;
use json_pop::span::Span;

fn names(list: &[&str]) -> Vec<String> {
    list.iter().map(|name| name.to_string()).collect()
}

#[test]
fn one_expected_name() {
    assert_eq!(join_expected(&names(&["a"])), "Expected: a");
}

#[test]
fn two_expected_names() {
    assert_eq!(join_expected(&names(&["a", "b"])), "Expected: a or b");
}

#[test]
fn three_expected_names() {
    assert_eq!(join_expected(&names(&["a", "b", "c"])), "Expected: a, b, or c");
}

#[test]
fn many_expected_names() {
    assert_eq!(
        join_expected(&names(&["a", "b", "c", "d", "e"])),
        "Expected: a, b, c, d, or e"
    );
}

#[test]
fn no_expected_name() {
    assert_eq!(join_expected(&names(&[])), "Had great expectations?");
}

#[test]
fn decimal_digits() {
    assert_eq!(decimal(0), "0");
    assert_eq!(decimal(7), "7");
    assert_eq!(decimal(10), "10");
    assert_eq!(decimal(1234567890), "1234567890");
    assert_eq!(decimal(usize::MAX), usize::MAX.to_string());
}

#[test]
fn errors_of_the_stream_are_described_with_their_span() {
    let span = Span { start: 3, end: 15 };
    assert_eq!(describe(CompilationError::LexicalError { span }), "LexicalError { span: 3..15 }");
    assert_eq!(
        describe(CompilationError::NumericalError { span }),
        "NumericalError { span: 3..15 }"
    );
    assert_eq!(
        describe(CompilationError::UnterminatedStringLiteral { span }),
        "UnterminatedStringLiteral { span: 3..15 }"
    );
}

#[test]
fn an_invalid_token_is_anchored_at_its_location() {
    let diagnostic = from_parse_error("stdin", "abc", &ParseError::InvalidToken { location: 2 });
    assert_eq!(diagnostic.filename, "stdin");
    assert_eq!(diagnostic.source, "abc");
    assert_eq!(diagnostic.message, "Invalid token");
    assert_eq!(diagnostic.span, Span { start: 2, end: 2 });
    assert_eq!(diagnostic.label, "");
}

#[test]
fn an_unexpected_end_is_anchored_at_its_location() {
    let error = parse_str("[1").unwrap_err();
    let diagnostic = from_parse_error("stdin", "[1", &error);
    assert_eq!(diagnostic.message, "Unexpected EOF");
    assert_eq!(diagnostic.span, Span { start: 2, end: 2 });
    assert_eq!(diagnostic.label, "Expected: \",\" or \"]\"");
}

#[test]
fn an_unrecognized_token_is_anchored_at_the_token() {
    let error = parse_str("{\"a\" 12}").unwrap_err();
    let diagnostic = from_parse_error("stdin", "{\"a\" 12}", &error);
    assert_eq!(diagnostic.message, "Unrecognized token");
    assert_eq!(diagnostic.span, Span { start: 5, end: 7 });
    assert_eq!(diagnostic.label, "Expected: \":\"");
    let error = parse_str("]").unwrap_err();
    let diagnostic = from_parse_error("stdin", "]", &error);
    assert_eq!(
        diagnostic.label,
        "Expected: Number, \"\\\"\", \"true\", \"false\", \"null\", \"{\", or \"[\""
    );
}

#[test]
fn an_unrecognized_token_without_expectations() {
    let error = ParseError::UnrecognizedToken { token: (1, Token::Comma, 2), expected: vec![] };
    let diagnostic = from_parse_error("stdin", "1,", &error);
    assert_eq!(diagnostic.message, "Unrecognized token");
    assert_eq!(diagnostic.label, "Had great expectations?");
}

#[test]
fn an_extra_token_is_anchored_at_the_token() {
    let error = parse_str("1 true").unwrap_err();
    let diagnostic = from_parse_error("stdin", "1 true", &error);
    assert_eq!(diagnostic.message, "Extra token");
    assert_eq!(diagnostic.span, Span { start: 2, end: 6 });
    assert_eq!(diagnostic.label, "");
}

#[test]
fn an_error_of_the_stream_is_anchored_at_its_span() {
    let error = parse_str("[\"abc").unwrap_err();
    let diagnostic = from_parse_error("stdin", "[\"abc", &error);
    assert_eq!(diagnostic.message, "UnterminatedStringLiteral { span: 1..5 }");
    assert_eq!(diagnostic.span, Span { start: 1, end: 5 });
    assert_eq!(diagnostic.label, "");
    let error = ParseError::User {
        error: CompilationError::NumericalError { span: Span { start: 0, end: 5 } },
    };
    let diagnostic = from_parse_error("stdin", "1e999", &error);
    assert_eq!(diagnostic.message, "NumericalError { span: 0..5 }");
    assert_eq!(diagnostic.span, Span { start: 0, end: 5 });
}
