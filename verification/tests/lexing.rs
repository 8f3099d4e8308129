use json_pop::error::CompilationError;
use json_pop::lex::{number_checked, tokenize, LexMode, Spanned, Token, TokenStream};
use json_pop::span::Span;

fn lexical(start: usize, end: usize) -> Spanned<'static> {
    Err(CompilationError::LexicalError { span: Span { start, end } })
}

#[test]
fn empty_input_yields_no_item() {
    assert_eq!(tokenize(""), vec![]);
    let mut stream = TokenStream::new("");
    assert_eq!(stream.next_item(), None);
    assert_eq!(stream.next_item(), None);
}

#[test]
fn whitespace_alone_yields_no_item() {
    assert_eq!(tokenize(" \r\n\t "), vec![]);
}

#[test]
fn punctuation_and_keywords() {
    assert_eq!(
        tokenize("{}[]:, true false null"),
        vec![
            Ok((0, Token::LBrace, 1)),
            Ok((1, Token::RBrace, 2)),
            Ok((2, Token::LBrack, 3)),
            Ok((3, Token::RBrack, 4)),
            Ok((4, Token::Colon, 5)),
            Ok((5, Token::Comma, 6)),
            Ok((7, Token::True, 11)),
            Ok((12, Token::False, 17)),
            Ok((18, Token::Null, 22)),
        ]
    );
}

#[test]
fn whitespace_is_skipped_between_tokens() {
    assert_eq!(
        tokenize("\t[ \r\n1 ,2\n]  "),
        vec![
            Ok((1, Token::LBrack, 2)),
            Ok((5, Token::Number("1"), 6)),
            Ok((7, Token::Comma, 8)),
            Ok((8, Token::Number("2"), 9)),
            Ok((10, Token::RBrack, 11)),
        ]
    );
}

#[test]
fn numbers_carry_their_text() {
    assert_eq!(tokenize("0"), vec![Ok((0, Token::Number("0"), 1))]);
    assert_eq!(tokenize("-0"), vec![Ok((0, Token::Number("-0"), 2))]);
    assert_eq!(tokenize("1234567890"), vec![Ok((0, Token::Number("1234567890"), 10))]);
    assert_eq!(tokenize("-12.50"), vec![Ok((0, Token::Number("-12.50"), 6))]);
    assert_eq!(tokenize("1e5"), vec![Ok((0, Token::Number("1e5"), 3))]);
    assert_eq!(tokenize("1E+05"), vec![Ok((0, Token::Number("1E+05"), 5))]);
    assert_eq!(tokenize("-2.5e-3"), vec![Ok((0, Token::Number("-2.5e-3"), 7))]);
}

#[test]
fn a_leading_zero_stands_alone() {
    assert_eq!(
        tokenize("012"),
        vec![Ok((0, Token::Number("0"), 1)), Ok((1, Token::Number("12"), 3))]
    );
}

#[test]
fn a_number_is_the_longest_match() {
    assert_eq!(tokenize("1."), vec![Ok((0, Token::Number("1"), 1)), lexical(1, 2)]);
    assert_eq!(tokenize("1e"), vec![Ok((0, Token::Number("1"), 1)), lexical(1, 2)]);
    assert_eq!(
        tokenize("1e+"),
        vec![Ok((0, Token::Number("1"), 1)), lexical(1, 2), lexical(2, 3)]
    );
    assert_eq!(
        tokenize("1.5.5"),
        vec![Ok((0, Token::Number("1.5"), 3)), lexical(3, 4), Ok((4, Token::Number("5"), 5))]
    );
}

#[test]
fn a_sign_without_digits_is_an_error() {
    assert_eq!(tokenize("-"), vec![lexical(0, 1)]);
    assert_eq!(tokenize("-a"), vec![lexical(0, 1), lexical(1, 2)]);
    assert_eq!(tokenize("+1"), vec![lexical(0, 1), Ok((1, Token::Number("1"), 2))]);
}

#[test]
fn an_unknown_byte_is_an_error_of_one_character() {
    assert_eq!(tokenize("?"), vec![lexical(0, 1)]);
    assert_eq!(tokenize("tru"), vec![lexical(0, 1), lexical(1, 2), lexical(2, 3)]);
    assert_eq!(tokenize("\u{e9}"), vec![lexical(0, 2)]);
    assert_eq!(tokenize("\u{20ac}1"), vec![lexical(0, 3), Ok((3, Token::Number("1"), 4))]);
    assert_eq!(tokenize("\u{1f600}"), vec![lexical(0, 4)]);
}

#[test]
fn a_string_is_two_quotes_around_its_body() {
    assert_eq!(
        tokenize("\"foo bar\""),
        vec![
            Ok((0, Token::Quote, 1)),
            Ok((1, Token::String("foo bar"), 8)),
            Ok((8, Token::Quote, 9)),
        ]
    );
}

#[test]
fn an_empty_string_has_no_body() {
    assert_eq!(tokenize("\"\""), vec![Ok((0, Token::Quote, 1)), Ok((1, Token::Quote, 2))]);
}

#[test]
fn escapes_stay_in_the_body_undecoded() {
    let source = r#""a\"b\\c\/d\b\f\n\r\téꯍ""#;
    assert_eq!(
        tokenize(source),
        vec![
            Ok((0, Token::Quote, 1)),
            Ok((1, Token::String(r#"a\"b\\c\/d\b\f\n\r\téꯍ"#), source.len() - 1)),
            Ok((source.len() - 1, Token::Quote, source.len())),
        ]
    );
}

#[test]
fn characters_beyond_ascii_are_safe_in_a_body() {
    assert_eq!(
        tokenize("\"\u{e9}\u{20ac}\u{1f600}\u{7f}\""),
        vec![
            Ok((0, Token::Quote, 1)),
            Ok((1, Token::String("\u{e9}\u{20ac}\u{1f600}\u{7f}"), 11)),
            Ok((11, Token::Quote, 12)),
        ]
    );
}

#[test]
fn structural_bytes_inside_a_string_are_body() {
    assert_eq!(
        tokenize("\"{[1, true]}\""),
        vec![
            Ok((0, Token::Quote, 1)),
            Ok((1, Token::String("{[1, true]}"), 12)),
            Ok((12, Token::Quote, 13)),
        ]
    );
}

#[test]
fn a_control_character_in_a_string_is_an_error_of_one_byte() {
    assert_eq!(
        tokenize("\"a\u{1}b\""),
        vec![
            Ok((0, Token::Quote, 1)),
            Ok((1, Token::String("a"), 2)),
            lexical(2, 3),
            Ok((3, Token::String("b"), 4)),
            Ok((4, Token::Quote, 5)),
        ]
    );
    assert_eq!(
        tokenize("\"\n\""),
        vec![Ok((0, Token::Quote, 1)), lexical(1, 2), Ok((2, Token::Quote, 3))]
    );
}

#[test]
fn an_unknown_escape_is_an_error_of_the_backslash_and_the_next_character() {
    assert_eq!(
        tokenize(r#""ab\qcd""#),
        vec![
            Ok((0, Token::Quote, 1)),
            Ok((1, Token::String("ab"), 3)),
            lexical(3, 5),
            Ok((5, Token::String("cd"), 7)),
            Ok((7, Token::Quote, 8)),
        ]
    );
    assert_eq!(
        tokenize("\"\\\u{e9}\""),
        vec![Ok((0, Token::Quote, 1)), lexical(1, 4), Ok((4, Token::Quote, 5))]
    );
}

#[test]
fn a_short_unicode_escape_is_an_error_from_the_u() {
    assert_eq!(
        tokenize(r#""\u12G4""#),
        vec![
            Ok((0, Token::Quote, 1)),
            lexical(2, 5),
            Ok((5, Token::String("G4"), 7)),
            Ok((7, Token::Quote, 8)),
        ]
    );
    assert_eq!(
        tokenize(r#""\u""#),
        vec![Ok((0, Token::Quote, 1)), lexical(2, 3), Ok((3, Token::Quote, 4))]
    );
    assert_eq!(
        tokenize(r#""\u123""#),
        vec![Ok((0, Token::Quote, 1)), lexical(2, 6), Ok((6, Token::Quote, 7))]
    );
}

#[test]
fn a_unicode_escape_cut_off_by_the_end_of_input() {
    assert_eq!(
        tokenize(r#""\u12"#),
        vec![
            Ok((0, Token::Quote, 1)),
            lexical(2, 5),
            Err(CompilationError::UnterminatedStringLiteral { span: Span { start: 0, end: 5 } }),
        ]
    );
}

#[test]
fn a_backslash_at_the_end_of_input() {
    assert_eq!(
        tokenize("\"a\\"),
        vec![
            Ok((0, Token::Quote, 1)),
            Ok((1, Token::String("a"), 2)),
            lexical(2, 3),
            Err(CompilationError::UnterminatedStringLiteral { span: Span { start: 0, end: 3 } }),
        ]
    );
}

#[test]
fn an_unterminated_string_spans_from_its_quote_to_the_end() {
    assert_eq!(
        tokenize("[ \"abc"),
        vec![
            Ok((0, Token::LBrack, 1)),
            Ok((2, Token::Quote, 3)),
            Ok((3, Token::String("abc"), 6)),
            Err(CompilationError::UnterminatedStringLiteral { span: Span { start: 2, end: 6 } }),
        ]
    );
    assert_eq!(
        tokenize("\""),
        vec![
            Ok((0, Token::Quote, 1)),
            Err(CompilationError::UnterminatedStringLiteral { span: Span { start: 0, end: 1 } }),
        ]
    );
}

#[test]
fn whitespace_inside_a_string_is_body() {
    assert_eq!(
        tokenize("\"  \" "),
        vec![
            Ok((0, Token::Quote, 1)),
            Ok((1, Token::String("  "), 3)),
            Ok((3, Token::Quote, 4)),
        ]
    );
}

#[test]
fn the_stream_yields_the_items_of_tokenize_one_by_one() {
    let source = "{\"k\": [1, \"v\"]}";
    let mut stream = TokenStream::new(source);
    let mut seen = Vec::new();
    while let Some(item) = stream.next_item() {
        seen.push(item);
    }
    assert_eq!(seen, tokenize(source));
    assert_eq!(seen.len(), 13);
    assert_eq!(stream.next_item(), None);
}

#[test]
fn to_lalr_triple_keeps_a_token_in_its_place() {
    assert_eq!(
        Token::to_lalr_triple((Token::Number("12"), Span { start: 3, end: 5 })),
        Ok((3, Token::Number("12"), 5))
    );
    assert_eq!(
        Token::to_lalr_triple((Token::EndOfInput, Span { start: 7, end: 7 })),
        Ok((7, Token::EndOfInput, 7))
    );
}

#[test]
fn to_lalr_triple_turns_error_into_a_lexical_error() {
    assert_eq!(Token::to_lalr_triple((Token::Error, Span { start: 3, end: 5 })), lexical(3, 5));
}

#[test]
fn span_constructors() {
    assert_eq!(Span::new(2, 9), Span { start: 2, end: 9 });
    assert_eq!(Span::point(4), Span { start: 4, end: 4 });
}

#[test]
fn the_modes_are_distinct() {
    assert_ne!(LexMode::Top, LexMode::Quoted { open: 0 });
}

#[test]
fn a_number_that_does_not_convert_is_a_numerical_error() {
    assert_eq!(
        number_checked(Ok((3, Token::Number("1e999"), 8)), false),
        Err(CompilationError::NumericalError { span: Span { start: 3, end: 8 } })
    );
}

#[test]
fn a_number_that_converts_stays_as_it_is() {
    assert_eq!(
        number_checked(Ok((3, Token::Number("1e9"), 6)), true),
        Ok((3, Token::Number("1e9"), 6))
    );
}

#[test]
fn the_number_check_leaves_other_items_alone() {
    assert_eq!(number_checked(Ok((0, Token::True, 4)), false), Ok((0, Token::True, 4)));
    assert_eq!(
        number_checked(Ok((1, Token::String("12"), 3)), false),
        Ok((1, Token::String("12"), 3))
    );
    assert_eq!(number_checked(lexical(2, 3), false), lexical(2, 3));
    assert_eq!(number_checked(lexical(2, 3), true), lexical(2, 3));
}

#[test]
fn the_stream_yields_no_more_items_than_bytes_and_one() {
    for source in ["", "\"", "\"a", "[[[[", "1 2 3", "\"\\q\\q", "\u{e9}\u{e9}"].iter() {
        assert!(tokenize(source).len() <= source.len() + 1);
    }
}
