use json_pop::error::{CompilationError, JsonPopError, TopLevelError};
use json_pop::extra::source::{ErrorHandling, Parsable, Source};
use json_pop::extra::test_utils::{Test, TestError};
use json_pop::lex::{Token, TokenStream};
use json_pop::parse_str;
use json_pop::parser::{expected_names, takes, ParseError, Parser, Phase};
use json_pop::span::Span;
use json_pop::value::Value;

fn names(list: &[&str]) -> Vec<String> {
    list.iter().map(|name| name.to_string()).collect()
}

fn value_names() -> Vec<String> {
    names(&["Number", "\"\\\"\"", "\"true\"", "\"false\"", "\"null\"", "\"{\"", "\"[\""])
}

#[test]
fn test_invalid() -> Result<(), TopLevelError> {
    let sources = ["ï¿½", r#""string with missing end quote"#];
    for src in sources.iter() {
        let test = Test::TestInvalid(Source::from(*src));
        assert_eq!(
            test.parse().handle_errors().map_err(|e| TopLevelError::from(e))?,
            Value::Null
        );
    }
    Ok(())
}

#[test]
fn test_valid() -> Result<(), TopLevelError> {
    let sources = [
        ("[]", Value::Array(Vec::new())),
        (r#""foo bar""#, Value::String("foo bar")),
        (r#""""#, Value::String("")),
    ];
    for (src, result) in sources.iter() {
        let test = Test::TestValid(Source::from(*src));
        assert_eq!(
            test.parse().handle_errors().map_err(|e| TopLevelError::from(e))?,
            *result
        );
    }
    Ok(())
}

#[test]
fn scalars() {
    assert_eq!(parse_str("1"), Ok(Value::Number("1")));
    assert_eq!(parse_str(" -2.5e+3 "), Ok(Value::Number("-2.5e+3")));
    assert_eq!(parse_str("true"), Ok(Value::Bool(true)));
    assert_eq!(parse_str("false"), Ok(Value::Bool(false)));
    assert_eq!(parse_str("null"), Ok(Value::Null));
    assert_eq!(parse_str("\"\""), Ok(Value::String("")));
    assert_eq!(parse_str("\"foo bar\""), Ok(Value::String("foo bar")));
    assert_eq!(parse_str(r#""a\nb""#), Ok(Value::String(r#"a\nb"#)));
}

#[test]
fn arrays_keep_their_order() {
    assert_eq!(parse_str("[]"), Ok(Value::Array(vec![])));
    assert_eq!(parse_str("[ ]"), Ok(Value::Array(vec![])));
    assert_eq!(
        parse_str("[1, \"two\", [true], {}, null]"),
        Ok(Value::Array(vec![
            Value::Number("1"),
            Value::String("two"),
            Value::Array(vec![Value::Bool(true)]),
            Value::Object(vec![]),
            Value::Null,
        ]))
    );
}

#[test]
fn objects_keep_their_order() {
    assert_eq!(parse_str("{}"), Ok(Value::Object(vec![])));
    assert_eq!(
        parse_str("{\"b\": 1, \"a\": {\"\": []}}"),
        Ok(Value::Object(vec![
            ("b", Value::Number("1")),
            ("a", Value::Object(vec![("", Value::Array(vec![]))])),
        ]))
    );
}

#[test]
fn duplicate_keys_are_kept_in_order() {
    assert_eq!(
        parse_str("{\"a\":1,\"a\":2}"),
        Ok(Value::Object(vec![("a", Value::Number("1")), ("a", Value::Number("2"))]))
    );
}

#[test]
fn empty_input_is_an_unexpected_end() {
    assert_eq!(
        parse_str(""),
        Err(ParseError::UnrecognizedEOF { location: 0, expected: value_names() })
    );
    assert_eq!(
        parse_str("  \n"),
        Err(ParseError::UnrecognizedEOF { location: 0, expected: value_names() })
    );
}

#[test]
fn the_end_of_input_is_located_behind_the_last_token() {
    assert_eq!(
        parse_str("[1,  "),
        Err(ParseError::UnrecognizedEOF { location: 3, expected: value_names() })
    );
    assert_eq!(
        parse_str("{\"a\""),
        Err(ParseError::UnrecognizedEOF { location: 4, expected: names(&["\":\""]) })
    );
    assert_eq!(
        parse_str("{\"a\": 1"),
        Err(ParseError::UnrecognizedEOF { location: 7, expected: names(&["\",\"", "\"}\""]) })
    );
    assert_eq!(
        parse_str("[1"),
        Err(ParseError::UnrecognizedEOF { location: 2, expected: names(&["\",\"", "\"]\""]) })
    );
    assert_eq!(
        parse_str("{"),
        Err(ParseError::UnrecognizedEOF { location: 1, expected: names(&["\"\\\"\"", "\"}\""]) })
    );
    assert_eq!(
        parse_str("{\"a\":1,"),
        Err(ParseError::UnrecognizedEOF { location: 7, expected: names(&["\"\\\"\""]) })
    );
}

#[test]
fn a_token_out_of_place_is_unrecognized() {
    assert_eq!(
        parse_str("[1 2]"),
        Err(ParseError::UnrecognizedToken {
            token: (3, Token::Number("2"), 4),
            expected: names(&["\",\"", "\"]\""]),
        })
    );
    assert_eq!(
        parse_str("]"),
        Err(ParseError::UnrecognizedToken { token: (0, Token::RBrack, 1), expected: value_names() })
    );
    assert_eq!(
        parse_str("{\"a\" 1}"),
        Err(ParseError::UnrecognizedToken {
            token: (5, Token::Number("1"), 6),
            expected: names(&["\":\""]),
        })
    );
    assert_eq!(
        parse_str("{1: 2}"),
        Err(ParseError::UnrecognizedToken {
            token: (1, Token::Number("1"), 2),
            expected: names(&["\"\\\"\"", "\"}\""]),
        })
    );
}

#[test]
fn trailing_commas_are_refused() {
    assert_eq!(
        parse_str("[1,]"),
        Err(ParseError::UnrecognizedToken { token: (3, Token::RBrack, 4), expected: value_names() })
    );
    assert_eq!(
        parse_str("{\"a\":1,}"),
        Err(ParseError::UnrecognizedToken {
            token: (7, Token::RBrace, 8),
            expected: names(&["\"\\\"\""]),
        })
    );
}

#[test]
fn a_closing_bracket_of_the_other_kind_is_unrecognized() {
    let mut expected = value_names();
    expected.push("\"]\"".to_string());
    assert_eq!(
        parse_str("[}"),
        Err(ParseError::UnrecognizedToken { token: (1, Token::RBrace, 2), expected })
    );
    assert_eq!(
        parse_str("{\"a\": 1]"),
        Err(ParseError::UnrecognizedToken {
            token: (7, Token::RBrack, 8),
            expected: names(&["\",\"", "\"}\""]),
        })
    );
}

#[test]
fn a_token_behind_the_document_is_extra() {
    assert_eq!(
        parse_str("1 2"),
        Err(ParseError::ExtraToken { token: (2, Token::Number("2"), 3) })
    );
    assert_eq!(parse_str("[] ]"), Err(ParseError::ExtraToken { token: (3, Token::RBrack, 4) }));
    assert_eq!(parse_str("\"a\"\"b\""), Err(ParseError::ExtraToken { token: (3, Token::Quote, 4) }));
}

#[test]
fn an_unterminated_string_is_reported_with_its_span() {
    assert_eq!(
        parse_str("\"string with missing end quote"),
        Err(ParseError::User {
            error: CompilationError::UnterminatedStringLiteral { span: Span { start: 0, end: 30 } },
        })
    );
    assert_eq!(
        parse_str("{\"a\": [1, \"b"),
        Err(ParseError::User {
            error: CompilationError::UnterminatedStringLiteral { span: Span { start: 10, end: 12 } },
        })
    );
    assert_eq!(
        parse_str("\""),
        Err(ParseError::User {
            error: CompilationError::UnterminatedStringLiteral { span: Span { start: 0, end: 1 } },
        })
    );
}

#[test]
fn a_control_byte_in_a_string_is_a_lexical_error_of_that_byte() {
    assert_eq!(
        parse_str("[\"ab\u{7}cd\"]"),
        Err(ParseError::User {
            error: CompilationError::LexicalError { span: Span { start: 4, end: 5 } },
        })
    );
    assert_eq!(
        parse_str("\"\t\""),
        Err(ParseError::User {
            error: CompilationError::LexicalError { span: Span { start: 1, end: 2 } },
        })
    );
}

#[test]
fn an_unknown_escape_is_a_lexical_error() {
    assert_eq!(
        parse_str(r#"{"k": "a\x"}"#),
        Err(ParseError::User {
            error: CompilationError::LexicalError { span: Span { start: 8, end: 10 } },
        })
    );
    assert_eq!(
        parse_str(r#""\u12""#),
        Err(ParseError::User {
            error: CompilationError::LexicalError { span: Span { start: 2, end: 5 } },
        })
    );
}

#[test]
fn an_unknown_character_is_a_lexical_error() {
    assert_eq!(
        parse_str("ï¿½"),
        Err(ParseError::User {
            error: CompilationError::LexicalError { span: Span { start: 0, end: 2 } },
        })
    );
    assert_eq!(
        parse_str("[nul]"),
        Err(ParseError::User {
            error: CompilationError::LexicalError { span: Span { start: 1, end: 2 } },
        })
    );
}

#[test]
fn the_first_problem_in_the_order_of_the_input_is_reported() {
    assert_eq!(
        parse_str("] \"abc"),
        Err(ParseError::UnrecognizedToken { token: (0, Token::RBrack, 1), expected: value_names() })
    );
    assert_eq!(
        parse_str("\"a\u{1}b"),
        Err(ParseError::User {
            error: CompilationError::LexicalError { span: Span { start: 2, end: 3 } },
        })
    );
    assert_eq!(
        parse_str("1 ?"),
        Err(ParseError::User {
            error: CompilationError::LexicalError { span: Span { start: 2, end: 3 } },
        })
    );
}

#[test]
fn the_machine_takes_items_one_by_one() {
    let mut stream = TokenStream::new("[\"a\"]");
    let mut parser = Parser::new();
    while let Some(item) = stream.next_item() {
        parser = parser.feed(item).unwrap();
    }
    assert_eq!(parser.finish(), Ok(Value::Array(vec![Value::String("a")])));
}

#[test]
fn the_machine_hands_on_an_error_of_the_caller() {
    let parser = Parser::new();
    let parser = parser.feed(Ok((0, Token::LBrack, 1))).unwrap();
    let error = CompilationError::NumericalError { span: Span { start: 1, end: 6 } };
    match parser.feed(Err(error)) {
        Err(found) => assert_eq!(found, ParseError::User { error }),
        Ok(_) => panic!("the error was not handed on"),
    }
}

#[test]
fn the_machine_has_no_place_for_the_marker_tokens() {
    match Parser::new().feed(Ok((0, Token::EndOfInput, 0))) {
        Err(found) => assert_eq!(
            found,
            ParseError::UnrecognizedToken {
                token: (0, Token::EndOfInput, 0),
                expected: value_names(),
            }
        ),
        Ok(_) => panic!("the marker was taken"),
    }
    match Parser::new().feed(Ok((0, Token::Error, 1))) {
        Err(found) => assert_eq!(
            found,
            ParseError::UnrecognizedToken { token: (0, Token::Error, 1), expected: value_names() }
        ),
        Ok(_) => panic!("the marker was taken"),
    }
}

#[test]
fn a_fresh_machine_has_no_document() {
    assert_eq!(
        Parser::new().finish(),
        Err(ParseError::UnrecognizedEOF { location: 0, expected: value_names() })
    );
}

#[test]
fn expected_names_of_each_phase() {
    assert_eq!(expected_names(Phase::Value), value_names());
    assert_eq!(expected_names(Phase::FirstItem).len(), 8);
    assert_eq!(expected_names(Phase::FirstKey), names(&["\"\\\"\"", "\"}\""]));
    assert_eq!(expected_names(Phase::Key), names(&["\"\\\"\""]));
    assert_eq!(expected_names(Phase::Colon), names(&["\":\""]));
    assert_eq!(expected_names(Phase::ArrayNext), names(&["\",\"", "\"]\""]));
    assert_eq!(expected_names(Phase::ObjectNext), names(&["\",\"", "\"}\""]));
    assert_eq!(expected_names(Phase::KeyStart), names(&["String", "\"\\\"\""]));
    assert_eq!(expected_names(Phase::StringStart), names(&["String", "\"\\\"\""]));
    assert_eq!(expected_names(Phase::KeyEnd), names(&["\"\\\"\""]));
    assert_eq!(expected_names(Phase::StringEnd), names(&["\"\\\"\""]));
    assert_eq!(expected_names(Phase::Done), names(&[]));
}

#[test]
fn rendering_is_canonical() {
    assert_eq!(Value::Null.render(), "null");
    assert_eq!(Value::Bool(true).render(), "true");
    assert_eq!(Value::Bool(false).render(), "false");
    assert_eq!(Value::Number("-1.5e3").render(), "-1.5e3");
    assert_eq!(Value::String("").render(), "\"\"");
    assert_eq!(Value::String(r#"a\"b"#).render(), r#""a\"b""#);
    assert_eq!(Value::Array(vec![]).render(), "[]");
    assert_eq!(Value::Object(vec![]).render(), "{}");
    assert_eq!(
        Value::Array(vec![Value::Number("1"), Value::Null, Value::Array(vec![])]).render(),
        "[1, null, []]"
    );
    assert_eq!(
        Value::Object(vec![("k", Value::Number("1")), ("k2", Value::String("v"))]).render(),
        "{\"k\": 1, \"k2\": \"v\"}"
    );
}

#[test]
fn stringify_gives_the_canonical_text() {
    let value = parse_str("{\"a\":[1,2,{\"b\":null}],\"c\":\"d\"}").unwrap();
    assert_eq!(json_pop::stringify(&value), "{\"a\": [1, 2, {\"b\": null}], \"c\": \"d\"}");
}

#[test]
fn rendering_parses_back_to_the_same_value() {
    let documents = [
        "null",
        "[]",
        " { } ",
        "-0.0e-0",
        "\"\u{e9}\\u00e9\\n\"",
        "[[[[]]]]",
        "{\"a\":1,\"a\":2}",
        "{ \"k\" : [ 1 , 2.5 , \"x\" , { \"\" : [ true , false , null ] } ] }",
    ];
    for document in documents.iter() {
        let value = parse_str(document).unwrap();
        let text = value.render();
        assert_eq!(parse_str(&text), Ok(parse_str(document).unwrap()));
        assert_eq!(parse_str(&text).unwrap().render(), text);
    }
}

#[test]
fn a_source_hands_on_its_result() {
    let source = Source::from("[1]");
    assert_eq!(source.as_str(), "[1]");
    assert_eq!(source.source().as_str(), "[1]");
    let parsed = source.parse();
    assert_eq!(parsed.source_ctxt.as_str(), "[1]");
    assert_eq!(parsed.handle_errors().unwrap(), Value::Array(vec![Value::Number("1")]));
    let source = Source::from("[1");
    match source.parse().handle_errors() {
        Err(JsonPopError::Parse(error)) => assert_eq!(
            error,
            ParseError::UnrecognizedEOF {
                location: 2,
                expected: names(&["\",\"", "\"]\""]),
            }
        ),
        other => panic!("{:?}", other),
    }
}

#[test]
fn should_fail_tells_the_two_kinds_of_test() {
    assert!(!Test::TestValid(Source::from("1")).should_fail());
    assert!(Test::TestInvalid(Source::from("1")).should_fail());
}

#[test]
fn a_test_knows_its_source() {
    assert_eq!(Test::TestValid(Source::from("1")).source().as_str(), "1");
    assert_eq!(Test::TestInvalid(Source::from("?")).source().as_str(), "?");
}

#[test]
fn an_invalid_source_that_parses_is_a_test_error() {
    let test = Test::TestInvalid(Source::from("[]"));
    match test.parse().handle_errors() {
        Err(JsonPopError::TestError(TestError::InvalidSourceParsedOk(value, source))) => {
            assert_eq!(value, Value::Array(vec![]));
            assert_eq!(source.as_str(), "[]");
        },
        other => panic!("{:?}", other),
    }
}

#[test]
fn a_valid_source_that_fails_is_a_parse_error() {
    let test = Test::TestValid(Source::from("["));
    match test.parse().handle_errors() {
        Err(JsonPopError::Parse(ParseError::UnrecognizedEOF { location, .. })) => {
            assert_eq!(location, 1)
        },
        other => panic!("{:?}", other),
    }
}

#[test]
fn top_level_error_keeps_the_kind() {
    let parse = JsonPopError::Parse(ParseError::InvalidToken { location: 0 });
    assert!(matches!(TopLevelError::from(parse), TopLevelError::ParseError));
    let source = Source::from("1");
    let test = JsonPopError::TestError(TestError::InvalidSourceParsedOk(Value::Null, &source));
    assert!(matches!(TopLevelError::from(test), TopLevelError::TestingError));
    let io = JsonPopError::Io(std::io::Error::new(std::io::ErrorKind::Other, "closed"));
    match TopLevelError::from(io) {
        TopLevelError::Io(error) => {
            assert_eq!(error.kind(), std::io::ErrorKind::Other);
            assert_eq!(format!("{}", error), "closed");
        },
        other => panic!("{:?}", other),
    }
}

#[test]
fn errors_are_wrapped_by_from() {
    let io = std::io::Error::new(std::io::ErrorKind::BrokenPipe, "pipe");
    assert!(matches!(JsonPopError::from(io), JsonPopError::Io(_)));
    let parse = ParseError::InvalidToken { location: 3 };
    match JsonPopError::from(parse) {
        JsonPopError::Parse(error) => assert_eq!(error, ParseError::InvalidToken { location: 3 }),
        other => panic!("{:?}", other),
    }
}

#[test]
fn compilation_errors_carry_their_span() {
    let span = Span { start: 1, end: 4 };
    assert_eq!(CompilationError::LexicalError { span }.span(), span);
    assert_eq!(CompilationError::NumericalError { span }.span(), span);
    assert_eq!(CompilationError::UnterminatedStringLiteral { span }.span(), span);
}

#[test]
fn a_clone_is_equal_to_its_value() {
    let value = parse_str("{\"a\": [1, \"b\", {\"c\": [null, true]}], \"d\": {}}").unwrap();
    let copy = value.clone();
    assert_eq!(copy, value);
    assert_eq!(copy.render(), value.render());
}

#[test]
fn a_number_error_of_the_caller_is_the_error_of_the_parse() {
    let source = "[1, 1e999, ?]";
    let mut stream = TokenStream::new(source);
    let mut parser = Parser::new();
    let mut failure = None;
    while let Some(item) = stream.next_item() {
        let converts = !matches!(item, Ok((_, Token::Number("1e999"), _)));
        match parser.feed(json_pop::lex::number_checked(item, converts)) {
            Ok(next) => parser = next,
            Err(error) => {
                failure = Some(error);
                break;
            },
        }
    }
    assert_eq!(
        failure,
        Some(ParseError::User {
            error: CompilationError::NumericalError { span: Span { start: 4, end: 9 } },
        })
    );
}

#[test]
fn the_grammar_has_a_place_for_a_token_or_not() {
    assert!(takes(Phase::Value, Token::Number("1")));
    assert!(takes(Phase::Value, Token::LBrack));
    assert!(!takes(Phase::Value, Token::RBrack));
    assert!(takes(Phase::FirstItem, Token::RBrack));
    assert!(!takes(Phase::FirstItem, Token::RBrace));
    assert!(takes(Phase::FirstKey, Token::RBrace));
    assert!(!takes(Phase::Key, Token::RBrace));
    assert!(takes(Phase::Colon, Token::Colon));
    assert!(!takes(Phase::Colon, Token::Comma));
    assert!(takes(Phase::ArrayNext, Token::Comma));
    assert!(takes(Phase::ObjectNext, Token::RBrace));
    assert!(!takes(Phase::ObjectNext, Token::RBrack));
    assert!(takes(Phase::StringStart, Token::String("a")));
    assert!(!takes(Phase::StringEnd, Token::String("a")));
    assert!(takes(Phase::KeyEnd, Token::Quote));
    assert!(!takes(Phase::Done, Token::Null));
    assert!(!takes(Phase::Value, Token::Error));
    assert!(!takes(Phase::Value, Token::EndOfInput));
}

#[test]
fn tokens_have_names() {
    assert_eq!(Token::Number("1").name(), "Number");
    assert_eq!(Token::String("a").name(), "String");
    assert_eq!(Token::Quote.name(), "\"\\\"\"");
    assert_eq!(Token::True.name(), "\"true\"");
    assert_eq!(Token::False.name(), "\"false\"");
    assert_eq!(Token::Null.name(), "\"null\"");
    assert_eq!(Token::LBrace.name(), "\"{\"");
    assert_eq!(Token::RBrace.name(), "\"}\"");
    assert_eq!(Token::LBrack.name(), "\"[\"");
    assert_eq!(Token::RBrack.name(), "\"]\"");
    assert_eq!(Token::Colon.name(), "\":\"");
    assert_eq!(Token::Comma.name(), "\",\"");
    assert_eq!(Token::Error.name(), "Error");
    assert_eq!(Token::EndOfInput.name(), "EndOfInput");
}
