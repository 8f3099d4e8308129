//! Diagnostics: what to say of a parse error, and where in the source.

use crate::error::CompilationError;
use crate::parser::{names_view, ParseError, ParseErrorModel};
use crate::span::Span;
use vstd::prelude::*;
use vstd::string::StringExecFns;

verus! {

/// A message about a source, with the span it is about and what to say
/// at that span.
#[derive(Debug)]
pub struct Diagnostic<'a> {
    /// The name under which the source is shown.
    pub filename: &'a str,
    /// The source text.
    pub source: &'a str,
    /// What went wrong.
    pub message: String,
    /// Where it went wrong.
    pub span: Span,
    /// What to say at the span; empty where there is nothing to add.
    pub label: String,
}

/// The first `count` of `names`, a comma and a space between them.
pub open spec fn join_names(names: Seq<Seq<char>>, count: nat) -> Seq<char>
    decreases count,
{
    if count == 0 || count > names.len() {
        Seq::empty()
    } else if count == 1 {
        names[0]
    } else {
        join_names(names, (count - 1) as nat) + ", "@ + names[count - 1]
    }
}

/// The sentence that lists what was expected: `Expected: a` for one
/// name, `Expected: a or b` for two, `Expected: a, b, or c` for more. With
/// no name there is nothing to list, and the sentence says so.
pub open spec fn join_expected_text(names: Seq<Seq<char>>) -> Seq<char> {
    if names.len() == 0 {
        "Had great expectations?"@
    } else if names.len() == 1 {
        "Expected: "@ + names[0]
    } else if names.len() == 2 {
        "Expected: "@ + names[0] + " or "@ + names[1]
    } else {
        "Expected: "@ + join_names(names, (names.len() - 1) as nat) + ", or "@ + names.last()
    }
}

/// The sentence that lists what was expected.
pub fn join_expected(expected: &Vec<String>) -> (text: String)
    ensures
        text@ == join_expected_text(names_view(expected@)),
{
    let ghost names = names_view(expected@);
    let count = expected.len();
    if count == 0 {
        return "Had great expectations?".to_owned();
    }
    let mut text = "Expected: ".to_owned();
    text.append(expected[0].as_str());
    if count == 1 {
        return text;
    }
    if count == 2 {
        text.append(" or ");
        text.append(expected[1].as_str());
        return text;
    }
    let mut i: usize = 1;
    while i < count - 1
        invariant
            count == expected@.len(),
            names == names_view(expected@),
            count > 2,
            1 <= i <= count - 1,
            text@ == "Expected: "@ + join_names(names, i as nat),
        decreases count - i,
    {
        text.append(", ");
        text.append(expected[i].as_str());
        i = i + 1;
        assert(text@ =~= "Expected: "@ + join_names(names, i as nat));
    }
    text.append(", or ");
    text.append(expected[count - 1].as_str());
    text
}

/// The decimal digit `d`.
pub open spec fn digit_text(d: nat) -> Seq<char> {
    if d == 0 {
        "0"@
    } else if d == 1 {
        "1"@
    } else if d == 2 {
        "2"@
    } else if d == 3 {
        "3"@
    } else if d == 4 {
        "4"@
    } else if d == 5 {
        "5"@
    } else if d == 6 {
        "6"@
    } else if d == 7 {
        "7"@
    } else if d == 8 {
        "8"@
    } else {
        "9"@
    }
}

/// The number `n` in decimal digits.
pub open spec fn decimal_text(n: nat) -> Seq<char>
    decreases n,
{
    if n < 10 {
        digit_text(n)
    } else {
        decimal_text(n / 10) + digit_text(n % 10)
    }
}

fn digit(d: usize) -> (text: &'static str)
    requires
        d < 10,
    ensures
        text@ == digit_text(d as nat),
{
    if d == 0 {
        "0"
    } else if d == 1 {
        "1"
    } else if d == 2 {
        "2"
    } else if d == 3 {
        "3"
    } else if d == 4 {
        "4"
    } else if d == 5 {
        "5"
    } else if d == 6 {
        "6"
    } else if d == 7 {
        "7"
    } else if d == 8 {
        "8"
    } else {
        "9"
    }
}

/// The number `n` in decimal digits.
pub fn decimal(n: usize) -> (text: String)
    ensures
        text@ == decimal_text(n as nat),
{
    let mut text = digit(n % 10).to_owned();
    let mut rest = n / 10;
    while rest > 0
        invariant
            decimal_text(n as nat) == if rest == 0 {
                text@
            } else {
                decimal_text(rest as nat) + text@
            },
        decreases rest,
    {
        let mut longer = digit(rest % 10).to_owned();
        longer.append(text.as_str());
        assert(rest / 10 > 0 ==> decimal_text(rest as nat) + text@ =~= decimal_text(
            (rest / 10) as nat,
        ) + longer@);
        text = longer;
        rest = rest / 10;
    }
    text
}

/// The name of an error's kind.
pub open spec fn kind_text(error: CompilationError) -> Seq<char> {
    match error {
        CompilationError::LexicalError { .. } => "LexicalError"@,
        CompilationError::NumericalError { .. } => "NumericalError"@,
        CompilationError::UnterminatedStringLiteral { .. } => "UnterminatedStringLiteral"@,
    }
}

/// What is said of an error of the stream: its kind and its span, as in
/// `LexicalError { span: 3..5 }`.
pub open spec fn describe_text(error: CompilationError) -> Seq<char> {
    kind_text(error) + " { span: "@ + decimal_text(error.span().start as nat) + ".."@
        + decimal_text(error.span().end as nat) + " }"@
}

/// What is said of an error of the stream.
pub fn describe(error: CompilationError) -> (text: String)
    ensures
        text@ == describe_text(error),
{
    let mut text = match error {
        CompilationError::LexicalError { .. } => "LexicalError".to_owned(),
        CompilationError::NumericalError { .. } => "NumericalError".to_owned(),
        CompilationError::UnterminatedStringLiteral { .. } => "UnterminatedStringLiteral".to_owned(),
    };
    let span = error.span();
    text.append(" { span: ");
    text.append(decimal(span.start).as_str());
    text.append("..");
    text.append(decimal(span.end).as_str());
    text.append(" }");
    text
}

/// The message of the diagnostic for `error`.
pub open spec fn message_text(error: ParseErrorModel) -> Seq<char> {
    match error {
        ParseErrorModel::InvalidToken { .. } => "Invalid token"@,
        ParseErrorModel::UnrecognizedEOF { .. } => "Unexpected EOF"@,
        ParseErrorModel::UnrecognizedToken { .. } => "Unrecognized token"@,
        ParseErrorModel::ExtraToken { .. } => "Extra token"@,
        ParseErrorModel::User { error } => describe_text(error),
    }
}

/// The span of the diagnostic for `error`: empty at the location where
/// no token could be made or the input ended, the whole token where a
/// token is out of place, and the error's own span for an error of the
/// stream.
pub open spec fn primary_span(error: ParseErrorModel) -> Span {
    match error {
        ParseErrorModel::InvalidToken { location } => Span { start: location, end: location },
        ParseErrorModel::UnrecognizedEOF { location, .. } => Span {
            start: location,
            end: location,
        },
        ParseErrorModel::UnrecognizedToken { token, .. } => Span { start: token.0, end: token.2 },
        ParseErrorModel::ExtraToken { token } => Span { start: token.0, end: token.2 },
        ParseErrorModel::User { error } => error.span(),
    }
}

/// What the diagnostic for `error` says at its span: what was expected,
/// where the error holds that.
pub open spec fn label_text(error: ParseErrorModel) -> Seq<char> {
    match error {
        ParseErrorModel::UnrecognizedEOF { expected, .. } => join_expected_text(expected),
        ParseErrorModel::UnrecognizedToken { expected, .. } => join_expected_text(expected),
        _ => Seq::empty(),
    }
}

/// The diagnostic for `error`, found in the source `data` that is shown
/// under the name `filename`.
pub fn from_parse_error<'a>(filename: &'a str, data: &'a str, error: &ParseError<'a>) -> (diagnostic:
    Diagnostic<'a>)
    ensures
        diagnostic.filename == filename,
        diagnostic.source == data,
        diagnostic.message@ == message_text(error@),
        diagnostic.span == primary_span(error@),
        diagnostic.label@ == label_text(error@),
{
    match error {
        ParseError::InvalidToken { location } => Diagnostic {
            filename,
            source: data,
            message: "Invalid token".to_owned(),
            span: Span::point(*location),
            label: String::new(),
        },
        ParseError::UnrecognizedEOF { location, expected } => Diagnostic {
            filename,
            source: data,
            message: "Unexpected EOF".to_owned(),
            span: Span::point(*location),
            label: join_expected(expected),
        },
        ParseError::UnrecognizedToken { token, expected } => Diagnostic {
            filename,
            source: data,
            message: "Unrecognized token".to_owned(),
            span: Span::new(token.0, token.2),
            label: join_expected(expected),
        },
        ParseError::ExtraToken { token } => Diagnostic {
            filename,
            source: data,
            message: "Extra token".to_owned(),
            span: Span::new(token.0, token.2),
            label: String::new(),
        },
        ParseError::User { error } => Diagnostic {
            filename,
            source: data,
            message: describe(*error),
            span: error.span(),
            label: String::new(),
        },
    }
}

} // verus!
