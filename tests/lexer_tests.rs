use exprlex::error::{Error, ErrorKind};
use exprlex::lexer::Lexer;
use exprlex::pretty::{line_col_at, render_error};
use exprlex::span::Span;
use exprlex::token::{Token, TokenType};

fn lex(source: &str) -> Result<Vec<Token>, Error> {
    Lexer::new(source).lex()
}

#[test]
fn scenario_six_tokens() {
    let tokens = lex("x + 5 * y").unwrap();
    assert_eq!(tokens.len(), 6);
    assert!(matches!(&tokens[0].token_type, TokenType::Identifier { name } if name == "x"));
    assert!(matches!(tokens[1].token_type, TokenType::Plus));
    assert!(matches!(&tokens[2].token_type, TokenType::Number { text } if text == "5"));
    assert!(matches!(tokens[3].token_type, TokenType::Mul));
    assert!(matches!(&tokens[4].token_type, TokenType::Identifier { name } if name == "y"));
    assert!(matches!(tokens[5].token_type, TokenType::End));
    assert_eq!(tokens[4].span, Span::new(8, 9));
    assert_eq!(tokens[5].span, Span::new(9, 9));
}

#[test]
fn lone_point_fails_but_half_points_succeed() {
    assert!(matches!(lex(".").unwrap_err().kind, ErrorKind::InvalidNumber));
    let a = lex(".5").unwrap();
    assert!(matches!(&a[0].token_type, TokenType::Number { text } if text == ".5"));
    assert_eq!(a.len(), 2);
    let b = lex("5.").unwrap();
    assert!(matches!(&b[0].token_type, TokenType::Number { text } if text == "5."));
    assert_eq!(b.len(), 2);
}

#[test]
fn number_takes_one_point_only() {
    let t = lex("1.2.3").unwrap();
    assert!(matches!(&t[0].token_type, TokenType::Number { text } if text == "1.2"));
    assert!(matches!(&t[1].token_type, TokenType::Number { text } if text == ".3"));
    assert_eq!(t[1].span, Span::new(3, 5));
}

#[test]
fn empty_and_blank_input_give_only_end() {
    let t = lex("").unwrap();
    assert_eq!(t.len(), 1);
    assert!(matches!(t[0].token_type, TokenType::End));
    assert_eq!(t[0].span, Span::new(0, 0));
    let t = lex("  \t\n ").unwrap();
    assert_eq!(t.len(), 1);
    assert_eq!(t[0].span, Span::new(5, 5));
}

#[test]
fn end_is_last_and_spans_are_ordered() {
    let source = "a_b*(c^2) = {d}-\\times/\\div";
    let t = lex(source).unwrap();
    let ends = t.iter().filter(|k| matches!(k.token_type, TokenType::End)).count();
    assert_eq!(ends, 1);
    assert!(matches!(t.last().unwrap().token_type, TokenType::End));
    for w in t.windows(2) {
        assert!(w[0].span.start <= w[1].span.start);
    }
    for k in &t {
        assert!(k.span.start <= k.span.end && k.span.end <= source.len());
    }
    assert!(matches!(t[t.len() - 4].token_type, TokenType::Mul));
    assert!(matches!(t[t.len() - 3].token_type, TokenType::Div));
    assert!(matches!(t[t.len() - 2].token_type, TokenType::Div));
}

#[test]
fn spans_are_in_bytes() {
    let t = lex("é + λx").unwrap();
    assert!(matches!(&t[0].token_type, TokenType::Identifier { name } if name == "é"));
    assert_eq!(t[0].span, Span::new(0, 2));
    assert_eq!(t[1].span, Span::new(3, 4));
    assert!(matches!(&t[2].token_type, TokenType::Identifier { name } if name == "λx"));
    assert_eq!(t[2].span, Span::new(5, 8));
    assert_eq!(t[3].span, Span::new(8, 8));
}

#[test]
fn commands_resolve_to_operators() {
    let t = lex("2 \\times 3").unwrap();
    assert!(matches!(t[1].token_type, TokenType::Mul));
    assert_eq!(t[1].span, Span::new(2, 8));
    let e = lex("\\").unwrap_err();
    assert!(matches!(&e.kind, ErrorKind::UnknownCommand(n) if n.is_empty()));
    assert_eq!(e.span, Span::new(0, 1));
}

#[test]
fn underscore_cannot_start_identifier() {
    let e = lex("_x").unwrap_err();
    assert!(matches!(e.kind, ErrorKind::UnexpectedCharacter('_')));
    assert_eq!(e.span, Span::new(0, 1));
}

#[test]
fn multibyte_unexpected_character_span() {
    let e = lex("1 € 2").unwrap_err();
    assert!(matches!(e.kind, ErrorKind::UnexpectedCharacter('€')));
    assert_eq!(e.span, Span::new(2, 5));
}

#[test]
fn line_and_column_count_characters() {
    let s = "ab\ncé\nx";
    assert_eq!(line_col_at(s, 0), (1, 1));
    assert_eq!(line_col_at(s, 2), (1, 3));
    assert_eq!(line_col_at(s, 3), (2, 1));
    assert_eq!(line_col_at(s, 6), (2, 3));
    assert_eq!(line_col_at(s, 7), (3, 1));
    assert_eq!(line_col_at(s, 100), (3, 2));
}

#[test]
fn diagnostic_on_second_line() {
    let source = "x\ny + #\n";
    let e = lex(source).unwrap_err();
    let out = render_error(source, &e);
    assert_eq!(out, "error: unexpected character '#'\n --> 2:5\n  |\n 2 | y + #\n  |     ^");
}

#[test]
fn diagnostic_past_end_renders_empty_line() {
    let e = Error { kind: ErrorKind::InvalidNumber, span: Span::new(50, 50) };
    let out = render_error("a\n", &e);
    assert_eq!(out, "error: invalid number literal\n --> 2:1\n  |\n 2 | \n  | ^");
}

#[test]
fn diagnostic_pads_line_number_to_two_columns() {
    let source = "\n\n\n\n\n\n\n\n\n\n\n@";
    let e = lex(source).unwrap_err();
    let out = render_error(source, &e);
    assert_eq!(out, "error: unexpected character '@'\n --> 12:1\n  |\n12 | @\n  | ^");
}

#[test]
fn diagnostic_drops_carriage_return() {
    let source = "1 ?\r\n2";
    let e = lex(source).unwrap_err();
    let out = render_error(source, &e);
    assert!(out.contains(" 1 | 1 ?\n"));
}

#[test]
fn parser_error_message() {
    let e = Error {
        kind: ErrorKind::UnexpectedToken { expected: "number".to_string(), found: "+".to_string() },
        span: Span::new(3, 4),
    };
    let out = render_error("1 + +", &e);
    assert!(out.starts_with("error: expected number, found +\n --> 1:4\n"));
    assert_eq!(e.to_string(), "expected number, but found + at position 3");
}

#[test]
fn error_summaries() {
    let e = lex("x + @").unwrap_err();
    assert_eq!(e.to_string(), "unexpected character '@' at position 4");
    let e = lex("\\foo").unwrap_err();
    assert_eq!(e.to_string(), "unknown command \\foo at position 0");
    let e = lex("  .").unwrap_err();
    assert_eq!(e.to_string(), "invalid number at position 2");
}

#[test]
fn token_descriptions() {
    assert_eq!(TokenType::End.to_string(), "end of input");
    assert_eq!(TokenType::Pow.to_string(), "^");
    assert_eq!(
        TokenType::Number { text: "1".to_string() }.to_string(),
        "number (numeric literal, e.g. 3.14, 42)"
    );
}

#[test]
fn source_is_kept() {
    let lexer = Lexer::new("a + b");
    assert_eq!(lexer.source(), "a + b");
}

#[test]
fn lexing_again_yields_only_end() {
    let mut lexer = Lexer::new("a");
    assert_eq!(lexer.lex().unwrap().len(), 2);
    let again = lexer.lex().unwrap();
    assert_eq!(again.len(), 1);
    assert_eq!(again[0].span, Span::new(1, 1));
}

#[test]
fn nul_character_is_not_end_of_input() {
    let e = lex("a\0b").unwrap_err();
    assert!(matches!(e.kind, ErrorKind::UnexpectedCharacter('\0')));
    assert_eq!(e.span, Span::new(1, 2));
}

#[test]
fn diagnostic_past_end_of_one_line_source_shows_empty_line() {
    let e = Error { kind: ErrorKind::InvalidNumber, span: Span::new(5, 6) };
    let out = render_error("ab", &e);
    assert_eq!(out, "error: invalid number literal\n --> 1:3\n  |\n 1 | \n  |   ^");
}

const OVERFLOW: &str = "179769313486231580793728971405303415079934132710037826936173778980444968292764750946649017977587207096330286416692887910946555547851940402630657488671505820681908902000708383676273854845817711531764475730270069855571366959622842914819860834936475292719074168444365510704342711559699508093042880177904174497792";
const JUST_BELOW: &str = "179769313486231580793728971405303415079934132710037826936173778980444968292764750946649017977587207096330286416692887910946555547851940402630657488671505820681908902000708383676273854845817711531764475730270069855571366959622842914819860834936475292719074168444365510704342711559699508093042880177904174497791";

#[test]
fn number_too_large_for_a_double_is_invalid() {
    let source = "9".repeat(400);
    let e = lex(&source).unwrap_err();
    assert!(matches!(e.kind, ErrorKind::InvalidNumber));
    assert_eq!(e.span, Span::new(0, 400));
    let e = lex(OVERFLOW).unwrap_err();
    assert!(matches!(e.kind, ErrorKind::InvalidNumber));
    assert_eq!(e.span, Span::new(0, 309));
    let padded = format!("x + 00{}.5", OVERFLOW);
    let e = lex(&padded).unwrap_err();
    assert!(matches!(e.kind, ErrorKind::InvalidNumber));
    assert_eq!(e.span, Span::new(4, padded.len()));
}

#[test]
fn number_just_below_overflow_is_kept() {
    let source = format!("{}.999", JUST_BELOW);
    let t = lex(&source).unwrap();
    assert!(matches!(&t[0].token_type, TokenType::Number { text } if *text == source));
    let t = lex(&format!("0.{}", "9".repeat(400))).unwrap();
    assert_eq!(t.len(), 2);
}
