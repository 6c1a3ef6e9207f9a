use exprlex::error::ErrorKind;
use exprlex::lexer::Lexer;
use exprlex::pretty::render_error;

#[test]
fn test_unexpected_character_error() {
    let source = "x + @";
    let mut lexer = Lexer::new(source);

    let error = lexer.lex().unwrap_err();
    let output = render_error(lexer.source(), &error);

    assert!(output.contains("unexpected character '@'"));
    assert!(output.contains("1:5"));
    assert!(output.contains("x + @"));
    assert!(output.contains("^"));
}

#[test]
fn test_unknown_command_error() {
    let source = "\\unknown + 5";
    let mut lexer = Lexer::new(source);

    let error = lexer.lex().unwrap_err();
    let output = render_error(source, &error);

    assert!(output.contains("unknown command \\unknown"));
    assert!(output.contains("1:1"));
    assert!(output.contains("\\unknown + 5"));
}

#[test]
fn test_invalid_number_error() {
    let source = "x + . + y";
    let mut lexer = Lexer::new(source);

    let error = lexer.lex().unwrap_err();
    let output = render_error(source, &error);

    assert!(output.contains("invalid number"));
    assert!(output.contains("1:5"));
    assert!(output.contains("^"));
}

#[test]
fn test_successful_lexing() {
    let source = "x + 5 * y";
    let mut lexer = Lexer::new(source);

    let tokens = lexer.lex().unwrap();
    assert_eq!(tokens.len(), 6); // x, +, 5, *, y, END
}

#[test]
fn test_error_span_width() {
    let source = "\\unknown";
    let mut lexer = Lexer::new(source);

    let error = lexer.lex().unwrap_err();
    let output = render_error(source, &error);

    // Should have multiple carets for multi-char error
    assert!(output.contains("^^^^^^^^"));
}

#[test]
fn unexpected_character_has_one_byte_span() {
    let mut lexer = Lexer::new("x + @");
    let error = lexer.lex().unwrap_err();
    assert!(matches!(error.kind, ErrorKind::UnexpectedCharacter('@')));
    assert_eq!((error.span.start, error.span.end), (4, 5));
    let output = render_error("x + @", &error);
    assert_eq!(output, "error: unexpected character '@'\n --> 1:5\n  |\n 1 | x + @\n  |     ^");
}

#[test]
fn unknown_command_span_covers_backslash_and_name() {
    let mut lexer = Lexer::new("\\unknown + 5");
    let error = lexer.lex().unwrap_err();
    match &error.kind {
        ErrorKind::UnknownCommand(name) => assert_eq!(name, "unknown"),
        _ => panic!("expected an unknown command"),
    }
    assert_eq!((error.span.start, error.span.end), (0, 8));
}

#[test]
fn lone_point_is_invalid_number_at_offset_four() {
    let mut lexer = Lexer::new("x + . + y");
    let error = lexer.lex().unwrap_err();
    assert!(matches!(error.kind, ErrorKind::InvalidNumber));
    assert_eq!((error.span.start, error.span.end), (4, 5));
}

#[test]
fn unknown_command_renders_eight_carets() {
    let mut lexer = Lexer::new("\\unknown");
    let error = lexer.lex().unwrap_err();
    let output = render_error("\\unknown", &error);
    let last = output.lines().last().unwrap();
    assert_eq!(last.matches('^').count(), 8);
    assert_eq!(last, "  | ^^^^^^^^");
}
