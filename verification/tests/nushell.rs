use nuparu::nushell::{
    LexToken, ParseStage, TokenKind, assert_parses, lex_document, lite_parse_document,
};

#[test]
fn nushell_nushell_full_parser_handles_simple_command() {
    let parsed = assert_parses("inline.nu", "echo hi\n").unwrap();

    assert!(
        !parsed.lexed.tokens.is_empty(),
        "{} should produce tokens",
        "inline.nu"
    );
    assert!(
        !parsed.ast.pipelines.is_empty(),
        "{} should produce at least one AST pipeline",
        "inline.nu"
    );
}

#[test]
fn lexer_tokens_carry_kinds_and_byte_spans() {
    let lexed = lex_document("ls | échö ; # c\n");
    assert!(lexed.lex_error.is_none());
    assert_eq!(
        lexed.tokens,
        vec![
            LexToken { kind: TokenKind::Item, start: 0, end: 2 },
            LexToken { kind: TokenKind::Pipe, start: 3, end: 4 },
            LexToken { kind: TokenKind::Item, start: 5, end: 11 },
            LexToken { kind: TokenKind::Semicolon, start: 12, end: 13 },
            LexToken { kind: TokenKind::Comment, start: 14, end: 17 },
            LexToken { kind: TokenKind::Eol, start: 17, end: 18 },
        ]
    );
}

#[test]
fn lexer_reports_unbalanced_input() {
    let lexed = lex_document("echo )\n");
    assert!(lexed.lex_error.is_some());
}

#[test]
fn lite_parser_accepts_a_pipeline() {
    let parsed = lite_parse_document("ls | length\n");
    assert!(parsed.lex_error.is_none());
    assert!(parsed.lite_error.is_none());
    assert!(!parsed.block.block.is_empty());
}

#[test]
fn parse_failure_names_the_lexer_first() {
    let failure = assert_parses("bad.nu", "echo (\n").unwrap_err();
    assert_eq!(failure.stage, ParseStage::Lex);
}

#[test]
fn lite_parser_reports_shell_or() {
    let parsed = lite_parse_document("ls || ls\n");
    assert!(parsed.lex_error.is_none());
    assert!(parsed.lite_error.is_some());
    let failure = assert_parses("or.nu", "ls || ls\n").unwrap_err();
    assert_eq!(failure.stage, ParseStage::LiteParse);
}

#[test]
fn parse_failure_message_names_file_and_stage() {
    let failure = assert_parses("bad.nu", "echo (\n").unwrap_err();
    assert!(failure.message().starts_with("bad.nu: lex error: "));
    assert_eq!(failure.document.parsed_name.as_deref(), Some("bad.nu"));
    assert_eq!(failure.document.parsed_text, "echo (\n");
}
