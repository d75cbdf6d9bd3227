use nuparu::configuration::Configuration;
use nuparu::line_formatter::format_text;

#[test]
fn formats_pipelines_and_comments() {
    let input = "ls   |where size > 10| sort-by name   #comment";
    let output = format_text(input, &Configuration::default());
    assert_eq!(output, "ls | where size > 10 | sort-by name #comment");
}

#[test]
fn normalizes_block_indentation() {
    let input = "def greet [] {\nprint \"hi\"\n}\n";
    let output = format_text(input, &Configuration::default());
    assert_eq!(output, "def greet [] {\n  print \"hi\"\n}\n");
}

#[test]
fn preserves_blank_line_limit() {
    let input = "let x = 1\n\n\n\nlet y = 2\n";
    let output = format_text(input, &Configuration::default());
    assert_eq!(output, "let x = 1\n\nlet y = 2\n");
}
