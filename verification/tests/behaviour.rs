use nuparu::configuration::{Configuration, plugin_defaults};
use nuparu::formatter::format_text;
use nuparu::line_formatter;

#[test]
fn default_configuration_values() {
    let config = Configuration::default();
    assert_eq!(config.indent_width, 2);
    assert_eq!(config.max_blank_lines, 1);
    assert_eq!(config.line_width, 80);
}

#[test]
fn plugin_defaults_follow_the_global_settings() {
    let config = plugin_defaults(None, None);
    assert_eq!((config.indent_width, config.max_blank_lines, config.line_width), (2, 1, 80));
    let config = plugin_defaults(Some(4), Some(120));
    assert_eq!((config.indent_width, config.max_blank_lines, config.line_width), (4, 1, 120));
    let config = plugin_defaults(Some(3), Some(70_000));
    assert_eq!(config.line_width, 4464);
}

#[test]
fn rejected_source_is_returned_unchanged() {
    let input = "echo )\r\n   ls   |  sort\n";
    assert_eq!(format_text(input, &Configuration::default()), input);
}

#[test]
fn crlf_line_breaks_become_lf() {
    let input = "def greet [] {\r\nprint \"hi\"\r\n}\r\n";
    assert_eq!(
        format_text(input, &Configuration::default()),
        "def greet [] {\n  print \"hi\"\n}\n"
    );
}

#[test]
fn blank_lines_capped_by_configuration() {
    let config = Configuration { indent_width: 4, max_blank_lines: 0, line_width: 80 };
    assert_eq!(format_text("ls\n\n\nls\n", &config), "ls\nls\n");
    let config = Configuration { indent_width: 4, max_blank_lines: 2, line_width: 80 };
    assert_eq!(format_text("ls\n\n\n\n\nls\n", &config), "ls\n\n\nls\n");
}

#[test]
fn indentation_follows_indent_width() {
    let config = Configuration { indent_width: 4, max_blank_lines: 1, line_width: 80 };
    assert_eq!(
        format_text("def a [] {\nif true {\nls\n}\n}\n", &config),
        "def a [] {\n    if true {\n        ls\n    }\n}\n"
    );
}

#[test]
fn joining_counts_line_width_in_bytes() {
    // 7 bytes + 1 + 72 bytes = 80: joined.
    let fits = format!("let a =\n  \"{}\"\n", "x".repeat(70));
    assert_eq!(
        format_text(&fits, &Configuration::default()),
        format!("let a = \"{}\"\n", "x".repeat(70))
    );
    // One two-byte character makes the joined line 81 bytes: kept apart.
    let too_wide = format!("let a =\n  \"{}é\"\n", "x".repeat(69));
    assert_eq!(format_text(&too_wide, &Configuration::default()), too_wide);
}

#[test]
fn statement_heads_start_new_lines() {
    assert_eq!(
        format_text("ls let x = 1\n", &Configuration::default()),
        "ls\nlet x = 1\n"
    );
    assert_eq!(
        format_text("if true { ls } else if false { ls }\n", &Configuration::default()),
        "if true { ls } else if false { ls }\n"
    );
}

#[test]
fn print_splits_only_after_a_string() {
    assert_eq!(
        format_text("print \"a\" print \"b\"\n", &Configuration::default()),
        "print \"a\"\nprint \"b\"\n"
    );
    assert_eq!(
        format_text("help print\n", &Configuration::default()),
        "help print\n"
    );
}

#[test]
fn separators_get_spaces_in_records_and_lists() {
    assert_eq!(
        format_text("let r = {a:1,b:2}\nlet l = [1,2]\n", &Configuration::default()),
        "let r = {a: 1,b: 2 }\nlet l = [1, 2]\n"
    );
}

#[test]
fn line_formatter_keeps_missing_final_newline() {
    let config = Configuration::default();
    assert_eq!(line_formatter::format_text("ls\n\n\n", &config), "ls\n\n");
    assert_eq!(line_formatter::format_text("ls\n\n\nls", &config), "ls\n\nls");
    assert_eq!(line_formatter::format_text("", &config), "");
}

#[test]
fn line_formatter_spaces_commas_and_quotes() {
    let config = Configuration::default();
    assert_eq!(
        line_formatter::format_text("[1 ,2,   3]  'a  b'   \"c\\\"d\"", &config),
        "[1, 2, 3] 'a  b' \"c\\\"d\""
    );
}

#[test]
fn line_formatter_caps_blank_lines() {
    let config = Configuration { indent_width: 2, max_blank_lines: 0, line_width: 80 };
    assert_eq!(line_formatter::format_text("a\n\n\nb\n", &config), "a\nb\n");
}

fn visible(s: &str) -> String {
    s.chars().filter(|c| !c.is_whitespace()).collect()
}

#[test]
fn formatting_keeps_the_visible_characters() {
    let config = Configuration::default();
    for input in [
        "ls   |where size > 10| sort-by name   # comment",
        "def greet [] {\r\nprint \"hi\"\r\n}\r\n",
        "let parsed =\n($line | parse --regex \"x\")\n",
        "if\n(\n$raw_value | str starts-with \"~/\"\n)\n{\n$env.HOME\n}\n",
        "let s = \"a\n   b  \n\"\nls\n\n\n\n",
    ] {
        assert_eq!(visible(&format_text(input, &config)), visible(input));
    }
}

#[test]
fn line_formatter_keeps_the_visible_characters() {
    let config = Configuration::default();
    for input in ["ls   |where size > 10|   sort-by name   # comment\n", "def a [] {\nlet x = [1,2 ,3]\n}\n\n\n"] {
        assert_eq!(visible(&line_formatter::format_text(input, &config)), visible(input));
    }
}

#[test]
fn double_bar_after_a_spaced_closure_signature_is_not_split() {
    let text: Vec<char> = "{ |x| $x || true }".chars().collect();
    let out: String = nuparu::spacing::restore_separator_spaces(&text).into_iter().collect();
    assert_eq!(out, "{ |x| $x || true }");
}

#[test]
fn blank_lines_inside_multiline_strings_are_kept() {
    let input = "let s = \"a\n\n\nb\"\n";
    assert_eq!(format_text(input, &Configuration::default()), input);
}

#[test]
fn formatting_from_tokens_matches_format_text() {
    let input = "ls   |where size > 10\n";
    let lexed = nuparu::nushell::lex_document(input);
    let chars: Vec<char> = input.chars().collect();
    let out: String = nuparu::formatter::format_lexed(&chars, &lexed.tokens, &Configuration::default())
        .into_iter()
        .collect();
    assert_eq!(out, "ls | where size > 10\n");
}

#[test]
fn collapsing_whitespace_twice_changes_nothing_more() {
    let text: Vec<char> = "  ls   |  where \"a   b\"  \t x  ".chars().collect();
    let once = nuparu::spacing::normalize_inline_whitespace(&text);
    let twice = nuparu::spacing::normalize_inline_whitespace(&once);
    assert_eq!(once, twice);
    assert_eq!(once.iter().collect::<String>(), "ls | where \"a   b\" x");
}

#[test]
fn source_lines_give_the_source_back() {
    let text: Vec<char> = "a\n\nbé c\nd".chars().collect();
    let lines = nuparu::lines::source_lines(&text);
    let mut joined = String::new();
    for line in &lines {
        joined.extend(&text[line.text_start..line.text_end]);
        if line.has_newline {
            joined.push('\n');
        }
    }
    assert_eq!(joined, "a\n\nbé c\nd");
    assert_eq!((lines[2].start, lines[2].end), (3, 8));
}

#[test]
fn line_formatter_keeps_a_missing_final_newline() {
    let config = Configuration::default();
    assert_eq!(line_formatter::format_text("ls\n\n", &config), "ls\n\n");
    assert_eq!(line_formatter::format_text("ls\n\n  ", &config), "ls");
}

#[test]
fn statement_keywords_start_indented_lines() {
    let text: Vec<char> = "let x = 1 let y = 2".chars().collect();
    let out: String = nuparu::spacing::split_reserved_statement_heads(&text, 2).into_iter().collect();
    assert_eq!(out, "let x = 1\n  let y = 2");
}

#[test]
fn long_lists_keep_their_inner_lines() {
    let text: Vec<char> = "let x = [\n1\n2\n3\n4\n5\n6\n]\n".chars().collect();
    let lines = nuparu::lines::source_lines(&text);
    let flags = nuparu::lines::preserved_multiline_list_lines(&text, &lines);
    assert_eq!(flags, vec![false, true, true, true, true, true, true, false]);
}

#[test]
fn one_blank_line_in_a_string_is_within_the_cap() {
    let input = "let s = \"a\n\nb\"\n\n\n\nls\n";
    assert_eq!(format_text(input, &Configuration::default()), "let s = \"a\n\nb\"\n\nls\n");
}
