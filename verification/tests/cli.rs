use nuparu::cli::{CliStep, format_for_plugin, rewrite_for_file, run_cli_with_formatter};
use nuparu::formatter::format_text;
use nuparu::configuration::Configuration;

#[test]
fn main_formats_stdin_when_no_arguments_are_provided() {
    let step = run_cli_with_formatter(&[], "echo hi", |_| "formatted".to_string());
    let CliStep::Finished(run) = step else { panic!("expected a finished run") };
    assert_eq!(run.exit_code, 0);
    assert_eq!(run.stdout, "formatted");
    assert_eq!(run.stderr, "");
}

#[test]
fn write_flag_without_paths_is_an_error() {
    let args = vec!["--write".to_string()];
    let CliStep::Finished(run) = run_cli_with_formatter(&args, "", |s| s.to_string()) else {
        panic!("expected a finished run")
    };
    assert_eq!(run.exit_code, 1);
    assert_eq!(run.stdout, "");
    assert_eq!(run.stderr, "nuparu --write requires at least one file path.\n");
}

#[test]
fn short_write_flag_asks_for_the_files_to_be_rewritten() {
    let args = vec!["-w".to_string(), "a.nu".to_string(), "b.nu".to_string()];
    let CliStep::RewriteFiles(paths) = run_cli_with_formatter(&args, "", |s| s.to_string()) else {
        panic!("expected files to rewrite")
    };
    assert_eq!(paths, vec!["a.nu".to_string(), "b.nu".to_string()]);
}

#[test]
fn other_arguments_are_rejected() {
    let args = vec!["--check".to_string()];
    let CliStep::Finished(run) = run_cli_with_formatter(&args, "", |s| s.to_string()) else {
        panic!("expected a finished run")
    };
    assert_eq!(run.exit_code, 1);
    assert_eq!(run.stdout, "");
    assert_eq!(run.stderr, "nuparu does not support command-line arguments yet.\n");
}

#[test]
fn plugin_reports_no_change_for_formatted_text() {
    let config = Configuration::default();
    assert_eq!(format_for_plugin("ls | where size > 10\n", &config), None);
}

#[test]
fn plugin_returns_the_formatted_text() {
    let config = Configuration::default();
    assert_eq!(
        format_for_plugin("ls   |where size > 10\n", &config),
        Some("ls | where size > 10\n".to_string())
    );
}

#[test]
fn plugin_keeps_crlf_line_breaks() {
    let config = Configuration::default();
    assert_eq!(
        format_for_plugin("def greet [] {\r\nprint \"hi\"\r\n}\r\n", &config),
        Some("def greet [] {\r\n  print \"hi\"\r\n}\r\n".to_string())
    );
    assert_eq!(format_for_plugin("ls\r\n", &config), None);
}

#[test]
fn rewrite_skips_files_that_are_already_formatted() {
    let config = Configuration::default();
    assert_eq!(rewrite_for_file("ls | sort-by name\n", |t| format_text(t, &config)), None);
}

#[test]
fn rewrite_writes_the_formatted_text() {
    let config = Configuration::default();
    assert_eq!(
        rewrite_for_file("ls   |sort-by name\n\n\n\nls\n", |t| format_text(t, &config)),
        Some("ls | sort-by name\n\nls\n".to_string())
    );
}

