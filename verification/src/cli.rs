//! What the `nuparu` command and its `dprint` plugin decide: which run a
//! command line asks for, and what a plugin format request answers.
use vstd::prelude::*;

use crate::configuration::Configuration;
use crate::formatter::{format_spec, format_text};
use crate::text::{chars_of, contains_chars, contains_text, string_of, text_eq};

verus! {

/// The outcome of a run of the command: its exit code and what it prints.
#[derive(Debug)]
pub struct CliRun {
    pub exit_code: i32,
    pub stdout: String,
    pub stderr: String,
}

/// What a command line asks for: a finished run, or the rewriting of files in place.
#[derive(Debug)]
pub enum CliStep {
    Finished(CliRun),
    RewriteFiles(Vec<String>),
}

/// The flags that ask for files to be rewritten in place.
pub open spec fn is_write_flag(arg: Seq<char>) -> bool {
    arg == "--write"@ || arg == "-w"@
}

fn is_write_arg(arg: &String) -> (b: bool)
    ensures
        b == is_write_flag(arg@),
{
    let chars = chars_of(arg.as_str());
    text_eq(chars.as_slice(), chars_of("--write").as_slice()) || text_eq(
        chars.as_slice(),
        chars_of("-w").as_slice(),
    )
}

/// Decides a run of the command from its arguments: with none, `stdin` is
/// formatted to standard output; `--write` (or `-w`) with paths asks for
/// those files to be rewritten, and without paths is an error; any other
/// argument is an error.
pub fn run_cli_with_formatter<F: Fn(&str) -> String>(args: &[String], stdin: &str, format: F) -> (res:
    CliStep)
    requires
        args@.len() == 0 ==> format.requires((stdin,)),
    ensures
        args@.len() == 0 ==> (res matches CliStep::Finished(run) && run.exit_code == 0
            && format.ensures((stdin,), run.stdout) && run.stderr@ == Seq::<char>::empty()),
        args@.len() == 1 && is_write_flag(args@[0]@) ==> (res matches CliStep::Finished(run)
            && run.exit_code == 1 && run.stdout@ == Seq::<char>::empty() && run.stderr@
            == "nuparu --write requires at least one file path.\n"@),
        args@.len() > 1 && is_write_flag(args@[0]@) ==> (res matches CliStep::RewriteFiles(paths)
            && paths@.len() == args@.len() - 1 && forall|k: int|
            0 <= k < paths@.len() ==> #[trigger] paths@[k]@ == args@[k + 1]@),
        args@.len() > 0 && !is_write_flag(args@[0]@) ==> (res matches CliStep::Finished(run)
            && run.exit_code == 1 && run.stdout@ == Seq::<char>::empty() && run.stderr@
            == "nuparu does not support command-line arguments yet.\n"@),
{
    if args.len() == 0 {
        return CliStep::Finished(
            CliRun { exit_code: 0, stdout: format(stdin), stderr: String::new() },
        );
    }
    if is_write_arg(&args[0]) {
        if args.len() == 1 {
            return CliStep::Finished(
                CliRun {
                    exit_code: 1,
                    stdout: String::new(),
                    stderr: string_of(
                        chars_of("nuparu --write requires at least one file path.\n").as_slice(),
                    ),
                },
            );
        }
        let mut paths: Vec<String> = Vec::new();
        let mut k: usize = 1;
        while k < args.len()
            invariant
                1 <= k <= args@.len(),
                paths@.len() == k - 1,
                forall|m: int| 0 <= m < paths@.len() ==> #[trigger] paths@[m]@ == args@[m + 1]@,
            decreases args.len() - k,
        {
            paths.push(args[k].clone());
            k = k + 1;
        }
        return CliStep::RewriteFiles(paths);
    }
    CliStep::Finished(
        CliRun {
            exit_code: 1,
            stdout: String::new(),
            stderr: string_of(
                chars_of("nuparu does not support command-line arguments yet.\n").as_slice(),
            ),
        },
    )
}

/// What rewriting a file in place writes: the file's text formatted, or
/// `None` when formatting leaves it as it is and the file is not touched.
pub fn rewrite_for_file<F: Fn(&str) -> String>(file_text: &str, format: F) -> (res: Option<String>)
    requires
        format.requires((file_text,)),
    ensures
        res matches Some(s) ==> format.ensures((file_text,), s) && s@ != file_text@,
        res is None ==> exists|f: String| format.ensures((file_text,), f) && f@ == file_text@,
{
    let formatted = format(file_text);
    let same = text_eq(chars_of(formatted.as_str()).as_slice(), chars_of(file_text).as_slice());
    if same {
        None
    } else {
        Some(formatted)
    }
}

/// A text with each `\n` written as `\r\n`, as `str::replace('\n', "\r\n")` does.
pub open spec fn lf_to_crlf(s: Seq<char>) -> Seq<char>
    decreases s.len(),
{
    if s.len() == 0 {
        Seq::empty()
    } else {
        lf_to_crlf(s.drop_last()) + if s.last() == '\n' {
            seq!['\r', '\n']
        } else {
            seq![s.last()]
        }
    }
}

fn crlf_line_breaks(s: &[char]) -> (res: Vec<char>)
    ensures
        res@ == lf_to_crlf(s@),
{
    let mut out: Vec<char> = Vec::new();
    let mut i: usize = 0;
    while i < s.len()
        invariant
            0 <= i <= s.len(),
            out@ == lf_to_crlf(s@.take(i as int)),
        decreases s.len() - i,
    {
        proof {
            assert(s@.take(i + 1).drop_last() =~= s@.take(i as int));
        }
        if s[i] == '\n' {
            out.push('\r');
            out.push('\n');
            proof {
                assert(out@ =~= lf_to_crlf(s@.take(i as int)) + seq!['\r', '\n']);
            }
        } else {
            out.push(s[i]);
        }
        i = i + 1;
    }
    assert(s@.take(s@.len() as int) =~= s@);
    out
}

/// What the plugin answers a request to format a whole file: the formatted
/// text, with `\r\n` line breaks when the file uses them, or `None` when
/// formatting changes nothing.
pub open spec fn plugin_answer(file_text: Seq<char>, config: Configuration) -> Option<Seq<char>> {
    let formatted = format_spec(file_text, config);
    let formatted = if contains_text(file_text, "\r\n"@) {
        lf_to_crlf(formatted)
    } else {
        formatted
    };
    if formatted == file_text {
        None
    } else {
        Some(formatted)
    }
}

/// Formats a whole file for the `dprint` plugin.
pub fn format_for_plugin(file_text: &str, config: &Configuration) -> (res: Option<String>)
    ensures
        res matches Some(s) ==> plugin_answer(file_text@, *config) == Some(s@),
        res is None ==> plugin_answer(file_text@, *config) is None,
{
    let input = chars_of(file_text);
    let formatted = chars_of(format_text(file_text, config).as_str());
    let formatted = if contains_chars(input.as_slice(), chars_of("\r\n").as_slice()) {
        crlf_line_breaks(formatted.as_slice())
    } else {
        formatted
    };
    if text_eq(formatted.as_slice(), input.as_slice()) {
        None
    } else {
        Some(string_of(formatted.as_slice()))
    }
}

} // verus!
