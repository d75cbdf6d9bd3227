//! When a line is joined onto the output line above it, and with what
//! separator: the rejoining rules for assignments, block openers, pipelines,
//! boolean connectors, parameter types, closures and command arguments.
use vstd::prelude::*;

use crate::lines::{
    SourceLine, indent_of, leading_indent, line_text, lines_wf, next_nonempty_content,
    next_nonempty_from, text_of,
};
use crate::text::{
    byte_len, chars_of, contains_char, contains_chars, contains_text, ends_with_char, ends_with_text,
    first_is, is_ascii_alnum, is_ascii_alpha, last_is, starts_with_char, starts_with_text, text_eq,
    trim, trim_chars, trim_start, trim_start_chars, utf8_len,
};

verus! {

/// What goes between two joined lines.
#[derive(Clone, Copy, Debug, PartialEq, Eq, Structural)]
pub enum Separator {
    /// One space.
    Space,
    /// Nothing.
    Adjacent,
}

/// The characters of a separator.
pub open spec fn separator_text(sep: Separator) -> Seq<char> {
    match sep {
        Separator::Space => seq![' '],
        Separator::Adjacent => Seq::empty(),
    }
}

/// A line that starts with `}`, `]` or `)`.
pub open spec fn starts_with_closer_spec(content: Seq<char>) -> bool {
    starts_with_char(content, '}') || starts_with_char(content, ']') || starts_with_char(content, ')')
}

pub fn starts_with_closer(content: &[char]) -> (b: bool)
    ensures
        b == starts_with_closer_spec(content@),
{
    first_is(content, '}') || first_is(content, ']') || first_is(content, ')')
}

/// A line that ends with `{`, `[` or `(`.
pub open spec fn ends_with_opener_spec(content: Seq<char>) -> bool {
    ends_with_char(content, '{') || ends_with_char(content, '[') || ends_with_char(content, '(')
}

pub fn ends_with_opener(content: &[char]) -> (b: bool)
    ensures
        b == ends_with_opener_spec(content@),
{
    last_is(content, '{') || last_is(content, '[') || last_is(content, '(')
}

/// A header that a `{` on the next line joins: `if`, `else if`, `else`,
/// `while`, `for`, `match`, `def`, `export def`, `try` or `do`.
pub open spec fn joins_block_opener(previous: Seq<char>) -> bool {
    !ends_with_char(previous, '{') && ("if "@.is_prefix_of(previous) || "else if "@.is_prefix_of(
        previous,
    ) || previous == "else"@ || "while "@.is_prefix_of(previous) || "for "@.is_prefix_of(previous)
        || "match "@.is_prefix_of(previous) || "def "@.is_prefix_of(previous)
        || "export def "@.is_prefix_of(previous) || previous == "try"@ || previous == "do"@
        || "do "@.is_prefix_of(previous))
}

pub fn can_join_block_opener(previous: &[char]) -> (b: bool)
    ensures
        b == joins_block_opener(previous@),
{
    !last_is(previous, '{') && (starts_with_text(previous, &chars_of("if ")) || starts_with_text(
        previous,
        &chars_of("else if "),
    ) || text_eq(previous, &chars_of("else")) || starts_with_text(previous, &chars_of("while "))
        || starts_with_text(previous, &chars_of("for ")) || starts_with_text(
        previous,
        &chars_of("match "),
    ) || starts_with_text(previous, &chars_of("def ")) || starts_with_text(
        previous,
        &chars_of("export def "),
    ) || text_eq(previous, &chars_of("try")) || text_eq(previous, &chars_of("do"))
        || starts_with_text(previous, &chars_of("do ")))
}

/// Whether, going back from line `k`, a `(` alone on its line comes first and
/// the line before it is a bare `if`, `else if`, `while` or `match`.
pub open spec fn split_header_from(src: Seq<char>, lines: Seq<SourceLine>, k: int, found_open_paren: bool) -> bool
    decreases k,
{
    if k <= 0 || k > lines.len() {
        false
    } else {
        let content = trim(line_text(src, lines[k - 1]));
        if content.len() == 0 {
            split_header_from(src, lines, k - 1, found_open_paren)
        } else if !found_open_paren {
            split_header_from(src, lines, k - 1, content == "("@)
        } else {
            content == "if"@ || content == "else if"@ || content == "while"@ || content == "match"@
        }
    }
}

pub fn follows_split_parenthesized_block_header(src: &[char], lines: &[SourceLine], index: usize) -> (b: bool)
    requires
        lines_wf(src@, lines@),
        index <= lines@.len(),
    ensures
        b == split_header_from(src@, lines@, index as int, false),
{
    let mut found_open_paren = false;
    let mut k: usize = index;
    while k > 0
        invariant
            0 <= k <= index <= lines@.len(),
            lines_wf(src@, lines@),
            split_header_from(src@, lines@, index as int, false) == split_header_from(
                src@,
                lines@,
                k as int,
                found_open_paren,
            ),
        decreases k,
    {
        let content = trim_chars(text_of(src, &lines[k - 1]));
        if content.len() > 0 {
            if !found_open_paren {
                found_open_paren = text_eq(content, &chars_of("("));
            } else {
                return text_eq(content, &chars_of("if")) || text_eq(content, &chars_of("else if"))
                    || text_eq(content, &chars_of("while")) || text_eq(content, &chars_of("match"));
            }
        }
        k = k - 1;
    }
    false
}

/// A line that starts with `and ` or `or `.
pub open spec fn starts_with_connector(content: Seq<char>) -> bool {
    "and "@.is_prefix_of(content) || "or "@.is_prefix_of(content)
}

pub fn starts_with_boolean_connector(content: &[char]) -> (b: bool)
    ensures
        b == starts_with_connector(content@),
{
    starts_with_text(content, &chars_of("and ")) || starts_with_text(content, &chars_of("or "))
}

/// A line that can be a parameter's type: it starts with a letter, `[` or `(`.
pub open spec fn type_continuation(content: Seq<char>) -> bool {
    content.len() > 0 && (is_ascii_alpha(content[0]) || content[0] == '[' || content[0] == '(')
}

pub fn is_type_continuation(content: &[char]) -> (b: bool)
    ensures
        b == type_continuation(content@),
{
    content.len() > 0 && (is_ascii_alpha(content[0]) || content[0] == '[' || content[0] == '(')
}

/// A line that starts an expression: a variable, string, list, record, group,
/// external command, letter or digit.
pub open spec fn simple_expression_start(content: Seq<char>) -> bool {
    content.len() > 0 && {
        let ch = content[0];
        ch == '$' || ch == '"' || ch == '\'' || ch == '[' || ch == '{' || ch == '(' || ch == '^'
            || is_ascii_alnum(ch)
    }
}

pub fn is_simple_expression_start(content: &[char]) -> (b: bool)
    ensures
        b == simple_expression_start(content@),
{
    if content.len() == 0 {
        return false;
    }
    let ch = content[0];
    ch == '$' || ch == '"' || ch == '\'' || ch == '[' || ch == '{' || ch == '(' || ch == '^'
        || is_ascii_alnum(ch)
}

/// A line that starts like a command argument: a flag, variable, group or string.
pub open spec fn argument_start(content: Seq<char>) -> bool {
    "--"@.is_prefix_of(content) || starts_with_char(content, '$') || starts_with_char(content, '(')
        || starts_with_char(content, '"') || starts_with_char(content, '\'')
}

fn is_argument_start(content: &[char]) -> (b: bool)
    ensures
        b == argument_start(content@),
{
    starts_with_text(content, &chars_of("--")) || first_is(content, '$') || first_is(content, '(')
        || first_is(content, '"') || first_is(content, '\'')
}

/// A deeper-indented line that continues a command with an argument; lines
/// with a `:` on either side are left apart.
pub open spec fn command_continuation(content: Seq<char>, previous_output: Seq<char>) -> bool {
    if content.contains(':') || previous_output.contains(':') {
        false
    } else {
        argument_start(content)
    }
}

pub fn is_command_continuation(content: &[char], previous_output: &[char]) -> (b: bool)
    ensures
        b == command_continuation(content@, previous_output@),
{
    if contains_char(content, ':') || contains_char(previous_output, ':') {
        return false;
    }
    is_argument_start(content)
}

/// A line that consists of a closure's parameter list and what follows it.
pub open spec fn closure_signature(content: Seq<char>) -> bool {
    starts_with_char(content, '|') && content.skip(1).contains('|')
}

pub fn is_closure_signature(content: &[char]) -> (b: bool)
    ensures
        b == closure_signature(content@),
{
    first_is(content, '|') && contains_char(&content[1..content.len()], '|')
}

/// Index of the first `{` at or after `i`.
pub open spec fn find_brace_from(t: Seq<char>, i: int) -> Option<int>
    decreases t.len() - i,
{
    if i < 0 || i >= t.len() {
        None
    } else if t[i] == '{' {
        Some(i)
    } else {
        find_brace_from(t, i + 1)
    }
}

/// Whether a line holds a closure's parameter list, at its start or right
/// after its first `{`.
pub open spec fn has_closure_signature(content: Seq<char>) -> bool {
    if closure_signature(trim_start(content)) {
        true
    } else {
        match find_brace_from(content, 0) {
            Some(b) => closure_signature(trim_start(content.skip(b + 1))),
            None => false,
        }
    }
}

pub fn contains_closure_signature(content: &[char]) -> (b: bool)
    ensures
        b == has_closure_signature(content@),
{
    if is_closure_signature(trim_start_chars(content)) {
        return true;
    }
    let mut i: usize = 0;
    while i < content.len()
        invariant
            0 <= i <= content.len(),
            !closure_signature(trim_start(content@)),
            find_brace_from(content@, 0) == find_brace_from(content@, i as int),
        decreases content.len() - i,
    {
        if content[i] == '{' {
            return is_closure_signature(trim_start_chars(&content[i + 1..content.len()]));
        }
        i = i + 1;
    }
    false
}

/// The open `{` positions left after scanning `t` from `i` on.
pub open spec fn brace_stack_from(t: Seq<char>, i: int, stack: Seq<int>) -> Seq<int>
    decreases t.len() - i,
{
    if i < 0 || i >= t.len() {
        stack
    } else if t[i] == '{' {
        brace_stack_from(t, i + 1, stack.push(i))
    } else if t[i] == '}' {
        brace_stack_from(
            t,
            i + 1,
            if stack.len() > 0 {
                stack.drop_last()
            } else {
                stack
            },
        )
    } else {
        brace_stack_from(t, i + 1, stack)
    }
}

/// The position of the last `{` that no `}` closes.
pub open spec fn last_open_brace(t: Seq<char>) -> Option<int> {
    let stack = brace_stack_from(t, 0, Seq::empty());
    if stack.len() > 0 {
        Some(stack.last())
    } else {
        None
    }
}

pub fn last_unmatched_open_brace(content: &[char]) -> (res: Option<usize>)
    ensures
        res matches Some(b) ==> last_open_brace(content@) == Some(b as int) && b < content@.len(),
        res is None ==> last_open_brace(content@) is None,
{
    let mut unmatched_open_braces: Vec<usize> = Vec::new();
    let mut i: usize = 0;
    assert(unmatched_open_braces@.map_values(|b: usize| b as int) =~= Seq::<int>::empty());
    while i < content.len()
        invariant
            0 <= i <= content.len(),
            forall|m: int|
                0 <= m < unmatched_open_braces@.len() ==> unmatched_open_braces@[m] < content@.len(),
            brace_stack_from(content@, 0, Seq::empty()) == brace_stack_from(
                content@,
                i as int,
                unmatched_open_braces@.map_values(|b: usize| b as int),
            ),
        decreases content.len() - i,
    {
        let ghost before = unmatched_open_braces@;
        if content[i] == '{' {
            unmatched_open_braces.push(i);
            assert(unmatched_open_braces@.map_values(|b: usize| b as int) =~= before.map_values(
                |b: usize| b as int,
            ).push(i as int));
        } else if content[i] == '}' {
            unmatched_open_braces.pop();
            assert(unmatched_open_braces@.map_values(|b: usize| b as int) =~= if before.len() > 0 {
                before.map_values(|b: usize| b as int).drop_last()
            } else {
                before.map_values(|b: usize| b as int)
            });
        }
        i = i + 1;
    }
    let n = unmatched_open_braces.len();
    if n > 0 {
        Some(unmatched_open_braces[n - 1])
    } else {
        None
    }
}

/// A line that opens an inline closure: it starts with a closure's parameter
/// list, or its last unclosed `{` is followed by one.
pub open spec fn opens_closure(content: Seq<char>) -> bool {
    let trimmed = trim_start(content);
    if closure_signature(trimmed) {
        true
    } else {
        match last_open_brace(trimmed) {
            Some(b) => closure_signature(trim_start(trimmed.skip(b + 1))),
            None => false,
        }
    }
}

pub fn opens_inline_closure(content: &[char]) -> (b: bool)
    ensures
        b == opens_closure(content@),
{
    let trimmed = trim_start_chars(content);
    if is_closure_signature(trimmed) {
        return true;
    }
    let n = trimmed.len();
    match last_unmatched_open_brace(trimmed) {
        Some(open_brace) => is_closure_signature(trim_start_chars(&trimmed[open_brace + 1..n])),
        None => false,
    }
}

/// A line with a `catch` clause.
pub open spec fn catch_clause(content: Seq<char>) -> bool {
    let trimmed = trim_start(content);
    "catch "@.is_prefix_of(trimmed) || contains_text(trimmed, " catch "@)
}

pub fn is_catch_clause_line(content: &[char]) -> (b: bool)
    ensures
        b == catch_clause(content@),
{
    let trimmed = trim_start_chars(content);
    starts_with_text(trimmed, &chars_of("catch ")) || contains_chars(trimmed, &chars_of(" catch "))
}

/// A line that a following argument line may extend: not a `let`, `mut`,
/// `export def`, `if`, `else if`, `while`, `for` or `return` line, not ending
/// a block, group, list or statement, not an assignment, and not holding a
/// closure's parameter list.
pub open spec fn extends_command(previous_output: Seq<char>) -> bool {
    !"let "@.is_prefix_of(previous_output) && !"mut "@.is_prefix_of(previous_output)
        && !"export def "@.is_prefix_of(previous_output) && !"if "@.is_prefix_of(previous_output)
        && !"else if "@.is_prefix_of(previous_output) && !"while "@.is_prefix_of(previous_output)
        && !"for "@.is_prefix_of(previous_output) && !"return "@.is_prefix_of(previous_output)
        && !ends_with_char(previous_output, '{') && !ends_with_char(previous_output, '}')
        && !ends_with_char(previous_output, ')') && !ends_with_char(previous_output, ']')
        && !ends_with_char(previous_output, ';') && !contains_text(previous_output, " = "@)
        && !has_closure_signature(previous_output)
}

pub fn can_extend_command(previous_output: &[char]) -> (b: bool)
    ensures
        b == extends_command(previous_output@),
{
    !starts_with_text(previous_output, &chars_of("let ")) && !starts_with_text(
        previous_output,
        &chars_of("mut "),
    ) && !starts_with_text(previous_output, &chars_of("export def ")) && !starts_with_text(
        previous_output,
        &chars_of("if "),
    ) && !starts_with_text(previous_output, &chars_of("else if ")) && !starts_with_text(
        previous_output,
        &chars_of("while "),
    ) && !starts_with_text(previous_output, &chars_of("for ")) && !starts_with_text(
        previous_output,
        &chars_of("return "),
    ) && !last_is(previous_output, '{') && !last_is(previous_output, '}') && !last_is(
        previous_output,
        ')',
    ) && !last_is(previous_output, ']') && !last_is(previous_output, ';') && !contains_chars(
        previous_output,
        &chars_of(" = "),
    ) && !contains_closure_signature(previous_output)
}

/// A line that is a command argument on its own: a flag, variable, group,
/// string or list.
pub open spec fn simple_argument_line(content: Seq<char>) -> bool {
    argument_start(content) || starts_with_char(content, '[')
}

pub fn is_simple_argument_line(content: &[char]) -> (b: bool)
    ensures
        b == simple_argument_line(content@),
{
    is_argument_start(content) || first_is(content, '[')
}

/// An argument line that continues an argument line with the same indentation.
pub open spec fn joins_equal_indent_continuation(previous_source: Seq<char>, content: Seq<char>) -> bool {
    simple_argument_line(previous_source) && simple_argument_line(content)
}

pub fn can_join_equal_indent_command_continuation(previous_source: &[char], content: &[char]) -> (b:
    bool)
    ensures
        b == joins_equal_indent_continuation(previous_source@, content@),
{
    if !is_simple_argument_line(previous_source) {
        return false;
    }
    is_simple_argument_line(content)
}

/// A closure body line that is one expression (not a `let`, `mut`, `if`,
/// `for`, `while` or `match` statement).
pub open spec fn simple_closure_body_line(content: Seq<char>) -> bool {
    if "let "@.is_prefix_of(content) || "mut "@.is_prefix_of(content) || "if "@.is_prefix_of(content)
        || "for "@.is_prefix_of(content) || "while "@.is_prefix_of(content) || "match "@.is_prefix_of(
        content,
    ) {
        false
    } else {
        simple_expression_start(content)
    }
}

pub fn is_simple_closure_body_line(content: &[char]) -> (b: bool)
    ensures
        b == simple_closure_body_line(content@),
{
    if starts_with_text(content, &chars_of("let ")) || starts_with_text(content, &chars_of("mut "))
        || starts_with_text(content, &chars_of("if ")) || starts_with_text(content, &chars_of("for "))
        || starts_with_text(content, &chars_of("while ")) || starts_with_text(
        content,
        &chars_of("match "),
    ) {
        return false;
    }
    is_simple_expression_start(content)
}

/// A one-expression closure body whose next non-blank line closes the closure.
pub open spec fn joins_closure_body(src: Seq<char>, lines: Seq<SourceLine>, index: int, content: Seq<char>) -> bool {
    simple_closure_body_line(content) && next_nonempty_from(src, lines, index + 1) == Some("}"@)
}

pub fn should_join_closure_body_line(src: &[char], lines: &[SourceLine], index: usize, content: &[char]) -> (b: bool)
    requires
        lines_wf(src@, lines@),
        index < lines@.len(),
    ensures
        b == joins_closure_body(src@, lines@, index as int, content@),
{
    is_simple_closure_body_line(content) && match next_nonempty_content(src, lines, index) {
        Some(next) => text_eq(next, &chars_of("}")),
        None => false,
    }
}

/// A pipeline stage that ends a pipeline without changing its shape.
pub open spec fn simple_pipeline_stage(content: Seq<char>) -> bool {
    let t = trim(content);
    t == "| complete"@ || t == "| ignore"@ || t == "| lines"@ || t == "| first"@ || t == "| last"@
}

pub fn is_simple_pipeline_stage(content: &[char]) -> (b: bool)
    ensures
        b == simple_pipeline_stage(content@),
{
    let t = trim_chars(content);
    text_eq(t, &chars_of("| complete")) || text_eq(t, &chars_of("| ignore")) || text_eq(
        t,
        &chars_of("| lines"),
    ) || text_eq(t, &chars_of("| first")) || text_eq(t, &chars_of("| last"))
}

/// The pipe line that follows line `index`, if the next non-blank line is one.
pub open spec fn next_pipe_line(src: Seq<char>, lines: Seq<SourceLine>, index: int) -> Option<Seq<char>> {
    match next_nonempty_from(src, lines, index + 1) {
        Some(next) => if starts_with_char(next, '|') {
            Some(next)
        } else {
            None
        },
        None => None,
    }
}

/// The separator with which line `index` (whose content is `content`) joins
/// the output line above it, or `None` when it stays on its own line.
pub open spec fn join_separator_spec(
    previous_output_line: Seq<char>,
    previous_source: Seq<char>,
    content: Seq<char>,
    src: Seq<char>,
    lines: Seq<SourceLine>,
    index: int,
) -> Option<Separator> {
    let previous_output = trim_start(previous_output_line);
    let current_indent = indent_of(line_text(src, lines[index]));
    let previous_indent = indent_of(line_text(src, lines[index - 1]));
    let continuation_indent = current_indent >= previous_indent;
    let next_pipe = next_pipe_line(src, lines, index);
    if (starts_with_char(content, '(') || starts_with_char(content, '[')) && (ends_with_char(
        previous_output,
        '=',
    ) || "return"@.is_suffix_of(previous_output) || previous_output == "if"@ || previous_output
        == "else if"@ || previous_output == "while"@ || previous_output == "match"@) {
        Some(Separator::Space)
    } else if content == "{"@ && (joins_block_opener(previous_output) || (previous_output == ")"@
        && split_header_from(src, lines, index, false))) {
        Some(Separator::Space)
    } else if starts_with_char(content, '|') {
        if ends_with_char(previous_output, '{') && closure_signature(content) {
            Some(Separator::Adjacent)
        } else if starts_with_char(previous_source, '|') || next_pipe is Some {
            if simple_pipeline_stage(content) && (match next_pipe {
                Some(next) => simple_pipeline_stage(next),
                None => true,
            }) && (contains_text(previous_output, " | "@) || !starts_with_char(
                previous_source,
                '|',
            )) {
                Some(Separator::Space)
            } else if !starts_with_char(previous_source, '|') && (match next_pipe {
                Some(next) => closure_signature(next),
                None => false,
            }) && ends_with_char(content, '{') {
                Some(Separator::Space)
            } else {
                None
            }
        } else {
            Some(Separator::Space)
        }
    } else if starts_with_connector(content) && ends_with_char(previous_output, '(') {
        Some(Separator::Space)
    } else if starts_with_connector(content) && current_indent == previous_indent {
        Some(Separator::Space)
    } else if ends_with_char(previous_output, ':') && continuation_indent && type_continuation(
        content,
    ) {
        Some(Separator::Space)
    } else if ends_with_char(previous_output, '=') && continuation_indent {
        Some(Separator::Space)
    } else if "return"@.is_suffix_of(previous_output) && simple_expression_start(content) {
        Some(Separator::Space)
    } else if ends_with_char(previous_output, '{') && opens_closure(previous_source) {
        Some(Separator::Adjacent)
    } else if opens_closure(previous_source) && !catch_clause(previous_source) && joins_closure_body(
        src,
        lines,
        index,
        content,
    ) {
        Some(Separator::Space)
    } else if opens_closure(previous_output) && !catch_clause(previous_output) && joins_closure_body(
        src,
        lines,
        index,
        content,
    ) {
        Some(Separator::Space)
    } else if content == "}"@ && opens_closure(previous_output) && !opens_closure(previous_source) {
        Some(Separator::Space)
    } else if continuation_indent && extends_command(previous_output) && ((current_indent
        > previous_indent && command_continuation(content, previous_output)) || (current_indent
        == previous_indent && joins_equal_indent_continuation(previous_source, content))) {
        Some(Separator::Space)
    } else {
        None
    }
}

pub fn join_separator(
    previous_output: &[char],
    previous_source: &[char],
    content: &[char],
    src: &[char],
    lines: &[SourceLine],
    index: usize,
) -> (res: Option<Separator>)
    requires
        lines_wf(src@, lines@),
        0 < index < lines@.len(),
    ensures
        res == join_separator_spec(previous_output@, previous_source@, content@, src@, lines@, index as int),
{
    let previous_output = trim_start_chars(previous_output);
    let current_indent = leading_indent(text_of(src, &lines[index]));
    let previous_indent = leading_indent(text_of(src, &lines[index - 1]));
    let continuation_indent = current_indent >= previous_indent;

    if (first_is(content, '(') || first_is(content, '[')) && (last_is(previous_output, '=')
        || ends_with_text(previous_output, &chars_of("return")) || text_eq(
        previous_output,
        &chars_of("if"),
    ) || text_eq(previous_output, &chars_of("else if")) || text_eq(
        previous_output,
        &chars_of("while"),
    ) || text_eq(previous_output, &chars_of("match"))) {
        return Some(Separator::Space);
    }
    if text_eq(content, &chars_of("{")) && (can_join_block_opener(previous_output) || (text_eq(
        previous_output,
        &chars_of(")"),
    ) && follows_split_parenthesized_block_header(src, lines, index))) {
        return Some(Separator::Space);
    }
    if first_is(content, '|') {
        if last_is(previous_output, '{') && is_closure_signature(content) {
            return Some(Separator::Adjacent);
        }
        let next_pipe = match next_nonempty_content(src, lines, index) {
            Some(next) => if first_is(next, '|') {
                Some(next)
            } else {
                None
            },
            None => None,
        };
        if first_is(previous_source, '|') || next_pipe.is_some() {
            if is_simple_pipeline_stage(content) && (match next_pipe {
                Some(next) => is_simple_pipeline_stage(next),
                None => true,
            }) && (contains_chars(previous_output, &chars_of(" | ")) || !first_is(
                previous_source,
                '|',
            )) {
                return Some(Separator::Space);
            }
            if !first_is(previous_source, '|') && (match next_pipe {
                Some(next) => is_closure_signature(next),
                None => false,
            }) && last_is(content, '{') {
                return Some(Separator::Space);
            }
            return None;
        }
        return Some(Separator::Space);
    }
    if starts_with_boolean_connector(content) && last_is(previous_output, '(') {
        return Some(Separator::Space);
    }
    if starts_with_boolean_connector(content) && current_indent == previous_indent {
        return Some(Separator::Space);
    }
    if last_is(previous_output, ':') && continuation_indent && is_type_continuation(content) {
        return Some(Separator::Space);
    }
    if last_is(previous_output, '=') && continuation_indent {
        return Some(Separator::Space);
    }
    if ends_with_text(previous_output, &chars_of("return")) && is_simple_expression_start(content) {
        return Some(Separator::Space);
    }
    if last_is(previous_output, '{') && opens_inline_closure(previous_source) {
        return Some(Separator::Adjacent);
    }
    if opens_inline_closure(previous_source) && !is_catch_clause_line(previous_source)
        && should_join_closure_body_line(src, lines, index, content) {
        return Some(Separator::Space);
    }
    if opens_inline_closure(previous_output) && !is_catch_clause_line(previous_output)
        && should_join_closure_body_line(src, lines, index, content) {
        return Some(Separator::Space);
    }
    if text_eq(content, &chars_of("}")) && opens_inline_closure(previous_output)
        && !opens_inline_closure(previous_source) {
        return Some(Separator::Space);
    }
    if continuation_indent && can_extend_command(previous_output) {
        if current_indent > previous_indent && is_command_continuation(content, previous_output) {
            return Some(Separator::Space);
        }
        if current_indent == previous_indent && can_join_equal_indent_command_continuation(
            previous_source,
            content,
        ) {
            return Some(Separator::Space);
        }
    }
    None
}

/// The last line of the output so far (ignoring one trailing line break), or
/// `None` when there is no output.
pub open spec fn last_output(result: Seq<char>) -> Option<Seq<char>> {
    let text = if ends_with_char(result, '\n') {
        result.drop_last()
    } else {
        result
    };
    if text.len() == 0 {
        None
    } else {
        Some(text.skip(crate::spacing::after_last_newline_from(text, text.len() as int)))
    }
}

pub fn last_output_line(result: &[char]) -> (res: Option<&[char]>)
    ensures
        res matches Some(r) ==> last_output(result@) == Some(r@),
        res is None ==> last_output(result@) is None,
{
    let text = if last_is(result, '\n') {
        &result[0..result.len() - 1]
    } else {
        result
    };
    proof {
        if ends_with_char(result@, '\n') {
            assert(text@ =~= result@.drop_last());
        }
    }
    if text.len() == 0 {
        return None;
    }
    let mut j: usize = text.len();
    while j > 0 && text[j - 1] != '\n'
        invariant
            0 <= j <= text.len(),
            crate::spacing::after_last_newline_from(text@, text@.len() as int)
                == crate::spacing::after_last_newline_from(text@, j as int),
        decreases j,
    {
        j = j - 1;
    }
    Some(&text[j..text.len()])
}

/// Whether line `index` joins the output line above it, and with what: the
/// line above must not be blank, there must be output, the rules of
/// `join_separator_spec` must allow it, and the joined line must fit in
/// `line_width` bytes.
pub open spec fn join_with_previous_spec(
    result: Seq<char>,
    src: Seq<char>,
    lines: Seq<SourceLine>,
    index: int,
    content: Seq<char>,
    line_body: Seq<char>,
    line_width: int,
) -> Option<Separator> {
    if index == 0 {
        None
    } else {
        let previous_source = trim(line_text(src, lines[index - 1]));
        if previous_source.len() == 0 {
            None
        } else {
            match last_output(result) {
                None => None,
                Some(previous_output) => match join_separator_spec(
                    previous_output,
                    previous_source,
                    content,
                    src,
                    lines,
                    index,
                ) {
                    None => None,
                    Some(sep) => if byte_len(previous_output) + separator_text(sep).len() + byte_len(
                        line_body,
                    ) <= line_width {
                        Some(sep)
                    } else {
                        None
                    },
                },
            }
        }
    }
}

pub fn join_with_previous_line(
    result: &[char],
    src: &[char],
    lines: &[SourceLine],
    index: usize,
    content: &[char],
    line_body: &[char],
    line_width: usize,
) -> (res: Option<Separator>)
    requires
        lines_wf(src@, lines@),
        index < lines@.len(),
    ensures
        res == join_with_previous_spec(
            result@,
            src@,
            lines@,
            index as int,
            content@,
            line_body@,
            line_width as int,
        ),
{
    if index == 0 {
        return None;
    }
    let previous_source = trim_chars(text_of(src, &lines[index - 1]));
    if previous_source.len() == 0 {
        return None;
    }
    let previous_output = match last_output_line(result) {
        Some(p) => p,
        None => return None,
    };
    let separator = match join_separator(previous_output, previous_source, content, src, lines, index) {
        Some(sep) => sep,
        None => return None,
    };
    let separator_len: u128 = match separator {
        Separator::Space => 1,
        Separator::Adjacent => 0,
    };
    let candidate_length = utf8_len(previous_output) + separator_len + utf8_len(line_body);
    if candidate_length <= line_width as u128 {
        Some(separator)
    } else {
        None
    }
}

} // verus!
