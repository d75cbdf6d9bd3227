//! The line-oriented formatter: it works on the text alone, one line at a
//! time, normalising indentation, inline spacing and blank lines.
use vstd::prelude::*;

use crate::configuration::Configuration;
use crate::formatter::{
    crlf_to_lf, indent_after, indent_columns, indent_columns_of, lemma_crlf_to_lf_len,
    next_indent_level,
};
use crate::joining::{starts_with_closer, starts_with_closer_spec};
use crate::lines::{
    SourceLine, lemma_lines_from_ordered, line_text, lines_wf, source_lines, source_lines_of,
    text_of,
};
use crate::spacing::strip_trailing_spaces;
use crate::text::{
    byte_len, lemma_byte_len_bounds, str_byte_len, chars_of, ends_with_char, lemma_trim_len, push_chars, push_spaces, spaces, string_of, trim_end,
    trim_end_chars, trim_start, trim_start_chars,
};

use crate::laws::{
    law_line_formatter_caps_blank_lines, law_line_formatter_keeps_final_newline,
    law_line_formatter_keeps_visible_text,
};
use crate::runs::has_newline_run;
use crate::visible::visible;

verus! {

/// The indentation level of a line: one less than the current level when the
/// line starts with a closer (never below 0).
pub open spec fn indent_for(content: Seq<char>, current_indent: int) -> int {
    if starts_with_closer_spec(content) {
        if current_indent > 0 {
            current_indent - 1
        } else {
            0
        }
    } else {
        current_indent
    }
}

pub fn indent_for_line(content: &[char], current_indent: usize) -> (indent: usize)
    ensures
        indent == indent_for(content@, current_indent as int),
{
    if starts_with_closer(content) {
        current_indent.saturating_sub(1)
    } else {
        current_indent
    }
}

/// Pops trailing spaces off a growing text.
pub fn trim_trailing_space(text: &mut Vec<char>)
    ensures
        final(text)@ == strip_trailing_spaces(old(text)@),
{
    crate::spacing::trim_trailing_spaces(text);
}

/// The state of spacing a line: the text so far, the open quotes, whether a
/// backslash escapes the next character, and whether whitespace was seen.
pub struct Spacing {
    pub out: Seq<char>,
    pub in_single: bool,
    pub in_double: bool,
    pub escaped: bool,
    pub saw_space: bool,
}

/// The text so far, with one space added when whitespace was seen and none ends it.
pub open spec fn with_pending_space(st: Spacing) -> Seq<char> {
    if st.saw_space && !ends_with_char(st.out, ' ') {
        st.out.push(' ')
    } else {
        st.out
    }
}

/// Spacing a line from character `i` on; the result still carries trailing spaces.
pub open spec fn spacing_from(t: Seq<char>, i: int, st: Spacing) -> Seq<char>
    decreases t.len() - i,
{
    if i < 0 || i >= t.len() {
        st.out
    } else {
        let ch = t[i];
        let quoted = st.in_single || st.in_double;
        let more = i + 1 < t.len();
        if st.escaped {
            spacing_from(t, i + 1, Spacing { out: st.out.push(ch), escaped: false, ..st })
        } else if ch == '\\' && quoted {
            spacing_from(t, i + 1, Spacing { out: st.out.push(ch), escaped: true, ..st })
        } else if ch == '\'' && !st.in_double {
            spacing_from(
                t,
                i + 1,
                Spacing {
                    out: with_pending_space(st).push(ch),
                    in_single: !st.in_single,
                    saw_space: false,
                    ..st
                },
            )
        } else if ch == '"' && !st.in_single {
            spacing_from(
                t,
                i + 1,
                Spacing {
                    out: with_pending_space(st).push(ch),
                    in_double: !st.in_double,
                    saw_space: false,
                    ..st
                },
            )
        } else if ch == '#' && !quoted {
            let o = if st.out.len() > 0 && !ends_with_char(st.out, ' ') {
                st.out.push(' ')
            } else {
                st.out
            };
            o.push('#') + trim_start(t.skip(i + 1))
        } else if (ch == ' ' || ch == '\t') && !quoted {
            spacing_from(
                t,
                i + 1,
                Spacing {
                    saw_space: if st.out.len() > 0 && !ends_with_char(st.out, ' ') {
                        true
                    } else {
                        st.saw_space
                    },
                    ..st
                },
            )
        } else if ch == '|' && !quoted {
            let o = strip_trailing_spaces(st.out);
            let o = if o.len() > 0 {
                o.push(' ')
            } else {
                o
            };
            let o = o.push('|');
            let o = if more {
                o.push(' ')
            } else {
                o
            };
            spacing_from(t, i + 1, Spacing { out: o, saw_space: false, ..st })
        } else if ch == ',' && !quoted {
            let o = strip_trailing_spaces(st.out).push(',');
            let o = if more {
                o.push(' ')
            } else {
                o
            };
            spacing_from(t, i + 1, Spacing { out: o, saw_space: false, ..st })
        } else {
            spacing_from(t, i + 1, Spacing { out: with_pending_space(st).push(ch), saw_space: false, ..st })
        }
    }
}

/// A line with runs of whitespace outside quotes written as one space, one
/// space on each side of `|`, one after `,`, one before a comment, and none at the end.
pub open spec fn inline_spacing(content: Seq<char>) -> Seq<char> {
    strip_trailing_spaces(
        spacing_from(
            content,
            0,
            Spacing { out: Seq::empty(), in_single: false, in_double: false, escaped: false, saw_space: false },
        ),
    )
}

pub fn normalize_inline_spacing(content: &[char]) -> (res: Vec<char>)
    ensures
        res@ == inline_spacing(content@),
{
    let mut result: Vec<char> = Vec::new();
    let mut in_single_quote = false;
    let mut in_double_quote = false;
    let mut escaped = false;
    let mut saw_space = false;
    let mut i: usize = 0;
    let n = content.len();
    let ghost init = Spacing {
        out: result@,
        in_single: false,
        in_double: false,
        escaped: false,
        saw_space: false,
    };
    while i < n
        invariant_except_break
            spacing_from(content@, 0, init) == spacing_from(
                content@,
                i as int,
                Spacing {
                    out: result@,
                    in_single: in_single_quote,
                    in_double: in_double_quote,
                    escaped,
                    saw_space,
                },
            ),
        invariant
            0 <= i <= n,
            n == content@.len(),
        ensures
            spacing_from(content@, 0, init) == result@,
        decreases n - i,
    {
        let ch = content[i];
        let quoted = in_single_quote || in_double_quote;
        let more = i + 1 < n;
        if escaped {
            result.push(ch);
            escaped = false;
        } else if ch == '\\' && quoted {
            result.push(ch);
            escaped = true;
        } else if ch == '\'' && !in_double_quote {
            if saw_space && !(result.len() > 0 && result[result.len() - 1] == ' ') {
                result.push(' ');
            }
            result.push(ch);
            in_single_quote = !in_single_quote;
            saw_space = false;
        } else if ch == '"' && !in_single_quote {
            if saw_space && !(result.len() > 0 && result[result.len() - 1] == ' ') {
                result.push(' ');
            }
            result.push(ch);
            in_double_quote = !in_double_quote;
            saw_space = false;
        } else if ch == '#' && !quoted {
            if result.len() > 0 && !(result[result.len() - 1] == ' ') {
                result.push(' ');
            }
            result.push('#');
            push_chars(&mut result, trim_start_chars(&content[i + 1..n]));
            break;
        } else if (ch == ' ' || ch == '\t') && !quoted {
            if result.len() > 0 && !(result[result.len() - 1] == ' ') {
                saw_space = true;
            }
        } else if ch == '|' && !quoted {
            trim_trailing_space(&mut result);
            if result.len() > 0 {
                result.push(' ');
            }
            result.push('|');
            if more {
                result.push(' ');
            }
            saw_space = false;
        } else if ch == ',' && !quoted {
            trim_trailing_space(&mut result);
            result.push(',');
            if more {
                result.push(' ');
            }
            saw_space = false;
        } else {
            if saw_space && !(result.len() > 0 && result[result.len() - 1] == ' ') {
                result.push(' ');
            }
            result.push(ch);
            saw_space = false;
        }
        i = i + 1;
    }
    trim_trailing_space(&mut result);
    result
}

/// The output so far, the indentation level and the current run of blank lines.
pub struct LineState {
    pub out: Seq<char>,
    pub indent: int,
    pub blank_run: int,
}

/// Laying out line `index` of the line-oriented formatter.
pub open spec fn line_step(src: Seq<char>, lines: Seq<SourceLine>, config: Configuration, index: int, st: LineState) -> LineState {
    let content = trim_start(trim_end(line_text(src, lines[index])));
    if content.len() == 0 {
        let run = if st.blank_run >= 255 {
            255
        } else {
            st.blank_run + 1
        };
        LineState {
            out: if run <= config.max_blank_lines {
                st.out.push('\n')
            } else {
                st.out
            },
            indent: st.indent,
            blank_run: run,
        }
    } else {
        let effective = indent_for(content, st.indent);
        LineState {
            out: (st.out + spaces(indent_columns(effective, config.indent_width as int) as nat) + inline_spacing(content)).push(
                '\n',
            ),
            indent: indent_after(content, effective),
            blank_run: 0,
        }
    }
}

pub open spec fn lines_step_from(
    src: Seq<char>,
    lines: Seq<SourceLine>,
    config: Configuration,
    index: int,
    st: LineState,
) -> LineState
    decreases lines.len() - index,
{
    if index < 0 || index >= lines.len() {
        st
    } else {
        lines_step_from(src, lines, config, index + 1, line_step(src, lines, config, index, st))
    }
}

/// Index just past the last character of `s.take(j)` that is not a line break.
pub open spec fn newline_end_from(s: Seq<char>, j: int) -> int
    decreases j,
{
    if 0 < j <= s.len() && s[j - 1] == '\n' {
        newline_end_from(s, j - 1)
    } else {
        j
    }
}

/// The line-oriented layout of a document: each line indented by its nesting
/// level and spaced by `inline_spacing`, runs of blank lines capped at
/// `max_blank_lines`; the trailing line breaks are dropped when the input does
/// not end in one.
pub open spec fn line_format_spec(file_text: Seq<char>, config: Configuration) -> Seq<char> {
    let src = crlf_to_lf(file_text);
    let out = lines_step_from(
        src,
        source_lines_of(src),
        config,
        0,
        LineState { out: Seq::empty(), indent: 0, blank_run: 0 },
    ).out;
    if ends_with_char(file_text, '\n') || out.len() == 0 {
        out
    } else {
        out.take(newline_end_from(out, out.len() as int))
    }
}

/// Formats a Nushell document line by line, without lexing it.
pub fn format_text(file_text: &str, config: &Configuration) -> (res: String)
    ensures
        res@ == line_format_spec(file_text@, *config),
        visible(res@) == visible(file_text@),
        config.max_blank_lines < 255 ==> !has_newline_run(res@, config.max_blank_lines + 2),
        visible(file_text@).len() > 0 ==> (ends_with_char(res@, '\n') == ends_with_char(file_text@, '\n')),
{
    let input = chars_of(file_text);
    let normalized = crate::formatter::normalize_line_breaks(input.as_slice());
    proof {
        lemma_crlf_to_lf_len(file_text@);
    }
    let src = normalized.as_slice();
    let normalized_text = string_of(src);
    let _bytes = str_byte_len(normalized_text.as_str());
    proof {
        lemma_byte_len_bounds(src@);
    }
    let lines = source_lines(src);
    proof {
        lemma_lines_from_ordered(src@, 0);
    }
    let mut result: Vec<char> = Vec::new();
    let mut indent_level: usize = 0;
    let mut blank_run: u8 = 0;
    let mut index: usize = 0;
    let n = lines.len();
    while index < n
        invariant
            0 <= index <= n,
            n == lines@.len(),
            src@.len() <= usize::MAX,
            lines@ == source_lines_of(src@),
            lines_wf(src@, lines@),
            forall|k: int|
                #![trigger lines@[k]]
                0 <= k < lines@.len() - 1 ==> lines@[k].text_end < lines@[k + 1].text_start,
            indent_level <= if index < n {
                lines@[index as int].text_start as int
            } else {
                src@.len() as int
            },
            lines_step_from(
                src@,
                lines@,
                *config,
                0,
                LineState { out: Seq::empty(), indent: 0, blank_run: 0 },
            ) == lines_step_from(
                src@,
                lines@,
                *config,
                index as int,
                LineState { out: result@, indent: indent_level as int, blank_run: blank_run as int },
            ),
        decreases n - index,
    {
        let line = lines[index];
        assert(lines@[index as int] == line);
        let text = text_of(src, &line);
        let trimmed_end = trim_end_chars(text);
        let content = trim_start_chars(trimmed_end);
        proof {
            lemma_trim_len(text@);
            lemma_trim_len(trimmed_end@);
            if index + 1 < n {
                assert(lines@[index as int].text_end < lines@[index + 1].text_start);
            }
        }
        if content.len() == 0 {
            blank_run = blank_run.saturating_add(1);
            if blank_run <= config.max_blank_lines {
                result.push('\n');
            }
        } else {
            blank_run = 0;
            let effective_indent = indent_for_line(content, indent_level);
            push_spaces(&mut result, indent_columns_of(effective_indent, config.indent_width));
            push_chars(&mut result, normalize_inline_spacing(content).as_slice());
            result.push('\n');
            indent_level = next_indent_level(content, effective_indent);
        }
        index = index + 1;
    }
    proof {
        assert(input@.len() == input.len());
        law_line_formatter_keeps_visible_text(file_text@, *config);
        if visible(file_text@).len() > 0 {
            law_line_formatter_keeps_final_newline(file_text@, *config);
        }
        if config.max_blank_lines < 255 {
            law_line_formatter_caps_blank_lines(file_text@, *config);
        }
    }
    if crate::text::last_is(input.as_slice(), '\n') || result.len() == 0 {
        string_of(result.as_slice())
    } else {
        let mut j: usize = result.len();
        while j > 0 && result[j - 1] == '\n'
            invariant
                0 <= j <= result@.len(),
                newline_end_from(result@, result@.len() as int) == newline_end_from(result@, j as int),
            decreases j,
        {
            j = j - 1;
        }
        string_of(&result.as_slice()[0..j])
    }
}

} // verus!
