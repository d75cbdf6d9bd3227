//! Properties of the formatters that hold for every document.
use vstd::prelude::*;

use crate::cli::plugin_answer;
use crate::runs::{
    all_newlines, lemma_leading_append_closed, lemma_leading_append_plain, lemma_leading_push_blank,
    lemma_leading_push_newline, lemma_leading_take, newline_run_at,
    breaks_separated, closed_line, has_newline_run, lemma_append_closed_line,
    lemma_append_plain_run, lemma_collapse_plain, lemma_plain_separated, lemma_prefix_newline_run,
    lemma_push_line_run, lemma_push_newline_run, lemma_restore_separators_props,
    lemma_separated_take, lemma_split_heads_props, lemma_subrange_plain, lemma_take_plain,
    lemma_spaces_plain, trailing_newlines,
};
use crate::configuration::Configuration;
use crate::formatter::{
    FormatState, char_index_of, indent_after, indent_after_from, indent_columns, crlf_to_lf, format_line_spec, format_lines_from,
    format_spec, format_step, is_connector, layout_of, layout_tokens_from, lemma_char_index_of,
    lemma_crlf_to_lf_len, lemma_token_chars_range, line_body_spec, line_indent_width,
    line_tokens_from, line_tokens_of, keeps_source_indent, space_before, token_chars, verbatim_token,
};
use crate::lines::{SourceLine, continuation_indent, active_before, lemma_flags_at, lemma_quote_after_blank, quote_after, lemma_blank_string_line_neighbours, multiline_string_flags, after_line, indent_of, lemma_lines_from_bytes, lemma_lines_from_cover};
use crate::visible::{
    lemma_visible_append, lemma_visible_blank, lemma_visible_collapse, lemma_visible_crlf_to_lf,
    lemma_visible_layout_tokens, lemma_visible_push, lemma_visible_restore, lemma_visible_spaces,
    lemma_visible_drop_blank_end, lemma_visible_inline_spacing, lemma_visible_split_heads,
    lemma_visible_strip, lemma_visible_trim_end, lemma_visible_trim_start, tokens_visible, visible,
};
use crate::joining::{Separator, join_separator_spec, join_with_previous_spec, last_output, separator_text};
use crate::nushell::{LexToken, TokenKind, is_char_offset, lexed_tokens, spans_fit};
use crate::spacing::{
    Collapse, Separators, collapse_from, collapse_step, collapse_whitespace, is_quote_char, restore_separators, separators_from, separators_step,
    split_heads, top_is,
};
use crate::text::{byte_len, lemma_byte_len_bounds, lemma_byte_len_prefix_strict, lemma_trim_empty_iff, trim};
use crate::line_formatter::{
    LineState, Spacing, indent_for, inline_spacing, line_format_spec, line_step, lines_step_from,
    newline_end_from, spacing_from, with_pending_space,
};
use crate::lines::{lemma_lines_from_no_newline, lemma_lines_from_wf, source_lines_of};
use crate::spacing::{lemma_space_end_bounds, space_end_from, strip_trailing_spaces};
use crate::joining::{ends_with_opener_spec, starts_with_closer_spec};
use crate::lines::{line_text, next_nonempty_from, prev_nonempty_from};
use crate::nushell::nu_lex;
use crate::text::{
    is_ascii_ws, contains_text, ends_with_char, is_unicode_ws, lemma_skip_ws_bounds, lemma_trim_ws_end_bounds,
    skip_ws_from, spaces, trim_end, trim_start, trim_ws_end_from,
};

verus! {

/// A document that Nushell's lexer rejects is returned exactly as given.
pub proof fn law_rejected_source_is_unchanged(file_text: Seq<char>, config: Configuration)
    requires
        nu_lex(crlf_to_lf(file_text)).1,
    ensures
        format_spec(file_text, config) == file_text,
{
}

/// A blank line right after a line that ends with `{`, `[` or `(`, or right
/// before a line that starts with `}`, `]` or `)`, leaves no trace in the
/// output: blank lines at the start and end of blocks are trimmed (those
/// inside a multiline string are kept as written).
pub proof fn law_blank_lines_at_block_edges_are_dropped(
    src: Seq<char>,
    config: Configuration,
    index: int,
    st: FormatState,
)
    requires
        0 <= index < layout_of(src, config).lines.len(),
        trim_start(trim_end(line_text(src, layout_of(src, config).lines[index]))).len() == 0,
        !layout_of(src, config).strings[index],
        (match prev_nonempty_from(src, layout_of(src, config).lines, index) {
            Some(p) => ends_with_opener_spec(p),
            None => false,
        }) || (match next_nonempty_from(src, layout_of(src, config).lines, index + 1) {
            Some(n) => starts_with_closer_spec(n),
            None => false,
        }),
    ensures
        format_step(layout_of(src, config), index, st) == st,
{
}

/// A line that lies in a multiline string, blank or not, is written exactly as
/// it stands in the source, without trailing whitespace and without
/// re-indentation, and it leaves the indentation level alone.
pub proof fn law_multiline_string_lines_are_verbatim(
    src: Seq<char>,
    config: Configuration,
    index: int,
    st: FormatState,
)
    requires
        0 <= index < layout_of(src, config).lines.len(),
        layout_of(src, config).strings[index],
    ensures
        format_step(layout_of(src, config), index, st).out == if layout_of(src, config).lines[index].has_newline {
            (st.out + trim_end(line_text(src, layout_of(src, config).lines[index]))).push('\n')
        } else {
            st.out + trim_end(line_text(src, layout_of(src, config).lines[index]))
        },
        format_step(layout_of(src, config), index, st).indent == st.indent,
{
    let text = line_text(src, layout_of(src, config).lines[index]);
    lemma_trim_empty_iff(text);
    lemma_trim_ws_end_bounds(text, text.len() as int);
    if trim_start(trim_end(text)).len() == 0 {
        assert(st.out + trim_end(text) =~= st.out);
    }
}

/// For a document with `\n` line breaks, the plugin reports a change exactly
/// when the formatter changes the text, and then answers with the formatted text.
pub proof fn law_plugin_reports_exactly_the_changes(file_text: Seq<char>, config: Configuration)
    requires
        !contains_text(file_text, "\r\n"@),
    ensures
        plugin_answer(file_text, config) is None <==> format_spec(file_text, config) == file_text,
        plugin_answer(file_text, config) matches Some(t) ==> t == format_spec(file_text, config),
{
}


// ---------------------------------------------------------------------------
// The line-oriented formatter keeps at most `max_blank_lines` blank lines in a row
proof fn lemma_no_newline_subrange(t: Seq<char>, a: int, b: int)
    requires
        0 <= a <= b <= t.len(),
        !t.contains('\n'),
    ensures
        !t.subrange(a, b).contains('\n'),
{
    let u = t.subrange(a, b);
    assert forall|m: int| 0 <= m < u.len() implies u[m] != '\n' by {
        assert(u[m] == t[a + m]);
    }
}

proof fn lemma_space_end_positive(s: Seq<char>, j: int)
    requires
        1 <= j <= s.len(),
        s[0] != ' ',
    ensures
        space_end_from(s, j) >= 1,
    decreases j,
{
    if j > 1 && s[j - 1] == ' ' {
        lemma_space_end_positive(s, j - 1);
    }
}

/// What spacing a line keeps: no line breaks, no space in front, and a
/// non-empty result once anything was written or a non-blank character is read.
proof fn lemma_spacing_from_props(t: Seq<char>, i: int, st: Spacing)
    requires
        0 <= i <= t.len(),
        !t.contains('\n'),
        !st.out.contains('\n'),
        st.out.len() > 0 ==> st.out[0] != ' ',
        (st.saw_space || st.in_single || st.in_double || st.escaped) ==> st.out.len() > 0,
    ensures
        !spacing_from(t, i, st).contains('\n'),
        spacing_from(t, i, st).len() > 0 ==> spacing_from(t, i, st)[0] != ' ',
        st.out.len() > 0 ==> spacing_from(t, i, st).len() > 0,
        i < t.len() && !is_unicode_ws(t[i]) ==> spacing_from(t, i, st).len() > 0,
    decreases t.len() - i,
{
    if i < t.len() {
        let ch = t[i];
        assert(ch != '\n');
        let quoted = st.in_single || st.in_double;
        let more = i + 1 < t.len();
        let o = st.out;
        let wp = with_pending_space(st);
        assert(!wp.contains('\n')) by {
            if wp != o {
                assert forall|m: int| 0 <= m < wp.len() implies wp[m] != '\n' by {
                    if m < o.len() {
                        assert(wp[m] == o[m]);
                    }
                }
            }
        }
        assert(wp.len() > 0 ==> wp[0] != ' ') by {
            if wp != o && o.len() > 0 {
                assert(wp[0] == o[0]);
            }
        }
        let pushed = wp.push(ch);
        assert(!pushed.contains('\n')) by {
            assert forall|m: int| 0 <= m < pushed.len() implies pushed[m] != '\n' by {
                if m < wp.len() {
                    assert(pushed[m] == wp[m]);
                }
            }
        }
        let so = strip_trailing_spaces(o);
        lemma_space_end_bounds(o, o.len() as int);
        assert(!so.contains('\n')) by {
            assert forall|m: int| 0 <= m < so.len() implies so[m] != '\n' by {
                assert(so[m] == o[m]);
            }
        }
        if o.len() > 0 {
            lemma_space_end_positive(o, o.len() as int);
            assert(so[0] == o[0]);
        }
        if st.escaped {
            let n = Spacing { out: o.push(ch), escaped: false, ..st };
            assert(!n.out.contains('\n')) by {
                assert forall|m: int| 0 <= m < n.out.len() implies n.out[m] != '\n' by {
                    if m < o.len() {
                        assert(n.out[m] == o[m]);
                    }
                }
            }
            assert(n.out[0] == o[0]);
            lemma_spacing_from_props(t, i + 1, n);
        } else if ch == '\\' && quoted {
            let n = Spacing { out: o.push(ch), escaped: true, ..st };
            assert(!n.out.contains('\n')) by {
                assert forall|m: int| 0 <= m < n.out.len() implies n.out[m] != '\n' by {
                    if m < o.len() {
                        assert(n.out[m] == o[m]);
                    }
                }
            }
            assert(n.out[0] == o[0]);
            lemma_spacing_from_props(t, i + 1, n);
        } else if ch == '\'' && !st.in_double {
            let n = Spacing { out: pushed, in_single: !st.in_single, saw_space: false, ..st };
            if wp.len() > 0 {
                assert(pushed[0] == wp[0]);
            }
            lemma_spacing_from_props(t, i + 1, n);
        } else if ch == '"' && !st.in_single {
            let n = Spacing { out: pushed, in_double: !st.in_double, saw_space: false, ..st };
            if wp.len() > 0 {
                assert(pushed[0] == wp[0]);
            }
            lemma_spacing_from_props(t, i + 1, n);
        } else if ch == '#' && !quoted {
            let o1 = if o.len() > 0 && !ends_with_char(o, ' ') {
                o.push(' ')
            } else {
                o
            };
            let rest = trim_start(t.skip(i + 1));
            lemma_skip_ws_bounds(t.skip(i + 1), 0);
            assert(rest =~= t.subrange(i + 1 + skip_ws_from(t.skip(i + 1), 0), t.len() as int));
            lemma_no_newline_subrange(t, i + 1 + skip_ws_from(t.skip(i + 1), 0), t.len() as int);
            let r = o1.push('#') + rest;
            assert(spacing_from(t, i, st) == r);
            assert forall|m: int| 0 <= m < r.len() implies r[m] != '\n' by {
                if m < o.len() {
                    assert(r[m] == o[m]);
                } else if m >= o1.len() + 1 {
                    assert(r[m] == rest[m - o1.len() - 1]);
                }
            }
            if o.len() > 0 {
                assert(r[0] == o[0]);
            }
        } else if (ch == ' ' || ch == '\t') && !quoted {
            let n = Spacing {
                saw_space: if o.len() > 0 && !ends_with_char(o, ' ') {
                    true
                } else {
                    st.saw_space
                },
                ..st
            };
            lemma_spacing_from_props(t, i + 1, n);
        } else if ch == '|' && !quoted {
            let o1 = if so.len() > 0 {
                so.push(' ')
            } else {
                so
            };
            let o2 = o1.push('|');
            let o3 = if more {
                o2.push(' ')
            } else {
                o2
            };
            assert forall|m: int| 0 <= m < o3.len() implies o3[m] != '\n' by {
                if m < so.len() {
                    assert(o3[m] == so[m]);
                }
            }
            if so.len() > 0 {
                assert(o3[0] == so[0]);
            }
            lemma_spacing_from_props(t, i + 1, Spacing { out: o3, saw_space: false, ..st });
        } else if ch == ',' && !quoted {
            let o2 = so.push(',');
            let o3 = if more {
                o2.push(' ')
            } else {
                o2
            };
            assert forall|m: int| 0 <= m < o3.len() implies o3[m] != '\n' by {
                if m < so.len() {
                    assert(o3[m] == so[m]);
                }
            }
            if so.len() > 0 {
                assert(o3[0] == so[0]);
            }
            lemma_spacing_from_props(t, i + 1, Spacing { out: o3, saw_space: false, ..st });
        } else {
            if wp.len() > 0 {
                assert(pushed[0] == wp[0]);
            } else {
                assert(ch != ' ');
            }
            lemma_spacing_from_props(t, i + 1, Spacing { out: pushed, saw_space: false, ..st });
        }
    }
}

/// The spacing of a non-blank line is a non-empty text without line breaks.
proof fn lemma_inline_spacing_props(content: Seq<char>)
    requires
        content.len() > 0,
        !is_unicode_ws(content[0]),
        !content.contains('\n'),
    ensures
        inline_spacing(content).len() > 0,
        !inline_spacing(content).contains('\n'),
        inline_spacing(content)[0] != ' ',
{
    let st = Spacing { out: Seq::empty(), in_single: false, in_double: false, escaped: false, saw_space: false };
    lemma_spacing_from_props(content, 0, st);
    let r = spacing_from(content, 0, st);
    lemma_space_end_bounds(r, r.len() as int);
    lemma_space_end_positive(r, r.len() as int);
    let sr = strip_trailing_spaces(r);
    assert forall|m: int| 0 <= m < sr.len() implies sr[m] != '\n' by {
        assert(sr[m] == r[m]);
    }
    assert(sr[0] == r[0]);
}

/// What the layout keeps through the lines: no run of more than
/// `max_blank_lines + 1` line breaks, and no more line breaks at the end than
/// one plus the blank lines written since the last non-blank line.
pub open spec fn blank_runs_bounded(out: Seq<char>, blank_run: int, max_blank_lines: int) -> bool {
    &&& !has_newline_run(out, max_blank_lines + 2)
    &&& 0 <= blank_run <= 255
    &&& trailing_newlines(out) <= 1 + if blank_run <= max_blank_lines {
        blank_run
    } else {
        max_blank_lines
    }
}

proof fn lemma_line_step_bounded(
    src: Seq<char>,
    config: Configuration,
    index: int,
    st: LineState,
)
    requires
        src.len() <= usize::MAX,
        0 <= index < source_lines_of(src).len(),
        config.max_blank_lines < 255,
        blank_runs_bounded(st.out, st.blank_run, config.max_blank_lines as int),
    ensures
        blank_runs_bounded(
            line_step(src, source_lines_of(src), config, index, st).out,
            line_step(src, source_lines_of(src), config, index, st).blank_run,
            config.max_blank_lines as int,
        ),
{
    let lines = source_lines_of(src);
    let m = config.max_blank_lines as int;
    let text = line_text(src, lines[index]);
    lemma_lines_from_no_newline(src, 0);
    lemma_lines_from_wf(src, 0);
    assert(!text.contains('\n'));
    let te = trim_end(text);
    let content = trim_start(te);
    lemma_trim_ws_end_bounds(text, text.len() as int);
    lemma_skip_ws_bounds(te, 0);
    if content.len() == 0 {
        let run = if st.blank_run >= 255 {
            255
        } else {
            st.blank_run + 1
        };
        if run <= m {
            lemma_push_newline_run(st.out, m + 2);
        }
    } else {
        assert(content =~= text.subrange(skip_ws_from(te, 0), trim_ws_end_from(text, text.len() as int)));
        lemma_no_newline_subrange(text, skip_ws_from(te, 0), trim_ws_end_from(text, text.len() as int));
        assert(content[0] == te[skip_ws_from(te, 0)]);
        lemma_inline_spacing_props(content);
        let effective = indent_for(content, st.indent);
        let x = spaces(indent_columns(effective, config.indent_width as int) as nat) + inline_spacing(content);
        assert forall|k: int| 0 <= k < x.len() implies x[k] != '\n' by {
            if k >= spaces(indent_columns(effective, config.indent_width as int) as nat).len() {
                assert(x[k] == inline_spacing(content)[k - spaces(indent_columns(effective, config.indent_width as int) as nat).len()]);
            }
        }
        lemma_push_line_run(st.out, x, m + 2);
        assert(st.out + spaces(indent_columns(effective, config.indent_width as int) as nat) + inline_spacing(content)
            =~= st.out + x);
    }
}

proof fn lemma_lines_step_bounded(
    src: Seq<char>,
    config: Configuration,
    index: int,
    st: LineState,
)
    requires
        src.len() <= usize::MAX,
        0 <= index <= source_lines_of(src).len(),
        config.max_blank_lines < 255,
        blank_runs_bounded(st.out, st.blank_run, config.max_blank_lines as int),
    ensures
        blank_runs_bounded(
            lines_step_from(src, source_lines_of(src), config, index, st).out,
            lines_step_from(src, source_lines_of(src), config, index, st).blank_run,
            config.max_blank_lines as int,
        ),
    decreases source_lines_of(src).len() - index,
{
    if index < source_lines_of(src).len() {
        lemma_line_step_bounded(src, config, index, st);
        lemma_lines_step_bounded(
            src,
            config,
            index + 1,
            line_step(src, source_lines_of(src), config, index, st),
        );
    }
}

/// The line-oriented formatter never writes more than `max_blank_lines` blank
/// lines in a row: its output holds no run of `max_blank_lines + 2` line breaks.
/// (The run counter saturates at 255, so with `max_blank_lines` at 255 longer
/// runs are all kept.)
pub proof fn law_line_formatter_caps_blank_lines(file_text: Seq<char>, config: Configuration)
    requires
        file_text.len() <= usize::MAX,
        config.max_blank_lines < 255,
    ensures
        !has_newline_run(line_format_spec(file_text, config), config.max_blank_lines + 2),
{
    let src = crlf_to_lf(file_text);
    lemma_crlf_to_lf_len(file_text);
    let init = LineState { out: Seq::empty(), indent: 0, blank_run: 0 };
    assert(!has_newline_run(init.out, config.max_blank_lines + 2));
    lemma_lines_step_bounded(src, config, 0, init);
    let out = lines_step_from(src, source_lines_of(src), config, 0, init).out;
    if !(ends_with_char(file_text, '\n') || out.len() == 0) {
        lemma_newline_end_bounds(out, out.len() as int);
        lemma_prefix_newline_run(out, newline_end_from(out, out.len() as int), config.max_blank_lines + 2);
    }
}

proof fn lemma_newline_end_bounds(s: Seq<char>, j: int)
    requires
        0 <= j <= s.len(),
    ensures
        0 <= newline_end_from(s, j) <= j,
        forall|k: int| newline_end_from(s, j) <= k < j ==> s[k] == '\n',
        newline_end_from(s, j) > 0 ==> s[newline_end_from(s, j) - 1] != '\n',
    decreases j,
{
    if 0 < j && s[j - 1] == '\n' {
        lemma_newline_end_bounds(s, j - 1);
    }
}
/// Line `k` is a blank line inside a multiline string.
pub open spec fn string_blank_line(src: Seq<char>, k: int) -> bool {
    &&& multiline_string_flags(src, source_lines_of(src))[k]
    &&& trim_start(trim_end(line_text(src, source_lines_of(src)[k]))).len() == 0
}

/// How many blank lines inside a multiline string come right before line `k`.
pub open spec fn string_blank_run(src: Seq<char>, k: int) -> nat
    decreases k,
{
    if k > 0 && string_blank_line(src, k - 1) {
        1 + string_blank_run(src, k - 1)
    } else {
        0
    }
}

/// No multiline string holds more than `max_blank_lines` blank lines in a row.
pub open spec fn string_blank_runs_within(src: Seq<char>, max_blank_lines: int) -> bool {
    forall|k: int|
        0 <= k <= source_lines_of(src).len() ==> #[trigger] string_blank_run(src, k) <= max_blank_lines
}

// ---------------------------------------------------------------------------
// The token-aware formatter keeps at most `max_blank_lines` blank lines in a row
/// The tokens gathered for a line lie inside its byte range.
pub proof fn lemma_line_tokens_inside(
    src: Seq<char>,
    tokens: Seq<LexToken>,
    k: int,
    line_start: int,
    line_end: int,
    acc: Seq<LexToken>,
    verbatim: bool,
    structural: bool,
)
    requires
        forall|m: int| 0 <= m < acc.len() ==> {
            &&& tokens.contains(#[trigger] acc[m])
            &&& line_start <= acc[m].start
            &&& acc[m].end <= line_end
        },
    ensures
        ({
            let r = line_tokens_from(src, tokens, k, line_start, line_end, acc, verbatim, structural).0;
            forall|m: int| 0 <= m < r.len() ==> {
                &&& tokens.contains(#[trigger] r[m])
                &&& line_start <= r[m].start
                &&& r[m].end <= line_end
            }
        }),
    decreases tokens.len() - k,
{
    if 0 <= k < tokens.len() {
        let t = tokens[k];
        if t.kind == TokenKind::Eol || !(t.start < line_end && t.end > line_start) {
            lemma_line_tokens_inside(src, tokens, k + 1, line_start, line_end, acc, verbatim, structural);
        } else if t.start >= line_start && t.end <= line_end {
            let a2 = acc.push(t);
            assert forall|m: int| 0 <= m < a2.len() implies {
                &&& tokens.contains(#[trigger] a2[m])
                &&& line_start <= a2[m].start
                &&& a2[m].end <= line_end
            } by {
                if m == acc.len() {
                    assert(tokens[k] == a2[m]);
                } else {
                    assert(a2[m] == acc[m]);
                }
            }
            lemma_line_tokens_inside(src, tokens, k + 1, line_start, line_end, a2, verbatim, structural);
        } else if verbatim_token(src, t) {
            lemma_line_tokens_inside(src, tokens, k + 1, line_start, line_end, acc, true, structural);
        } else {
            lemma_line_tokens_inside(src, tokens, k + 1, line_start, line_end, acc, verbatim, true);
        }
    }
}

/// A token inside the byte range of a line covers characters of that line only.
proof fn lemma_token_in_line_plain(src: Seq<char>, line: SourceLine, token: LexToken)
    requires
        line.text_start <= line.text_end <= src.len(),
        line.start == byte_len(src.take(line.text_start as int)),
        line.end == byte_len(src.take(line.text_end as int)),
        !line_text(src, line).contains('\n'),
        token.start <= token.end,
        is_char_offset(src, token.start as int),
        is_char_offset(src, token.end as int),
        line.start <= token.start,
        token.end <= line.end,
    ensures
        !token_chars(src, token).contains('\n'),
{
    lemma_token_chars_range(src, token);
    lemma_char_index_of(src, token.start as int);
    lemma_char_index_of(src, token.end as int);
    let a = char_index_of(src, token.start as int);
    let b = char_index_of(src, token.end as int);
    if a < line.text_start {
        lemma_byte_len_prefix_strict(src, a, line.text_start as int);
    }
    if b > line.text_end {
        lemma_byte_len_prefix_strict(src, line.text_end as int, b);
    }
    let lt = line_text(src, line);
    assert(token_chars(src, token) =~= lt.subrange(a - line.text_start, b - line.text_start));
    lemma_subrange_plain(lt, a - line.text_start, b - line.text_start);
}

/// Laying out tokens without line breaks gives a text without line breaks.
proof fn lemma_layout_tokens_plain(
    src: Seq<char>,
    tokens: Seq<LexToken>,
    k: int,
    out: Seq<char>,
    prev_kind: Option<TokenKind>,
)
    requires
        0 <= k,
        forall|m: int| 0 <= m < tokens.len() ==> !token_chars(src, #[trigger] tokens[m]).contains('\n'),
        !out.contains('\n'),
    ensures
        !layout_tokens_from(src, tokens, k, out, prev_kind).contains('\n'),
    decreases tokens.len() - k,
{
    if k < tokens.len() {
        let token = tokens[k];
        let raw = token_chars(src, token);
        assert(!raw.contains('\n'));
        lemma_collapse_plain(raw);
        let text = if token.kind == TokenKind::Item {
            collapse_whitespace(raw)
        } else {
            raw
        };
        let has_next = k + 1 < tokens.len();
        lemma_space_end_bounds(out, out.len() as int);
        let so = strip_trailing_spaces(out);
        lemma_take_plain(out, space_end_from(out, out.len() as int));
        if token.kind == TokenKind::Comment {
            lemma_skip_ws_bounds(text, 0);
            assert(trim_start(text) =~= text.subrange(skip_ws_from(text, 0), text.len() as int));
            lemma_subrange_plain(text, skip_ws_from(text, 0), text.len() as int);
            if out.len() > 0 {
                lemma_push_plain_text(so, ' ');
                lemma_append_plain_text(so.push(' '), trim_start(text));
            }
        } else if is_connector(token.kind) {
            let o = if so.len() > 0 {
                so.push(' ')
            } else {
                so
            };
            lemma_push_plain_text(so, ' ');
            lemma_append_plain_text(o, text);
            lemma_push_plain_text(o + text, ' ');
            let o2 = if has_next {
                (o + text).push(' ')
            } else {
                o + text
            };
            lemma_layout_tokens_plain(src, tokens, k + 1, o2, Some(token.kind));
        } else if token.kind == TokenKind::Semicolon {
            lemma_append_plain_text(so, text);
            lemma_push_plain_text(so + text, ' ');
            let o2 = if has_next {
                (so + text).push(' ')
            } else {
                so + text
            };
            lemma_layout_tokens_plain(src, tokens, k + 1, o2, Some(token.kind));
        } else {
            let o = if space_before(prev_kind, token.kind, out) {
                out.push(' ')
            } else {
                out
            };
            lemma_push_plain_text(out, ' ');
            lemma_append_plain_text(o, text);
            lemma_layout_tokens_plain(src, tokens, k + 1, o + text, Some(token.kind));
        }
    }
}

proof fn lemma_push_plain_text(s: Seq<char>, c: char)
    requires
        !s.contains('\n'),
        c != '\n',
    ensures
        !s.push(c).contains('\n'),
{
    assert forall|m: int| 0 <= m < s.push(c).len() implies s.push(c)[m] != '\n' by {
        if m < s.len() {
            assert(s.push(c)[m] == s[m]);
            assert(s.contains(s[m]));
        }
    }
}

proof fn lemma_append_plain_text(s: Seq<char>, x: Seq<char>)
    requires
        !s.contains('\n'),
        !x.contains('\n'),
    ensures
        !(s + x).contains('\n'),
{
    assert forall|m: int| 0 <= m < (s + x).len() implies (s + x)[m] != '\n' by {
        if m < s.len() {
            assert((s + x)[m] == s[m]);
            assert(s.contains(s[m]));
        } else {
            assert((s + x)[m] == x[m - s.len()]);
            assert(x.contains(x[m - s.len()]));
        }
    }
}


/// The parts of a non-blank line of the layout: its text has no line break,
/// and its content starts and ends with a non-blank character.
proof fn lemma_line_parts(src: Seq<char>, config: Configuration, index: int)
    requires
        byte_len(src) <= usize::MAX,
        0 <= index < layout_of(src, config).lines.len(),
    ensures
        ({
            let l = layout_of(src, config);
            let line = l.lines[index];
            let text = line_text(src, line);
            let te = trim_end(text);
            let content = trim_start(te);
            &&& line.text_start <= line.text_end <= src.len()
            &&& line.start == byte_len(src.take(line.text_start as int))
            &&& line.end == byte_len(src.take(line.text_end as int))
            &&& !text.contains('\n')
            &&& content.len() > 0 ==> {
                &&& closed_line(te)
                &&& closed_line(content)
                &&& !is_unicode_ws(content[0])
                &&& !content.contains('\n')
                &&& closed_line(trim_start(text))
            }
        }),
{
    let l = layout_of(src, config);
    let line = l.lines[index];
    lemma_byte_len_bounds(src);
    lemma_lines_from_wf(src, 0);
    lemma_lines_from_no_newline(src, 0);
    lemma_lines_from_bytes(src, 0);
    assert(l.lines[index] == source_lines_of(src)[index]);
    let text = line_text(src, line);
    let te = trim_end(text);
    let content = trim_start(te);
    lemma_trim_ws_end_bounds(text, text.len() as int);
    lemma_skip_ws_bounds(te, 0);
    lemma_take_plain(text, te.len() as int);
    if content.len() > 0 {
        assert(te.len() > 0);
        assert(te.last() == text[te.len() - 1]);
        lemma_plain_separated(te);
        assert(content =~= te.subrange(skip_ws_from(te, 0), te.len() as int));
        lemma_subrange_plain(te, skip_ws_from(te, 0), te.len() as int);
        lemma_plain_separated(content);
        assert(content.last() == te.last());
        assert(content[0] == te[skip_ws_from(te, 0)]);
        lemma_trim_empty_iff(text);
        lemma_skip_ws_bounds(text, 0);
        let ts = trim_start(text);
        assert(ts =~= text.subrange(skip_ws_from(text, 0), text.len() as int));
        lemma_subrange_plain(text, skip_ws_from(text, 0), text.len() as int);
        lemma_plain_separated(ts);
        assert(ts.last() == text[text.len() - 1]);
        assert(text.contains(text[text.len() - 1]));
    }
}

/// The text a non-blank line is written as is a closed line.
proof fn lemma_line_body_closed(src: Seq<char>, config: Configuration, index: int, indent: int)
    requires
        byte_len(src) <= usize::MAX,
        spans_fit(src, layout_of(src, config).tokens),
        0 <= index < layout_of(src, config).lines.len(),
        trim_start(trim_end(line_text(src, layout_of(src, config).lines[index]))).len() > 0,
    ensures
        closed_line(line_body_spec(layout_of(src, config), index, indent)),
{
    let l = layout_of(src, config);
    let line = l.lines[index];
    let text = line_text(src, line);
    let te = trim_end(text);
    let content = trim_start(te);
    lemma_line_parts(src, config, index);
    let width = line_indent_width(l, index, indent);
    let toks = line_tokens_of(src, l.tokens, line.start as int, line.end as int);
    if l.strings[index] {
    } else if toks.1 || toks.2 {
        lemma_collapse_plain(content);
        lemma_split_heads_props(collapse_whitespace(content), width as nat);
        lemma_restore_separators_props(split_heads(collapse_whitespace(content), width as nat));
    } else {
        let picked = toks.0;
        lemma_line_tokens_inside(src, l.tokens, 0, line.start as int, line.end as int, Seq::empty(), false, false);
        assert forall|m: int| 0 <= m < picked.len() implies !token_chars(src, #[trigger] picked[m]).contains('\n') by {
            let k = choose|k: int| 0 <= k < l.tokens.len() && l.tokens[k] == picked[m];
            assert(l.tokens[k] == picked[m]);
            lemma_token_in_line_plain(src, line, picked[m]);
        }
        let laid = layout_tokens_from(src, picked, 0, Seq::empty(), None);
        lemma_layout_tokens_plain(src, picked, 0, Seq::empty(), None);
        lemma_space_end_bounds(laid, laid.len() as int);
        lemma_take_plain(laid, space_end_from(laid, laid.len() as int));
        let stripped = strip_trailing_spaces(laid);
        lemma_split_heads_props(stripped, width as nat);
        lemma_restore_separators_props(split_heads(stripped, width as nat));
        assert(line_body_spec(l, index, indent) == format_line_spec(te, picked, src, width as nat));
    }
}


/// What the token-aware layout keeps through the lines, before line `index`:
/// no run of `max_blank_lines + 2` line breaks, no more than
/// `max_blank_lines` at the start (and, while the text holds nothing but
/// line breaks, no more of them than the blank lines seen); at the end, at
/// most one line break more than the blank lines written since the last
/// non-blank line, or than the blank lines of a string that come right before.
pub open spec fn format_runs_bounded(src: Seq<char>, index: int, out: Seq<char>, blank_run: int, max_blank_lines: int) -> bool {
    let sb = string_blank_run(src, index);
    &&& !has_newline_run(out, max_blank_lines + 2)
    &&& 0 <= blank_run <= 255
    &&& !newline_run_at(out, 0, max_blank_lines + 1)
    &&& all_newlines(out) ==> out.len() <= blank_run
    &&& sb == 0 ==> trailing_newlines(out) <= 1 + if blank_run <= max_blank_lines {
        blank_run
    } else {
        max_blank_lines
    }
    &&& sb > 0 ==> blank_run == 0 && trailing_newlines(out) <= 1 + sb && !all_newlines(out)
    &&& index > 0 && trim_start(trim_end(line_text(src, source_lines_of(src)[index - 1]))).len() > 0
        ==> blank_run == 0 && trailing_newlines(out) <= 1 && !all_newlines(out)
}

proof fn lemma_format_step_bounded(src: Seq<char>, config: Configuration, index: int, st: FormatState)
    requires
        byte_len(src) <= usize::MAX,
        spans_fit(src, layout_of(src, config).tokens),
        0 <= index < layout_of(src, config).lines.len(),
        config.max_blank_lines < 255,
        string_blank_runs_within(src, config.max_blank_lines as int),
        format_runs_bounded(src, index, st.out, st.blank_run, config.max_blank_lines as int),
    ensures
        format_runs_bounded(
            src,
            index + 1,
            format_step(layout_of(src, config), index, st).out,
            format_step(layout_of(src, config), index, st).blank_run,
            config.max_blank_lines as int,
        ),
{
    let l = layout_of(src, config);
    let m = config.max_blank_lines as int;
    let n = m + 2;
    let line = l.lines[index];
    let text = line_text(src, line);
    let te = trim_end(text);
    let content = trim_start(te);
    lemma_line_parts(src, config, index);
    let lines = source_lines_of(src);
    assert(l.lines[index] == lines[index]);
    assert(string_blank_line(src, index) == (content.len() == 0 && l.strings[index]));
    assert(string_blank_run(src, index + 1) == if string_blank_line(src, index) {
        1 + string_blank_run(src, index)
    } else {
        0
    });
    assert(string_blank_run(src, index + 1) <= m);
    if content.len() == 0 {
        lemma_trim_empty_iff(text);
        assert(forall|c: int| 0 <= c < text.len() ==> is_unicode_ws(#[trigger] text[c]));
    }
    if index > 0 && string_blank_line(src, index - 1) {
        let pt = line_text(src, lines[index - 1]);
        lemma_trim_empty_iff(pt);
        lemma_blank_string_line_neighbours(src, lines, index - 1);
    }
    if content.len() == 0 && l.strings[index] {
        lemma_blank_string_line_neighbours(src, lines, index);
        let sb = string_blank_run(src, index);
        if !string_blank_line(src, index - 1) {
            assert(sb == 0);
        }
        if line.has_newline {
            lemma_push_newline_run(st.out, n);
            lemma_leading_push_newline(st.out, m + 1);
        }
    } else if content.len() == 0 {
        let run = if st.blank_run >= 255 {
            255
        } else {
            st.blank_run + 1
        };
        if run <= m {
            lemma_push_newline_run(st.out, n);
            if all_newlines(st.out) {
                lemma_leading_push_blank(st.out, m + 1);
            } else {
                lemma_leading_push_newline(st.out, m + 1);
            }
        }
    } else {
        let in_string = l.strings[index];
        let width = line_indent_width(l, index, st.indent);
        let body = line_body_spec(l, index, st.indent);
        let join = if in_string || (index > 0 && l.strings[index - 1]) || l.lists[index]
            || l.groups[index] {
            None
        } else {
            join_with_previous_spec(st.out, l.src, l.lines, index, content, body, l.line_width)
        };
        let out1 = match join {
            Some(sep) => {
                let o = if ends_with_char(st.out, '\n') {
                    st.out.drop_last()
                } else {
                    st.out
                };
                let o = strip_trailing_spaces(o);
                if separator_text(sep).len() > 0 && o.len() > 0 {
                    o + separator_text(sep)
                } else {
                    o
                }
            },
            None => if in_string {
                st.out
            } else if l.groups[index] && keeps_source_indent(content) {
                st.out + spaces(indent_of(text) as nat)
            } else {
                st.out + spaces(width as nat)
            },
        };
        assert(!has_newline_run(out1, n) && !newline_run_at(out1, 0, m + 1)) by {
            match join {
                Some(sep) => {
                    let o = if ends_with_char(st.out, '\n') {
                        st.out.drop_last()
                    } else {
                        st.out
                    };
                    if ends_with_char(st.out, '\n') {
                        lemma_prefix_newline_run(st.out, st.out.len() - 1, n);
                        lemma_leading_take(st.out, st.out.len() - 1, m + 1);
                        assert(st.out.drop_last() =~= st.out.take(st.out.len() - 1));
                    }
                    lemma_space_end_bounds(o, o.len() as int);
                    lemma_prefix_newline_run(o, space_end_from(o, o.len() as int), n);
                    lemma_leading_take(o, space_end_from(o, o.len() as int), m + 1);
                    let so = strip_trailing_spaces(o);
                    assert(!separator_text(sep).contains('\n')) by {
                        assert forall|k: int| 0 <= k < separator_text(sep).len() implies separator_text(sep)[k] != '\n' by {}
                    }
                    lemma_append_plain_run(so, separator_text(sep), n);
                    lemma_leading_append_plain(so, separator_text(sep), m + 1);
                },
                None => {
                    lemma_spaces_plain(indent_of(text) as nat);
                    lemma_spaces_plain(width as nat);
                    lemma_append_plain_run(st.out, spaces(indent_of(text) as nat), n);
                    lemma_append_plain_run(st.out, spaces(width as nat), n);
                    lemma_leading_append_plain(st.out, spaces(indent_of(text) as nat), m + 1);
                    lemma_leading_append_plain(st.out, spaces(width as nat), m + 1);
                },
            }
        }
        let piece = if in_string {
            if join is None {
                te
            } else {
                content
            }
        } else {
            body
        };
        assert(closed_line(piece)) by {
            if !in_string {
                lemma_line_body_closed(src, config, index, st.indent);
            }
        }
        lemma_append_closed_line(out1, piece, n);
        lemma_leading_append_closed(out1, piece, m + 1);
        if line.has_newline {
            lemma_push_newline_run(out1 + piece, n);
            lemma_leading_push_newline(out1 + piece, m + 1);
        }
        assert(!string_blank_line(src, index));
    }
}

proof fn lemma_format_lines_bounded(src: Seq<char>, config: Configuration, index: int, st: FormatState)
    requires
        byte_len(src) <= usize::MAX,
        spans_fit(src, layout_of(src, config).tokens),
        0 <= index <= layout_of(src, config).lines.len(),
        config.max_blank_lines < 255,
        string_blank_runs_within(src, config.max_blank_lines as int),
        format_runs_bounded(src, index, st.out, st.blank_run, config.max_blank_lines as int),
    ensures
        !has_newline_run(format_lines_from(layout_of(src, config), index, st).out, config.max_blank_lines + 2),
        !newline_run_at(format_lines_from(layout_of(src, config), index, st).out, 0, config.max_blank_lines + 1),
    decreases layout_of(src, config).lines.len() - index,
{
    if index < layout_of(src, config).lines.len() {
        lemma_format_step_bounded(src, config, index, st);
        lemma_format_lines_bounded(src, config, index + 1, format_step(layout_of(src, config), index, st));
    }
}

/// The formatter never writes more than `max_blank_lines` blank lines in a
/// row, nor starts with more than that many: its output for a document that
/// Nushell's lexer accepts holds no run of `max_blank_lines + 2` line breaks
/// and does not start with `max_blank_lines + 1` of them. Blank lines inside
/// multiline strings are kept as written, so documents where a string holds
/// more than `max_blank_lines` blank lines in a row are left out. The lexer's tokens lie on character boundaries inside the
/// document, as `lex_document` ensures of every document. (The run counter
/// saturates at 255, so with `max_blank_lines` at 255 longer runs are kept.)
pub proof fn law_formatter_caps_blank_lines(file_text: Seq<char>, config: Configuration)
    requires
        byte_len(crlf_to_lf(file_text)) <= usize::MAX,
        !nu_lex(crlf_to_lf(file_text)).1,
        spans_fit(crlf_to_lf(file_text), lexed_tokens(crlf_to_lf(file_text))),
        config.max_blank_lines < 255,
        string_blank_runs_within(crlf_to_lf(file_text), config.max_blank_lines as int),
    ensures
        !has_newline_run(format_spec(file_text, config), config.max_blank_lines + 2),
        !newline_run_at(format_spec(file_text, config), 0, config.max_blank_lines + 1),
{
    let src = crlf_to_lf(file_text);
    lemma_crlf_to_lf_len(file_text);
    let init = FormatState { out: Seq::empty(), indent: 0, blank_run: 0 };
    assert(!has_newline_run(init.out, config.max_blank_lines + 2));
    lemma_format_lines_bounded(src, config, 0, init);
}


// ---------------------------------------------------------------------------
// The token-aware formatter moves whitespace and nothing else
/// On a line that no token reaches past, the tokens that lie in it carry all
/// of its visible characters, in order, and a comment is the last of them.
pub open spec fn tokens_cover_line(src: Seq<char>, tokens: Seq<LexToken>, line: SourceLine) -> bool {
    let toks = line_tokens_of(src, tokens, line.start as int, line.end as int);
    !(toks.1 || toks.2) ==> {
        &&& tokens_visible(src, toks.0, 0) == visible(line_text(src, line))
        &&& forall|m: int|
            0 <= m < toks.0.len() - 1 ==> (#[trigger] toks.0[m]).kind != TokenKind::Comment
    }
}

/// Nushell's tokens of a document leave no visible character of its lines out.
pub open spec fn tokens_cover_lines(src: Seq<char>) -> bool {
    forall|k: int|
        0 <= k < source_lines_of(src).len() ==> tokens_cover_line(
            src,
            lexed_tokens(src),
            #[trigger] source_lines_of(src)[k],
        )
}

/// The text a non-blank line is written as holds the visible characters of the line.
proof fn lemma_line_body_visible(src: Seq<char>, config: Configuration, index: int, indent: int)
    requires
        byte_len(src) <= usize::MAX,
        tokens_cover_lines(src),
        0 <= index < layout_of(src, config).lines.len(),
    ensures
        visible(line_body_spec(layout_of(src, config), index, indent)) == visible(
            line_text(src, layout_of(src, config).lines[index]),
        ),
{
    let l = layout_of(src, config);
    let line = l.lines[index];
    let text = line_text(src, line);
    let te = trim_end(text);
    let content = trim_start(te);
    lemma_visible_trim_end(text);
    lemma_visible_trim_start(te);
    let width = line_indent_width(l, index, indent);
    let toks = line_tokens_of(src, l.tokens, line.start as int, line.end as int);
    if l.strings[index] {
    } else if toks.1 || toks.2 {
        lemma_visible_collapse(content);
        lemma_visible_split_heads(collapse_whitespace(content), width as nat);
        lemma_visible_restore(split_heads(collapse_whitespace(content), width as nat));
    } else {
        assert(tokens_cover_line(src, l.tokens, source_lines_of(src)[index]));
        let picked = toks.0;
        let laid = layout_tokens_from(src, picked, 0, Seq::empty(), None);
        lemma_visible_layout_tokens(src, picked, 0, Seq::empty(), None);
        assert(visible(Seq::<char>::empty()) =~= Seq::<char>::empty());
        assert(Seq::<char>::empty() + tokens_visible(src, picked, 0) =~= tokens_visible(src, picked, 0));
        lemma_visible_strip(laid);
        lemma_visible_split_heads(strip_trailing_spaces(laid), width as nat);
        lemma_visible_restore(split_heads(strip_trailing_spaces(laid), width as nat));
        assert(line_body_spec(l, index, indent) == format_line_spec(te, picked, src, width as nat));
    }
}

#[verifier::rlimit(40)]
#[verifier::spinoff_prover]
proof fn lemma_format_step_visible(src: Seq<char>, config: Configuration, index: int, st: FormatState)
    requires
        byte_len(src) <= usize::MAX,
        tokens_cover_lines(src),
        0 <= index < layout_of(src, config).lines.len(),
        visible(st.out) == visible(src.take(layout_of(src, config).lines[index].text_start as int)),
    ensures
        visible(format_step(layout_of(src, config), index, st).out) == visible(
            src.take(after_line(src, layout_of(src, config).lines, index)),
        ),
{
    let l = layout_of(src, config);
    let line = l.lines[index];
    let text = line_text(src, line);
    let te = trim_end(text);
    let content = trim_start(te);
    lemma_byte_len_bounds(src);
    lemma_lines_from_wf(src, 0);
    lemma_lines_from_cover(src, 0);
    assert(l.lines[index] == source_lines_of(src)[index]);
    let a = line.text_start as int;
    let nx = after_line(src, l.lines, index);
    let tail = if line.has_newline {
        seq!['\n']
    } else {
        Seq::<char>::empty()
    };
    assert(src.take(nx) =~= src.take(a) + text + tail);
    lemma_visible_append(src.take(a) + text, tail);
    lemma_visible_append(src.take(a), text);
    assert(visible(tail) =~= Seq::<char>::empty()) by {
        if line.has_newline {
            lemma_visible_push(Seq::<char>::empty(), '\n');
            assert(tail =~= Seq::<char>::empty().push('\n'));
        }
    }
    let goal = visible(src.take(a)) + visible(text);
    assert(visible(src.take(nx)) =~= goal);
    if content.len() == 0 {
        lemma_trim_empty_iff(text);
        lemma_visible_blank(text);
        lemma_visible_push(st.out, '\n');
        assert(visible(st.out) + Seq::<char>::empty() =~= visible(st.out));
        assert(goal =~= visible(st.out));
    } else {
        let in_string = l.strings[index];
        let width = line_indent_width(l, index, st.indent);
        let body = line_body_spec(l, index, st.indent);
        let join = if in_string || (index > 0 && l.strings[index - 1]) || l.lists[index]
            || l.groups[index] {
            None
        } else {
            join_with_previous_spec(st.out, l.src, l.lines, index, content, body, l.line_width)
        };
        let out1 = match join {
            Some(sep) => {
                let o = if ends_with_char(st.out, '\n') {
                    st.out.drop_last()
                } else {
                    st.out
                };
                let o = strip_trailing_spaces(o);
                if separator_text(sep).len() > 0 && o.len() > 0 {
                    o + separator_text(sep)
                } else {
                    o
                }
            },
            None => if in_string {
                st.out
            } else if l.groups[index] && keeps_source_indent(content) {
                st.out + spaces(indent_of(text) as nat)
            } else {
                st.out + spaces(width as nat)
            },
        };
        assert(visible(out1) == visible(st.out)) by {
            match join {
                Some(sep) => {
                    let o = if ends_with_char(st.out, '\n') {
                        st.out.drop_last()
                    } else {
                        st.out
                    };
                    if ends_with_char(st.out, '\n') {
                        assert(st.out.drop_last().push('\n') =~= st.out);
                        lemma_visible_push(st.out.drop_last(), '\n');
                        assert(visible(o) + Seq::<char>::empty() =~= visible(o));
                    }
                    lemma_visible_strip(o);
                    let so = strip_trailing_spaces(o);
                    lemma_visible_append(so, separator_text(sep));
                    assert(visible(separator_text(sep)) =~= Seq::<char>::empty()) by {
                        if separator_text(sep).len() > 0 {
                            assert(separator_text(sep) =~= Seq::<char>::empty().push(' '));
                            lemma_visible_push(Seq::<char>::empty(), ' ');
                        }
                    }
                    assert(visible(so) + Seq::<char>::empty() =~= visible(so));
                },
                None => {
                    lemma_visible_spaces(indent_of(text) as nat);
                    lemma_visible_spaces(width as nat);
                    lemma_visible_append(st.out, spaces(indent_of(text) as nat));
                    lemma_visible_append(st.out, spaces(width as nat));
                    assert(visible(st.out) + Seq::<char>::empty() =~= visible(st.out));
                },
            }
        }
        let piece = if in_string {
            if join is None {
                te
            } else {
                content
            }
        } else {
            body
        };
        assert(visible(piece) == visible(text)) by {
            lemma_visible_trim_end(text);
            lemma_visible_trim_start(te);
            if !in_string {
                lemma_line_body_visible(src, config, index, st.indent);
            }
        }
        lemma_visible_append(out1, piece);
        lemma_visible_push(out1 + piece, '\n');
        assert(visible(out1 + piece) + Seq::<char>::empty() =~= visible(out1 + piece));
    }
}

proof fn lemma_format_lines_visible(src: Seq<char>, config: Configuration, index: int, st: FormatState)
    requires
        byte_len(src) <= usize::MAX,
        tokens_cover_lines(src),
        0 <= index <= layout_of(src, config).lines.len(),
        visible(st.out) == visible(src.take(
            if index < layout_of(src, config).lines.len() {
                layout_of(src, config).lines[index].text_start as int
            } else {
                src.len() as int
            },
        )),
    ensures
        visible(format_lines_from(layout_of(src, config), index, st).out) == visible(src),
    decreases layout_of(src, config).lines.len() - index,
{
    let l = layout_of(src, config);
    if index < l.lines.len() {
        lemma_format_step_visible(src, config, index, st);
        lemma_format_lines_visible(src, config, index + 1, format_step(l, index, st));
    } else {
        assert(src.take(src.len() as int) =~= src);
    }
}

/// The formatter moves whitespace and nothing else: for a document that
/// Nushell's lexer accepts, and whose lines the lexer's tokens cover (which
/// `lex_document` ensures of every document it lexes without error), the
/// formatted text holds the document's visible characters, all of them and
/// in the same order.
pub proof fn law_formatter_keeps_visible_text(file_text: Seq<char>, config: Configuration)
    requires
        byte_len(crlf_to_lf(file_text)) <= usize::MAX,
        !nu_lex(crlf_to_lf(file_text)).1,
        tokens_cover_lines(crlf_to_lf(file_text)),
    ensures
        visible(format_spec(file_text, config)) == visible(file_text),
{
    let src = crlf_to_lf(file_text);
    lemma_crlf_to_lf_len(file_text);
    lemma_visible_crlf_to_lf(file_text);
    lemma_byte_len_bounds(src);
    lemma_lines_from_cover(src, 0);
    let init = FormatState { out: Seq::empty(), indent: 0, blank_run: 0 };
    assert(src.take(0) =~= Seq::<char>::empty());
    assert(visible(Seq::<char>::empty()) =~= Seq::<char>::empty());
    if layout_of(src, config).lines.len() == 0 {
        assert(src.take(src.len() as int) =~= Seq::<char>::empty());
    }
    lemma_format_lines_visible(src, config, 0, init);
}


// ---------------------------------------------------------------------------
// The line-oriented formatter moves whitespace and nothing else
proof fn lemma_lines_step_visible(src: Seq<char>, config: Configuration, index: int, st: LineState)
    requires
        src.len() <= usize::MAX,
        0 <= index <= source_lines_of(src).len(),
        visible(st.out) == visible(src.take(
            if index < source_lines_of(src).len() {
                source_lines_of(src)[index].text_start as int
            } else {
                src.len() as int
            },
        )),
    ensures
        visible(lines_step_from(src, source_lines_of(src), config, index, st).out) == visible(src),
    decreases source_lines_of(src).len() - index,
{
    let lines = source_lines_of(src);
    if index < lines.len() {
        lemma_lines_from_wf(src, 0);
        lemma_lines_from_cover(src, 0);
        let line = lines[index];
        let text = line_text(src, line);
        let content = trim_start(trim_end(text));
        let a = line.text_start as int;
        let nx = after_line(src, lines, index);
        let tail = if line.has_newline {
            seq!['\n']
        } else {
            Seq::<char>::empty()
        };
        assert(src.take(nx) =~= src.take(a) + text + tail);
        lemma_visible_append(src.take(a) + text, tail);
        lemma_visible_append(src.take(a), text);
        assert(visible(tail) =~= Seq::<char>::empty()) by {
            if line.has_newline {
                lemma_visible_push(Seq::<char>::empty(), '\n');
                assert(tail =~= Seq::<char>::empty().push('\n'));
            }
        }
        let n = line_step(src, lines, config, index, st);
        assert(visible(n.out) == visible(src.take(nx))) by {
            lemma_visible_push(st.out, '\n');
            if content.len() == 0 {
                lemma_trim_empty_iff(text);
                lemma_visible_blank(text);
                assert(visible(st.out) + Seq::<char>::empty() =~= visible(st.out));
            } else {
                let effective = indent_for(content, st.indent);
                let sp = spaces(indent_columns(effective, config.indent_width as int) as nat);
                lemma_visible_spaces(indent_columns(effective, config.indent_width as int) as nat);
                lemma_visible_append(st.out, sp);
                lemma_visible_inline_spacing(content);
                lemma_visible_trim_end(text);
                lemma_visible_trim_start(trim_end(text));
                lemma_visible_append(st.out + sp, inline_spacing(content));
                lemma_visible_push(st.out + sp + inline_spacing(content), '\n');
                assert(visible(st.out) + Seq::<char>::empty() =~= visible(st.out));
                assert(visible(st.out + sp + inline_spacing(content)) + Seq::<char>::empty()
                    =~= visible(st.out + sp + inline_spacing(content)));
            }
            assert(visible(src.take(a)) + visible(text) + Seq::<char>::empty() =~= visible(src.take(a))
                + visible(text));
        }
        lemma_lines_step_visible(src, config, index + 1, n);
    } else {
        assert(src.take(src.len() as int) =~= src);
    }
}

/// The line-oriented formatter moves whitespace and nothing else: the
/// formatted text holds the document's visible characters, all of them and in
/// the same order.
pub proof fn law_line_formatter_keeps_visible_text(file_text: Seq<char>, config: Configuration)
    requires
        file_text.len() <= usize::MAX,
    ensures
        visible(line_format_spec(file_text, config)) == visible(file_text),
{
    let src = crlf_to_lf(file_text);
    lemma_crlf_to_lf_len(file_text);
    lemma_visible_crlf_to_lf(file_text);
    lemma_lines_from_cover(src, 0);
    let init = LineState { out: Seq::empty(), indent: 0, blank_run: 0 };
    assert(src.take(0) =~= Seq::<char>::empty());
    assert(visible(Seq::<char>::empty()) =~= Seq::<char>::empty());
    if source_lines_of(src).len() == 0 {
        assert(src.take(src.len() as int) =~= Seq::<char>::empty());
    }
    lemma_lines_step_visible(src, config, 0, init);
    let out = lines_step_from(src, source_lines_of(src), config, 0, init).out;
    if !(ends_with_char(file_text, '\n') || out.len() == 0) {
        lemma_newline_end_bounds(out, out.len() as int);
        let e = newline_end_from(out, out.len() as int);
        assert forall|j: int| e <= j < out.len() implies is_unicode_ws(#[trigger] out[j]) by {
            assert(out[j] == '\n');
        }
        lemma_visible_drop_blank_end(out, e);
    }
}


// ---------------------------------------------------------------------------
// Separator spaces
/// Two bars that stand together outside string literals are written together,
/// as one `||`, when no closure's parameter list is open before them: putting
/// separator spaces back adds nothing between them (at most one space after).
pub proof fn law_double_bar_stays_together(t: Seq<char>, i: int, st: Separators)
    requires
        0 <= i,
        i + 1 < t.len(),
        t[i] == '|',
        t[i + 1] == '|',
        st.quote is None,
        !st.in_signature,
    ensures
        ({
            let out = separators_step(t, i + 1, separators_step(t, i, st)).out;
            out == st.out + seq!['|', '|'] || out == (st.out + seq!['|', '|']).push(' ')
        }),
{
    let st1 = separators_step(t, i, st);
    assert(st1.out == st.out.push('|'));
    assert(st1.quote is None);
    let out = separators_step(t, i + 1, st1).out;
    assert(out == st1.out.push('|') || out == st1.out.push('|').push(' '));
    assert(st.out.push('|').push('|') =~= st.out + seq!['|', '|']);
}


// ---------------------------------------------------------------------------
// The line-oriented formatter keeps the final line break as it was
proof fn lemma_lines_step_ends_with_newline(
    src: Seq<char>,
    config: Configuration,
    index: int,
    st: LineState,
)
    requires
        0 <= index,
        st.out.len() > 0 ==> st.out.last() == '\n',
    ensures
        ({
            let out = lines_step_from(src, source_lines_of(src), config, index, st).out;
            out.len() > 0 ==> out.last() == '\n'
        }),
    decreases source_lines_of(src).len() - index,
{
    if index < source_lines_of(src).len() {
        let n = line_step(src, source_lines_of(src), config, index, st);
        lemma_lines_step_ends_with_newline(src, config, index + 1, n);
    }
}

/// A document with any visible character keeps its final line break, or its
/// lack of one, through the line-oriented formatter.
pub proof fn law_line_formatter_keeps_final_newline(file_text: Seq<char>, config: Configuration)
    requires
        file_text.len() <= usize::MAX,
        visible(file_text).len() > 0,
    ensures
        ends_with_char(line_format_spec(file_text, config), '\n') == ends_with_char(file_text, '\n'),
{
    let src = crlf_to_lf(file_text);
    let init = LineState { out: Seq::empty(), indent: 0, blank_run: 0 };
    lemma_lines_step_ends_with_newline(src, config, 0, init);
    let out = lines_step_from(src, source_lines_of(src), config, 0, init).out;
    law_line_formatter_keeps_visible_text(file_text, config);
    let res = line_format_spec(file_text, config);
    assert(res.len() > 0) by {
        if res.len() == 0 {
            assert(visible(res) =~= Seq::<char>::empty());
        }
    }
    if !ends_with_char(file_text, '\n') {
        lemma_newline_end_bounds(out, out.len() as int);
        let e = newline_end_from(out, out.len() as int);
        assert(res == out.take(e));
        assert(res.last() == out[e - 1]);
    }
}


// ---------------------------------------------------------------------------
// Comments open no string literal
proof fn lemma_quote_after_stops_at_comment(t: Seq<char>, j: int, i: int, q: Option<char>, escaped: bool)
    requires
        0 <= i <= j < t.len(),
        t[j] == '#',
        quote_after(t.take(j), i, q, escaped) is None,
    ensures
        quote_after(t, i, q, escaped) is None,
    decreases j - i,
{
    let p = t.take(j);
    if i < j {
        let ch = t[i];
        assert(p[i] == ch);
        if i + 1 < j {
            assert(p[i + 1] == t[i + 1]);
        }
        match q {
            Some(qc) => {
                if escaped {
                    lemma_quote_after_stops_at_comment(t, j, i + 1, q, false);
                } else if qc == '"' && ch == '\\' {
                    lemma_quote_after_stops_at_comment(t, j, i + 1, q, true);
                } else if ch == qc {
                    lemma_quote_after_stops_at_comment(t, j, i + 1, None, false);
                } else {
                    lemma_quote_after_stops_at_comment(t, j, i + 1, q, false);
                }
            },
            None => {
                if ch == '#' {
                } else if ch == '$' && i + 1 < t.len() && t[i + 1] == '"' {
                    assert(i + 1 < j);
                    lemma_quote_after_stops_at_comment(t, j, i + 2, Some('"'), false);
                } else if ch == '"' || ch == '\'' || ch == '`' {
                    lemma_quote_after_stops_at_comment(t, j, i + 1, Some(ch), false);
                } else {
                    lemma_quote_after_stops_at_comment(t, j, i + 1, None, false);
                }
            },
        }
    }
}

/// A `#` that stands outside every string literal starts a comment, and what
/// follows it opens no string: when no string is open after the part of a line
/// before such a `#`, none is open after the whole line, whatever quotes the
/// comment holds.
pub proof fn law_comment_opens_no_string(t: Seq<char>, j: int, active: Option<char>)
    requires
        0 <= j < t.len(),
        t[j] == '#',
        quote_after(t.take(j), 0, active, false) is None,
    ensures
        quote_after(t, 0, active, false) is None,
{
    lemma_quote_after_stops_at_comment(t, j, 0, active, false);
}

/// A line that holds only a comment (whitespace, then `#`), coming first or
/// after a line outside multiline strings, is not a multiline-string line, and
/// leaves no string open: the next line is marked only if it opens one itself.
pub proof fn law_comment_line_is_not_in_a_string(src: Seq<char>, lines: Seq<SourceLine>, k: int, j: int)
    requires
        0 <= k < lines.len(),
        k == 0 || !multiline_string_flags(src, lines)[k - 1],
        0 <= j < line_text(src, lines[k]).len(),
        line_text(src, lines[k])[j] == '#',
        forall|c: int| 0 <= c < j ==> is_unicode_ws(#[trigger] line_text(src, lines[k])[c]),
    ensures
        !multiline_string_flags(src, lines)[k],
        k + 1 < lines.len() ==> (multiline_string_flags(src, lines)[k + 1] <==> quote_after(
            line_text(src, lines[k + 1]),
            0,
            None,
            false,
        ) is Some),
{
    let t = line_text(src, lines[k]);
    lemma_flags_at(src, lines, 0, k);
    if k > 0 {
        lemma_flags_at(src, lines, 0, k - 1);
    }
    assert(active_before(src, lines, k) is None);
    let p = t.take(j);
    assert forall|c: int| 0 <= c < p.len() implies is_unicode_ws(#[trigger] p[c]) by {
        assert(p[c] == t[c]);
    }
    lemma_quote_after_blank(p, 0, None);
    lemma_quote_after_stops_at_comment(t, j, 0, None, false);
    assert(active_before(src, lines, k + 1) is None);
    if k + 1 < lines.len() {
        lemma_flags_at(src, lines, 0, k + 1);
    }
}


// ---------------------------------------------------------------------------
// A `'` inside a double-quoted string is an ordinary character
proof fn lemma_indent_after_same_rest(
    t1: Seq<char>,
    i1: int,
    t2: Seq<char>,
    i2: int,
    indent: int,
    sq: bool,
    dq: bool,
    esc: bool,
)
    requires
        0 <= i1 <= t1.len(),
        0 <= i2 <= t2.len(),
        t1.skip(i1) == t2.skip(i2),
    ensures
        indent_after_from(t1, i1, indent, sq, dq, esc) == indent_after_from(t2, i2, indent, sq, dq, esc),
    decreases t1.len() - i1,
{
    assert(t1.skip(i1).len() == t1.len() - i1);
    assert(t2.skip(i2).len() == t2.len() - i2);
    if i1 < t1.len() {
        assert(t1[i1] == t1.skip(i1)[0]);
        assert(t2[i2] == t2.skip(i2)[0]);
        assert(t1.skip(i1 + 1) =~= t1.skip(i1).skip(1));
        assert(t2.skip(i2 + 1) =~= t2.skip(i2).skip(1));
        let ch = t1[i1];
        let quoted = sq || dq;
        let n = if (ch == '{' || ch == '[' || ch == '(') && !quoted && !esc && !(ch == '\\' && quoted) {
            indent + 1
        } else if (ch == '}' || ch == ']' || ch == ')') && !quoted && !esc {
            if indent > 0 {
                indent - 1
            } else {
                0
            }
        } else {
            indent
        };
        lemma_indent_after_same_rest(t1, i1 + 1, t2, i2 + 1, indent, sq, dq, false);
        lemma_indent_after_same_rest(t1, i1 + 1, t2, i2 + 1, indent, sq, dq, true);
        lemma_indent_after_same_rest(t1, i1 + 1, t2, i2 + 1, indent, !sq, dq, esc);
        lemma_indent_after_same_rest(t1, i1 + 1, t2, i2 + 1, indent, sq, !dq, esc);
        lemma_indent_after_same_rest(t1, i1 + 1, t2, i2 + 1, n, sq, dq, esc);
    }
}

/// Scanning a double-quoted literal without `"` or `\` inside, from outside
/// any string, leaves the level and the state as they were.
proof fn lemma_indent_after_skips_literal(t: Seq<char>, i: int, k: int, indent: int)
    requires
        0 <= i < k < t.len(),
        t[i] == '"',
        t[k] == '"',
        forall|c: int| i < c < k ==> t[c] != '"' && t[c] != '\\',
    ensures
        indent_after_from(t, i, indent, false, false, false) == indent_after_from(t, k + 1, indent, false, false, false),
{
    lemma_indent_after_inside_literal(t, i + 1, k, indent);
}

proof fn lemma_indent_after_inside_literal(t: Seq<char>, c: int, k: int, indent: int)
    requires
        0 < c <= k < t.len(),
        t[k] == '"',
        forall|d: int| c <= d < k ==> t[d] != '"' && t[d] != '\\',
    ensures
        indent_after_from(t, c, indent, false, true, false) == indent_after_from(t, k + 1, indent, false, false, false),
    decreases k - c,
{
    if c < k {
        lemma_indent_after_inside_literal(t, c + 1, k, indent);
    }
}

/// Inside a double-quoted string a `'` is an ordinary character: a
/// double-quoted literal without `"` or `\` inside (such as `"it's"`), put
/// into a line after text that holds no quote or backslash, leaves the
/// indentation level after the line as it would be without the literal.
pub proof fn law_double_quoted_literal_keeps_level(a: Seq<char>, s: Seq<char>, b: Seq<char>, indent: int)
    requires
        forall|c: int| 0 <= c < a.len() ==> a[c] != '\'' && a[c] != '"' && a[c] != '\\',
        forall|c: int| 0 <= c < s.len() ==> s[c] != '"' && s[c] != '\\',
    ensures
        indent_after(a + seq!['"'] + s + seq!['"'] + b, indent) == indent_after(a + b, indent),
{
    let lit = seq!['"'] + s + seq!['"'];
    let t1 = a + lit + b;
    assert(t1 =~= a + seq!['"'] + s + seq!['"'] + b);
    let t2 = a + b;
    lemma_prefix_scan(a, lit, b, 0, indent);
}

/// While scanning the plain prefix `a` (no quotes, no backslashes), the text
/// with the literal and the text without it give the same level.
proof fn lemma_prefix_scan(a: Seq<char>, lit: Seq<char>, b: Seq<char>, i: int, indent: int)
    requires
        0 <= i <= a.len(),
        forall|c: int| 0 <= c < a.len() ==> a[c] != '\'' && a[c] != '"' && a[c] != '\\',
        lit.len() >= 2,
        lit[0] == '"',
        lit[lit.len() - 1] == '"',
        forall|c: int| 0 < c < lit.len() - 1 ==> lit[c] != '"' && lit[c] != '\\',
    ensures
        indent_after_from(a + lit + b, i, indent, false, false, false) == indent_after_from(a + b, i, indent, false, false, false),
    decreases a.len() - i,
{
    let t1 = a + lit + b;
    let t2 = a + b;
    if i < a.len() {
        assert(t1[i] == a[i]);
        assert(t2[i] == a[i]);
        let ch = a[i];
        let n = if ch == '{' || ch == '[' || ch == '(' {
            indent + 1
        } else if ch == '}' || ch == ']' || ch == ')' {
            if indent > 0 {
                indent - 1
            } else {
                0
            }
        } else {
            indent
        };
        lemma_prefix_scan(a, lit, b, i + 1, n);
    } else {
        let k = a.len() + lit.len() - 1;
        assert forall|c: int| i < c < k implies t1[c] != '"' && t1[c] != '\\' by {
            assert(t1[c] == lit[c - a.len()]);
        }
        assert(t1[i] == lit[0]);
        assert(t1[k] == lit[lit.len() - 1]);
        lemma_indent_after_skips_literal(t1, i, k, indent);
        assert(t1.skip(k + 1) =~= b);
        assert(t2.skip(i) =~= b);
        lemma_indent_after_same_rest(t1, k + 1, t2, i, indent, false, false, false);
    }
}


// ---------------------------------------------------------------------------
// A space after `:` in lists, records and signatures
/// A character that restoring separators copies without looking at it.
pub open spec fn plain_separator_char(c: char) -> bool {
    !is_quote_char(c) && c != '[' && c != '(' && c != '{' && c != ']' && c != ')' && c != '}' && c
        != ':' && c != ',' && c != '|'
}

proof fn lemma_strip_push(s: Seq<char>, c: char)
    ensures
        c == ' ' ==> strip_trailing_spaces(s.push(c)) == strip_trailing_spaces(s),
        c != ' ' ==> strip_trailing_spaces(s.push(c)) == s.push(c),
        strip_trailing_spaces(s).is_prefix_of(s),
{
    let t = s.push(c);
    lemma_space_end_bounds(s, s.len() as int);
    if c == ' ' {
        lemma_space_end_agree_push(s, c, s.len() as int);
        assert(space_end_from(t, t.len() as int) == space_end_from(t, s.len() as int));
        assert(strip_trailing_spaces(t) =~= strip_trailing_spaces(s));
    } else {
        assert(t.take(t.len() as int) =~= t);
    }
}

proof fn lemma_space_end_agree_push(s: Seq<char>, c: char, j: int)
    requires
        0 <= j <= s.len(),
    ensures
        space_end_from(s.push(c), j) == space_end_from(s, j),
    decreases j,
{
    if j > 0 {
        assert(s.push(c)[j - 1] == s[j - 1]);
        lemma_space_end_agree_push(s, c, j - 1);
    }
}

proof fn lemma_prefix_trans(a: Seq<char>, b: Seq<char>, c: Seq<char>)
    requires
        a.is_prefix_of(b),
        b.is_prefix_of(c),
    ensures
        a.is_prefix_of(c),
{
    assert forall|k: int| 0 <= k < a.len() implies a[k] == c[k] by {
        assert(a[k] == b[k]);
    }
}

/// Restoring separators never takes back what it wrote, apart from trailing spaces.
proof fn lemma_separators_keep_prefix(t: Seq<char>, i: int, st: Separators)
    requires
        0 <= i <= t.len(),
    ensures
        strip_trailing_spaces(st.out).is_prefix_of(separators_from(t, i, st)),
    decreases t.len() - i,
{
    lemma_strip_push(st.out, ' ');
    if i < t.len() {
        let ch = t[i];
        let n = separators_step(t, i, st);
        lemma_separators_keep_prefix(t, i + 1, n);
        let so = strip_trailing_spaces(st.out);
        assert(so.is_prefix_of(strip_trailing_spaces(n.out))) by {
            lemma_strip_push(st.out, ch);
            lemma_strip_push(st.out.push(ch), ' ');
            lemma_strip_push(so, ' ');
            lemma_strip_push(so.push(' '), ch);
            if ch != ' ' {
                assert(so.is_prefix_of(st.out.push(ch))) by {
                    assert forall|k: int| 0 <= k < so.len() implies so[k] == st.out.push(ch)[k] by {
                        assert(so[k] == st.out[k]);
                    }
                }
                assert(so.is_prefix_of(so.push(' ').push(ch)));
            } else {
                assert(so.is_prefix_of(so));
            }
        }
        lemma_prefix_trans(so, strip_trailing_spaces(n.out), separators_from(t, i + 1, n));
    } else {
        lemma_strip_push(st.out, 'x');
    }
}

proof fn lemma_separators_plain_run(t: Seq<char>, i: int, j: int, st: Separators)
    requires
        0 <= i <= j <= t.len(),
        st.quote is None,
        forall|c: int| i <= c < j ==> plain_separator_char(#[trigger] t[c]),
    ensures
        separators_from(t, i, st) == separators_from(t, j, Separators { out: st.out + t.subrange(i, j), ..st }),
    decreases j - i,
{
    if i < j {
        assert(plain_separator_char(t[i]));
        let n = separators_step(t, i, st);
        assert(n == Separators { out: st.out.push(t[i]), ..st });
        lemma_separators_plain_run(t, i + 1, j, n);
        assert(st.out.push(t[i]) + t.subrange(i + 1, j) =~= st.out + t.subrange(i, j));
    } else {
        assert(st.out + t.subrange(i, j) =~= st.out);
    }
}

/// Outside string literals, a `:` right inside a `[` or a `{` (after text
/// that opens and closes nothing) that is followed by a visible character
/// gets exactly one space after it: restoring separators on `[name:type...`
/// or `{key:value...` writes `[name: type...` or `{key: value...`.
pub proof fn law_colon_in_brackets_gets_a_space(open: char, w: Seq<char>, r: Seq<char>)
    requires
        open == '[' || open == '{',
        forall|c: int| 0 <= c < w.len() ==> plain_separator_char(#[trigger] w[c]),
        r.len() > 0,
        plain_separator_char(r[0]),
        !is_ascii_ws(r[0]),
    ensures
        (seq![open] + w + seq![':', ' ', r[0]]).is_prefix_of(restore_separators(seq![open] + w + seq![':'] + r)),
{
    let t = seq![open] + w + seq![':'] + r;
    let init = Separators { out: Seq::empty(), quote: None, escaped: false, stack: Seq::empty(), in_signature: false };
    assert(t[0] == open);
    let s1 = separators_step(t, 0, init);
    assert(s1 == Separators { out: seq![open], stack: seq![open], ..init });
    let k = (w.len() + 1) as int;
    assert forall|c: int| 1 <= c < k implies plain_separator_char(#[trigger] t[c]) by {
        assert(t[c] == w[c - 1]);
    }
    lemma_separators_plain_run(t, 1, k, s1);
    assert(t.subrange(1, k) =~= w);
    let s2 = Separators { out: seq![open] + w, ..s1 };
    assert(t[k] == ':');
    assert(t[k + 1] == r[0]);
    let s3 = separators_step(t, k, s2);
    assert(top_is(s2.stack, open));
    assert(s3.out == (seq![open] + w).push(':').push(' '));
    assert(s3.quote is None);
    let s4 = separators_step(t, k + 1, s3);
    assert(s4.out == s3.out.push(r[0]));
    lemma_separators_keep_prefix(t, k + 2, s4);
    lemma_strip_push(s3.out, r[0]);
    assert(s4.out =~= seq![open] + w + seq![':', ' ', r[0]]);
    assert(restore_separators(t) == separators_from(t, 0, init));
    assert(separators_from(t, 0, init) == separators_from(t, 1, s1));
    assert(separators_from(t, k, s2) == separators_from(t, k + 1, s3));
    assert(separators_from(t, k + 1, s3) == separators_from(t, k + 2, s4));
    assert(strip_trailing_spaces(s4.out) == s4.out);
}


/// Outside string literals, a `,` right inside a `[` (after text that opens
/// and closes nothing) that is followed by a visible character gets exactly
/// one space after it: restoring separators on `[1,2...` writes `[1, 2...`.
pub proof fn law_comma_in_list_gets_a_space(open: char, w: Seq<char>, r: Seq<char>)
    requires
        open == '[',
        forall|c: int| 0 <= c < w.len() ==> plain_separator_char(#[trigger] w[c]),
        r.len() > 0,
        plain_separator_char(r[0]),
        !is_ascii_ws(r[0]),
    ensures
        (seq![open] + w + seq![',', ' ', r[0]]).is_prefix_of(restore_separators(seq![open] + w + seq![','] + r)),
{
    let t = seq![open] + w + seq![','] + r;
    let init = Separators { out: Seq::empty(), quote: None, escaped: false, stack: Seq::empty(), in_signature: false };
    assert(t[0] == open);
    let s1 = separators_step(t, 0, init);
    assert(s1 == Separators { out: seq![open], stack: seq![open], ..init });
    let k = (w.len() + 1) as int;
    assert forall|c: int| 1 <= c < k implies plain_separator_char(#[trigger] t[c]) by {
        assert(t[c] == w[c - 1]);
    }
    lemma_separators_plain_run(t, 1, k, s1);
    assert(t.subrange(1, k) =~= w);
    let s2 = Separators { out: seq![open] + w, ..s1 };
    assert(t[k] == ',');
    assert(t[k + 1] == r[0]);
    let s3 = separators_step(t, k, s2);
    assert(top_is(s2.stack, open));
    assert(s3.out == (seq![open] + w).push(',').push(' '));
    assert(s3.quote is None);
    let s4 = separators_step(t, k + 1, s3);
    assert(s4.out == s3.out.push(r[0]));
    lemma_separators_keep_prefix(t, k + 2, s4);
    lemma_strip_push(s3.out, r[0]);
    assert(s4.out =~= seq![open] + w + seq![',', ' ', r[0]]);
    assert(restore_separators(t) == separators_from(t, 0, init));
    assert(separators_from(t, 0, init) == separators_from(t, 1, s1));
    assert(separators_from(t, k, s2) == separators_from(t, k + 1, s3));
    assert(separators_from(t, k + 1, s3) == separators_from(t, k + 2, s4));
    assert(strip_trailing_spaces(s4.out) == s4.out);
}


// ---------------------------------------------------------------------------
// Joining within the configured line width
/// A line is joined to the previous output line exactly when the joining
/// rules give a separator and the joined line fits in `line_width` bytes:
/// a join never makes a line wider than `line_width`, and every join the
/// rules allow within `line_width` is made, whatever `line_width` is.
pub proof fn law_join_within_line_width(
    result: Seq<char>,
    src: Seq<char>,
    lines: Seq<SourceLine>,
    index: int,
    content: Seq<char>,
    body: Seq<char>,
    line_width: int,
)
    ensures
        join_with_previous_spec(result, src, lines, index, content, body, line_width) matches Some(sep)
            ==> (last_output(result) matches Some(po) && byte_len(po) + separator_text(sep).len()
            + byte_len(body) <= line_width && join_separator_spec(
            po,
            trim(line_text(src, lines[index - 1])),
            content,
            src,
            lines,
            index,
        ) == Some(sep)),
        forall|po: Seq<char>, sep: Separator|
            index > 0 && trim(line_text(src, lines[index - 1])).len() > 0 && last_output(result) == Some(po)
                && join_separator_spec(po, trim(line_text(src, lines[index - 1])), content, src, lines, index)
                == Some(sep) && byte_len(po) + separator_text(sep).len() + byte_len(body) <= line_width
                ==> join_with_previous_spec(result, src, lines, index, content, body, line_width) == Some(sep),
{
}


// ---------------------------------------------------------------------------
// The line-oriented formatter indents by the configured width
/// The line-oriented formatter writes a non-blank line at nesting level `n`
/// (the level that the lines before leave, one less for a line that starts
/// with a closer) after exactly `n * indent_width` spaces: that many spaces,
/// then a character that is not a space.
pub proof fn law_line_formatter_indents_by_width(src: Seq<char>, config: Configuration, index: int, st: LineState)
    requires
        src.len() <= usize::MAX,
        0 <= index < source_lines_of(src).len(),
        trim_start(trim_end(line_text(src, source_lines_of(src)[index]))).len() > 0,
        0 <= st.indent,
        indent_for(trim_start(trim_end(line_text(src, source_lines_of(src)[index]))), st.indent)
            * config.indent_width <= usize::MAX,
    ensures
        ({
            let out = line_step(src, source_lines_of(src), config, index, st).out;
            let w = indent_for(trim_start(trim_end(line_text(src, source_lines_of(src)[index]))), st.indent)
                * config.indent_width;
            &&& st.out.is_prefix_of(out)
            &&& out.len() > st.out.len() + w
            &&& forall|k: int| st.out.len() <= k < st.out.len() + w ==> out[k] == ' '
            &&& out[st.out.len() + w] != ' '
        }),
{
    let lines = source_lines_of(src);
    let text = line_text(src, lines[index]);
    lemma_lines_from_no_newline(src, 0);
    lemma_lines_from_wf(src, 0);
    let te = trim_end(text);
    let content = trim_start(te);
    lemma_trim_ws_end_bounds(text, text.len() as int);
    lemma_skip_ws_bounds(te, 0);
    assert(content =~= text.subrange(skip_ws_from(te, 0), trim_ws_end_from(text, text.len() as int)));
    lemma_no_newline_subrange(text, skip_ws_from(te, 0), trim_ws_end_from(text, text.len() as int));
    assert(content[0] == te[skip_ws_from(te, 0)]);
    lemma_inline_spacing_props(content);
    let effective = indent_for(content, st.indent);
    let w = effective * config.indent_width;
    assert(effective >= 0);
    assert(w >= 0) by (nonlinear_arith)
        requires
            effective >= 0,
            config.indent_width >= 0,
            w == effective * config.indent_width,
    ;
    assert(indent_columns(effective, config.indent_width as int) == w);
    let sp = spaces(w as nat);
    let body = inline_spacing(content);
    let out = line_step(src, lines, config, index, st).out;
    assert(out == (st.out + sp + body).push('\n'));
    assert((st.out + sp + body)[st.out.len() + w] == body[0]);
    assert(out[st.out.len() + w] == body[0]);
    assert forall|k: int| st.out.len() <= k < st.out.len() + w implies out[k] == ' ' by {
        assert(out[k] == sp[k - st.out.len()]);
    }
    assert forall|k: int| 0 <= k < st.out.len() implies out[k] == st.out[k] by {}
}


// ---------------------------------------------------------------------------
// The layout reads the configuration
/// The token-aware layout indents, caps blank lines and joins lines with the
/// configured values, not with fixed ones.
pub proof fn law_layout_uses_configuration(src: Seq<char>, config: Configuration)
    ensures
        layout_of(src, config).indent_width == config.indent_width,
        layout_of(src, config).max_blank_lines == config.max_blank_lines,
        layout_of(src, config).line_width == config.line_width,
        forall|index: int, indent: int|
            0 <= index < layout_of(src, config).lines.len() ==> #[trigger] line_indent_width(
                layout_of(src, config),
                index,
                indent,
            ) == indent_columns(
                (if starts_with_closer_spec(trim_start(trim_end(line_text(src, source_lines_of(src)[index])))) {
                    if indent > 0 {
                        indent - 1
                    } else {
                        0
                    }
                } else {
                    indent
                }) + continuation_indent(
                    src,
                    source_lines_of(src),
                    index,
                    trim_start(trim_end(line_text(src, source_lines_of(src)[index]))),
                ),
                config.indent_width as int,
            ),
{
}


// ---------------------------------------------------------------------------
// Brackets move the indentation level
/// A character that the indentation scan passes over without effect.
pub open spec fn neutral_for_indent(c: char) -> bool {
    c != '\'' && c != '"' && c != '\\' && c != '#' && c != '{' && c != '[' && c != '(' && c != '}'
        && c != ']' && c != ')'
}

proof fn lemma_indent_after_neutral(t: Seq<char>, i: int, indent: int)
    requires
        0 <= i <= t.len(),
        forall|c: int| i <= c < t.len() ==> neutral_for_indent(#[trigger] t[c]),
    ensures
        indent_after_from(t, i, indent, false, false, false) == indent,
    decreases t.len() - i,
{
    if i < t.len() {
        assert(neutral_for_indent(t[i]));
        lemma_indent_after_neutral(t, i + 1, indent);
    }
}

/// Outside strings and comments, an opening bracket raises the level after a
/// line by one and a closing bracket lowers it by one (not below zero).
pub proof fn law_brackets_move_the_level(bracket: char, t: Seq<char>, indent: int)
    requires
        forall|c: int| 0 <= c < t.len() ==> neutral_for_indent(#[trigger] t[c]),
    ensures
        (bracket == '{' || bracket == '[' || bracket == '(') ==> indent_after(seq![bracket] + t, indent) == indent + 1,
        (bracket == '}' || bracket == ']' || bracket == ')') ==> indent_after(seq![bracket] + t, indent) == if indent > 0 {
            indent - 1
        } else {
            0
        },
        indent_after(t, indent) == indent,
{
    let u = seq![bracket] + t;
    assert forall|c: int| 1 <= c < u.len() implies neutral_for_indent(#[trigger] u[c]) by {
        assert(u[c] == t[c - 1]);
    }
    assert(u[0] == bracket);
    lemma_indent_after_neutral(u, 1, indent + 1);
    lemma_indent_after_neutral(u, 1, if indent > 0 { indent - 1 } else { 0 });
    lemma_indent_after_neutral(t, 0, indent);
}

// ---------------------------------------------------------------------------
// An unclosed string marks the next line
/// A line that leaves a string literal open (begun from outside any string)
/// is a multiline-string line, and so is the line after it.
pub proof fn law_open_string_marks_next_line(src: Seq<char>, lines: Seq<SourceLine>, k: int)
    requires
        0 <= k < lines.len(),
        k == 0 || !multiline_string_flags(src, lines)[k - 1],
        quote_after(line_text(src, lines[k]), 0, None, false) is Some,
    ensures
        multiline_string_flags(src, lines)[k],
        k + 1 < lines.len() ==> multiline_string_flags(src, lines)[k + 1],
{
    lemma_flags_at(src, lines, 0, k);
    if k > 0 {
        lemma_flags_at(src, lines, 0, k - 1);
    }
    assert(active_before(src, lines, k) is None);
    if k + 1 < lines.len() {
        lemma_flags_at(src, lines, 0, k + 1);
    }
}


// ---------------------------------------------------------------------------
// Collapsed whitespace is single spaces between words
/// A text whose only whitespace is single spaces between other characters.
pub open spec fn single_spaced(s: Seq<char>) -> bool {
    &&& forall|k: int| 0 <= k < s.len() && is_ascii_ws(#[trigger] s[k]) ==> s[k] == ' '
    &&& forall|k: int| 0 < k < s.len() && #[trigger] s[k] == ' ' ==> s[k - 1] != ' '
    &&& s.len() > 0 ==> s[0] != ' ' && s.last() != ' '
}

proof fn lemma_collapse_single_spaced(t: Seq<char>, i: int, st: Collapse)
    requires
        0 <= i <= t.len(),
        forall|c: int| 0 <= c < t.len() ==> !is_quote_char(#[trigger] t[c]),
        st.quote is None,
        single_spaced(st.out),
        st.pending_space ==> st.out.len() > 0,
    ensures
        single_spaced(collapse_from(t, i, st)),
    decreases t.len() - i,
{
    if i < t.len() {
        let ch = t[i];
        assert(!is_quote_char(ch));
        let n = collapse_step(st, ch);
        if !is_ascii_ws(ch) {
            let o = if st.pending_space {
                st.out.push(' ')
            } else {
                st.out
            };
            let o2 = o.push(ch);
            assert(n.out == o2);
            assert(single_spaced(o2)) by {
                assert forall|k: int| 0 <= k < o2.len() && is_ascii_ws(#[trigger] o2[k]) implies o2[k] == ' ' by {
                    if k < st.out.len() {
                        assert(o2[k] == st.out[k]);
                    }
                }
                assert forall|k: int| 0 < k < o2.len() && #[trigger] o2[k] == ' ' implies o2[k - 1] != ' ' by {
                    if k < st.out.len() {
                        assert(o2[k] == st.out[k]);
                        assert(o2[k - 1] == st.out[k - 1]);
                    } else if k == st.out.len() {
                        assert(st.out[st.out.len() - 1] == st.out.last());
                    }
                }
                if st.out.len() > 0 {
                    assert(o2[0] == st.out[0]);
                }
            }
        }
        lemma_collapse_single_spaced(t, i + 1, n);
    }
}

/// In a text without string literals, collapsing whitespace leaves single
/// spaces between words and nothing else: no other whitespace, no two spaces
/// in a row, none at the start or the end.
pub proof fn law_collapsed_whitespace_is_single_spaced(t: Seq<char>)
    requires
        forall|c: int| 0 <= c < t.len() ==> !is_quote_char(#[trigger] t[c]),
    ensures
        single_spaced(collapse_whitespace(t)),
{
    let init = Collapse { out: Seq::empty(), quote: None, escaped: false, pending_space: false };
    lemma_collapse_single_spaced(t, 0, init);
}


// ---------------------------------------------------------------------------
// The token-aware formatter indents each line it writes on its own
/// A non-blank line outside multiline strings that is not joined to the line
/// before (and is not a kept line of a grouped expression that keeps its own
/// indentation) is written on a line of its own: after `line_indent_width`
/// spaces (its level times `indent_width`, by `law_layout_uses_configuration`)
/// comes its laid-out text, then its line break.
pub proof fn law_unjoined_line_is_indented(src: Seq<char>, config: Configuration, index: int, st: FormatState)
    requires
        0 <= index < layout_of(src, config).lines.len(),
        trim_start(trim_end(line_text(src, layout_of(src, config).lines[index]))).len() > 0,
        !layout_of(src, config).strings[index],
        !(layout_of(src, config).groups[index] && keeps_source_indent(
            trim_start(trim_end(line_text(src, layout_of(src, config).lines[index]))),
        )),
        (index > 0 && layout_of(src, config).strings[index - 1]) || layout_of(src, config).lists[index]
            || layout_of(src, config).groups[index] || join_with_previous_spec(
            st.out,
            src,
            layout_of(src, config).lines,
            index,
            trim_start(trim_end(line_text(src, layout_of(src, config).lines[index]))),
            line_body_spec(layout_of(src, config), index, st.indent),
            config.line_width as int,
        ) is None,
    ensures
        format_step(layout_of(src, config), index, st).out == {
            let written = st.out + spaces(line_indent_width(layout_of(src, config), index, st.indent) as nat)
                + line_body_spec(layout_of(src, config), index, st.indent);
            if layout_of(src, config).lines[index].has_newline {
                written.push('\n')
            } else {
                written
            }
        },
        format_step(layout_of(src, config), index, st).blank_run == 0,
{
}


} // verus!
