//! The token-aware formatter: it lexes the document with Nushell's lexer and
//! lays it out line by line, normalising spacing and indentation, rejoining
//! lines that were split where a space belongs, and keeping multiline strings,
//! long lists and grouped expressions as written.
use vstd::prelude::*;

use crate::configuration::Configuration;
use crate::laws::{
    lemma_line_tokens_inside,
    law_formatter_caps_blank_lines, law_formatter_keeps_visible_text, string_blank_runs_within,
    tokens_cover_lines,
};
use crate::visible::visible;
use crate::runs::{has_newline_run, newline_run_at};
use crate::joining::{
    Separator, ends_with_opener, ends_with_opener_spec, join_with_previous_line,
    join_with_previous_spec, separator_text, simple_argument_line, is_simple_argument_line,
    starts_with_closer, starts_with_closer_spec,
};
use crate::lines::{
    SourceLine, continuation_indent, continuation_indent_level, indent_of, leading_indent,
    lemma_lines_from_ordered, lemma_lines_from_wf, line_text, lines_wf, multiline_string_flags,
    multiline_string_lines, next_nonempty_content, next_nonempty_from, prev_nonempty_from,
    preserved_bracket_flags, preserved_multiline_group_expression_lines,
    preserved_multiline_list_lines, previous_nonempty_content, source_lines, source_lines_of,
    text_of,
};
use crate::nushell::{
    LexToken, TokenKind, is_char_offset, lex_document, lexed_tokens, nu_lex, spans_fit,
};
use crate::spacing::{
    collapse_whitespace, normalize_inline_whitespace, restore_separator_spaces, restore_separators,
    split_heads, split_reserved_statement_heads, strip_trailing_spaces, trim_trailing_spaces,
};
use crate::text::{
    byte_len, char_byte_width, lemma_byte_len_take_le, str_byte_len, chars_of, ends_with_char, first_is, last_is, lemma_byte_len_bounds,
    lemma_byte_len_prefix_strict, lemma_byte_len_take_step, lemma_trim_len, push_chars,
    push_spaces, spaces, starts_with_char, starts_with_text, string_of, text_eq, trim_end,
    trim_end_chars, trim_start, trim_start_chars, contains_char,
};

verus! {

/// The number of spaces that `levels` indentation levels of `width` spaces
/// take, saturated at `usize::MAX`.
pub open spec fn indent_columns(levels: int, width: int) -> int {
    if levels * width > usize::MAX {
        usize::MAX as int
    } else {
        levels * width
    }
}

/// Computes `indent_columns`.
pub fn indent_columns_of(levels: usize, width: u8) -> (n: usize)
    ensures
        n == indent_columns(levels as int, width as int),
{
    match levels.checked_mul(width as usize) {
        Some(n) => n,
        None => usize::MAX,
    }
}

// ---------------------------------------------------------------------------
// Line breaks
/// A text with each `\r\n` written as `\n`, as `str::replace("\r\n", "\n")` does.
pub open spec fn crlf_to_lf(s: Seq<char>) -> Seq<char>
    decreases s.len(),
{
    if s.len() == 0 {
        Seq::empty()
    } else if s.len() >= 2 && s[0] == '\r' && s[1] == '\n' {
        seq!['\n'] + crlf_to_lf(s.skip(2))
    } else {
        seq![s[0]] + crlf_to_lf(s.skip(1))
    }
}

pub proof fn lemma_crlf_to_lf_len(s: Seq<char>)
    ensures
        crlf_to_lf(s).len() <= s.len(),
    decreases s.len(),
{
    if s.len() >= 2 && s[0] == '\r' && s[1] == '\n' {
        lemma_crlf_to_lf_len(s.skip(2));
    } else if s.len() > 0 {
        lemma_crlf_to_lf_len(s.skip(1));
    }
}

pub fn normalize_line_breaks(s: &[char]) -> (res: Vec<char>)
    ensures
        res@ == crlf_to_lf(s@),
{
    let mut out: Vec<char> = Vec::new();
    let mut i: usize = 0;
    let n = s.len();
    assert(s@.skip(0) =~= s@);
    while i < n
        invariant
            0 <= i <= n,
            n == s@.len(),
            out@ + crlf_to_lf(s@.skip(i as int)) == crlf_to_lf(s@),
        decreases n - i,
    {
        let ghost rest = s@.skip(i as int);
        if i + 1 < n && s[i] == '\r' && s[i + 1] == '\n' {
            out.push('\n');
            proof {
                assert(rest.skip(2) =~= s@.skip(i + 2));
                assert(out@ + crlf_to_lf(s@.skip(i + 2)) =~= out@.drop_last() + crlf_to_lf(rest));
            }
            i = i + 2;
        } else {
            out.push(s[i]);
            proof {
                assert(rest.skip(1) =~= s@.skip(i + 1));
                assert(out@ + crlf_to_lf(s@.skip(i + 1)) =~= out@.drop_last() + crlf_to_lf(rest));
            }
            i = i + 1;
        }
    }
    proof {
        assert(s@.skip(n as int) =~= Seq::<char>::empty());
        assert(out@ + crlf_to_lf(s@.skip(n as int)) =~= out@);
    }
    out
}

// ---------------------------------------------------------------------------
// Token texts
/// The position of the character that starts at byte offset `b`.
pub open spec fn char_index_of(s: Seq<char>, b: int) -> int {
    choose|i: int| 0 <= i <= s.len() && byte_len(s.take(i)) == b
}

/// The byte offsets at which the characters of `s` start, and its length in bytes.
pub open spec fn offsets_of(s: Seq<char>, offsets: Seq<usize>) -> bool {
    &&& offsets.len() == s.len() + 1
    &&& forall|i: int| 0 <= i <= s.len() ==> #[trigger] offsets[i] == byte_len(s.take(i))
}

fn char_offsets(s: &[char]) -> (offsets: Vec<usize>)
    requires
        byte_len(s@) <= usize::MAX,
    ensures
        offsets_of(s@, offsets@),
{
    let mut offsets: Vec<usize> = Vec::new();
    let mut b: usize = 0;
    let mut i: usize = 0;
    assert(s@.take(0) =~= Seq::<char>::empty());
    offsets.push(0);
    while i < s.len()
        invariant
            0 <= i <= s.len(),
            byte_len(s@) <= usize::MAX,
            b == byte_len(s@.take(i as int)),
            offsets@.len() == i + 1,
            forall|k: int| 0 <= k <= i ==> #[trigger] offsets@[k] == byte_len(s@.take(k)),
        decreases s.len() - i,
    {
        proof {
            lemma_byte_len_take_step(s@, i as int);
            lemma_byte_len_bounds(s@.take(i + 1));
        lemma_byte_len_take_le(s@, i + 1);
        }
        b = b + char_byte_width(s[i]) as usize;
        i = i + 1;
        offsets.push(b);
    }
    offsets
}

pub proof fn lemma_char_index_of(s: Seq<char>, b: int)
    requires
        is_char_offset(s, b),
    ensures
        0 <= char_index_of(s, b) <= s.len(),
        byte_len(s.take(char_index_of(s, b))) == b,
        forall|j: int|
            0 <= j <= s.len() && byte_len(#[trigger] s.take(j)) == b ==> j == char_index_of(s, b),
{
    let w = char_index_of(s, b);
    assert forall|j: int| 0 <= j <= s.len() && byte_len(#[trigger] s.take(j)) == b implies j == w by {
        if j < w {
            lemma_byte_len_prefix_strict(s, j, w);
        } else if w < j {
            lemma_byte_len_prefix_strict(s, w, j);
        }
    }
}

/// The character position that a byte offset of a token span stands for.
fn char_index(offsets: &[usize], b: usize, s: Ghost<Seq<char>>) -> (i: usize)
    requires
        offsets_of(s@, offsets@),
        is_char_offset(s@, b as int),
    ensures
        i == char_index_of(s@, b as int),
{
    proof {
        lemma_char_index_of(s@, b as int);
    }
    let ghost w = char_index_of(s@, b as int);
    let mut lo: usize = 0;
    let mut hi: usize = offsets.len() - 1;
    while lo < hi
        invariant
            offsets_of(s@, offsets@),
            hi == s@.len() || hi < s@.len(),
            lo <= w <= hi <= s@.len(),
            w == char_index_of(s@, b as int),
            byte_len(s@.take(w)) == b,
        decreases hi - lo,
    {
        let mid = lo + (hi - lo) / 2;
        if offsets[mid] < b {
            proof {
                if mid >= w {
                    if mid > w {
                        lemma_byte_len_prefix_strict(s@, w, mid as int);
                    }
                }
            }
            lo = mid + 1;
        } else {
            proof {
                if mid < w {
                    lemma_byte_len_prefix_strict(s@, mid as int, w);
                }
            }
            hi = mid;
        }
    }
    lo
}

/// The characters that a token covers.
pub open spec fn token_chars(src: Seq<char>, token: LexToken) -> Seq<char> {
    src.subrange(char_index_of(src, token.start as int), char_index_of(src, token.end as int))
}

pub proof fn lemma_token_chars_range(src: Seq<char>, token: LexToken)
    requires
        token.start <= token.end,
        is_char_offset(src, token.start as int),
        is_char_offset(src, token.end as int),
    ensures
        0 <= char_index_of(src, token.start as int) <= char_index_of(src, token.end as int) <= src.len(),
{
    lemma_char_index_of(src, token.start as int);
    lemma_char_index_of(src, token.end as int);
    let a = char_index_of(src, token.start as int);
    let b = char_index_of(src, token.end as int);
    if b < a {
        lemma_byte_len_prefix_strict(src, b, a);
    }
}

fn token_text<'a>(src: &'a [char], offsets: &[usize], token: &LexToken) -> (t: &'a [char])
    requires
        offsets_of(src@, offsets@),
        token.start <= token.end,
        is_char_offset(src@, token.start as int),
        is_char_offset(src@, token.end as int),
    ensures
        t@ == token_chars(src@, *token),
{
    proof {
        lemma_token_chars_range(src@, *token);
    }
    let a = char_index(offsets, token.start, Ghost(src@));
    let b = char_index(offsets, token.end, Ghost(src@));
    &src[a..b]
}

/// A token whose text, which reaches past its line, is a string literal
/// (quoted, interpolated or raw) that must be kept as written.
pub open spec fn verbatim_token(src: Seq<char>, token: LexToken) -> bool {
    let text = trim_start(token_chars(src, token));
    starts_with_char(text, '"') || starts_with_char(text, '\'') || starts_with_char(text, '`')
        || "$\""@.is_prefix_of(text) || "r#"@.is_prefix_of(text)
}

fn is_verbatim_multiline_token(token: &LexToken, src: &[char], offsets: &[usize]) -> (b: bool)
    requires
        offsets_of(src@, offsets@),
        token.start <= token.end,
        is_char_offset(src@, token.start as int),
        is_char_offset(src@, token.end as int),
    ensures
        b == verbatim_token(src@, *token),
{
    let text = trim_start_chars(token_text(src, offsets, token));
    first_is(text, '"') || first_is(text, '\'') || first_is(text, '`') || starts_with_text(
        text,
        &chars_of("$\""),
    ) || starts_with_text(text, &chars_of("r#"))
}

// ---------------------------------------------------------------------------
// The tokens of a line
/// The tokens of a line, gathered from token `k` on: the tokens that lie
/// inside the byte range `line_start..line_end` (line ends left out), and
/// whether a token that only overlaps the line is a string literal or
/// something structural.
pub open spec fn line_tokens_from(
    src: Seq<char>,
    tokens: Seq<LexToken>,
    k: int,
    line_start: int,
    line_end: int,
    acc: Seq<LexToken>,
    verbatim: bool,
    structural: bool,
) -> (Seq<LexToken>, bool, bool)
    decreases tokens.len() - k,
{
    if k < 0 || k >= tokens.len() {
        (acc, verbatim, structural)
    } else {
        let t = tokens[k];
        if t.kind == TokenKind::Eol || !(t.start < line_end && t.end > line_start) {
            line_tokens_from(src, tokens, k + 1, line_start, line_end, acc, verbatim, structural)
        } else if t.start >= line_start && t.end <= line_end {
            line_tokens_from(
                src,
                tokens,
                k + 1,
                line_start,
                line_end,
                acc.push(t),
                verbatim,
                structural,
            )
        } else if verbatim_token(src, t) {
            line_tokens_from(src, tokens, k + 1, line_start, line_end, acc, true, structural)
        } else {
            line_tokens_from(src, tokens, k + 1, line_start, line_end, acc, verbatim, true)
        }
    }
}

/// A token that is not a line end and overlaps the byte range `line_start..line_end`.
pub open spec fn token_overlaps(t: LexToken, line_start: int, line_end: int) -> bool {
    t.kind != TokenKind::Eol && t.start < line_end && t.end > line_start
}

/// A token that lies inside the byte range `line_start..line_end`.
pub open spec fn token_in_line(t: LexToken, line_start: int, line_end: int) -> bool {
    token_overlaps(t, line_start, line_end) && line_start <= t.start && t.end <= line_end
}

/// Whether one of the tokens `k..` overlaps the range, reaches past it, and is
/// (or, with `verbatim` false, is not) a string literal kept as written.
pub open spec fn some_token_reaches_past(
    src: Seq<char>,
    tokens: Seq<LexToken>,
    k: int,
    line_start: int,
    line_end: int,
    verbatim: bool,
) -> bool {
    exists|j: int|
        k <= j < tokens.len() && token_overlaps(#[trigger] tokens[j], line_start, line_end) && !token_in_line(
            tokens[j],
            line_start,
            line_end,
        ) && verbatim_token(src, tokens[j]) == verbatim
}

/// The tokens of a line, as a filter: those inside the line, in order, and
/// whether a string literal, or something else, reaches past the line.
pub proof fn lemma_line_tokens_filtered(
    src: Seq<char>,
    tokens: Seq<LexToken>,
    k: int,
    line_start: int,
    line_end: int,
    acc: Seq<LexToken>,
    verbatim: bool,
    structural: bool,
)
    requires
        0 <= k <= tokens.len(),
    ensures
        line_tokens_from(src, tokens, k, line_start, line_end, acc, verbatim, structural) == (
            acc + tokens.skip(k).filter(|t: LexToken| token_in_line(t, line_start, line_end)),
            verbatim || some_token_reaches_past(src, tokens, k, line_start, line_end, true),
            structural || some_token_reaches_past(src, tokens, k, line_start, line_end, false),
        ),
    decreases tokens.len() - k,
{
    let pred = |t: LexToken| token_in_line(t, line_start, line_end);
    if k < tokens.len() {
        let t = tokens[k];
        assert(tokens.skip(k) =~= seq![t] + tokens.skip(k + 1));
        tokens.skip(k + 1).lemma_filter_prepend(t, pred);
        let in_line = token_in_line(t, line_start, line_end);
        let a2 = if in_line {
            acc.push(t)
        } else {
            acc
        };
        let v2 = verbatim || (token_overlaps(t, line_start, line_end) && !in_line && verbatim_token(src, t));
        let s2 = structural || (token_overlaps(t, line_start, line_end) && !in_line && !verbatim_token(src, t));
        lemma_line_tokens_filtered(src, tokens, k + 1, line_start, line_end, a2, v2, s2);
        assert(acc + tokens.skip(k).filter(pred) =~= a2 + tokens.skip(k + 1).filter(pred));
        assert(v2 || some_token_reaches_past(src, tokens, k + 1, line_start, line_end, true) <==> verbatim
            || some_token_reaches_past(src, tokens, k, line_start, line_end, true)) by {
            if some_token_reaches_past(src, tokens, k, line_start, line_end, true) {
                let j = choose|j: int|
                    k <= j < tokens.len() && token_overlaps(#[trigger] tokens[j], line_start, line_end)
                        && !token_in_line(tokens[j], line_start, line_end) && verbatim_token(src, tokens[j]) == true;
                if j > k {
                    assert(some_token_reaches_past(src, tokens, k + 1, line_start, line_end, true));
                }
            }
            if some_token_reaches_past(src, tokens, k + 1, line_start, line_end, true) {
                let j = choose|j: int|
                    k + 1 <= j < tokens.len() && token_overlaps(#[trigger] tokens[j], line_start, line_end)
                        && !token_in_line(tokens[j], line_start, line_end) && verbatim_token(src, tokens[j]) == true;
                assert(some_token_reaches_past(src, tokens, k, line_start, line_end, true));
            }
        }
        assert(s2 || some_token_reaches_past(src, tokens, k + 1, line_start, line_end, false) <==> structural
            || some_token_reaches_past(src, tokens, k, line_start, line_end, false)) by {
            if some_token_reaches_past(src, tokens, k, line_start, line_end, false) {
                let j = choose|j: int|
                    k <= j < tokens.len() && token_overlaps(#[trigger] tokens[j], line_start, line_end)
                        && !token_in_line(tokens[j], line_start, line_end) && verbatim_token(src, tokens[j]) == false;
                if j > k {
                    assert(some_token_reaches_past(src, tokens, k + 1, line_start, line_end, false));
                }
            }
            if some_token_reaches_past(src, tokens, k + 1, line_start, line_end, false) {
                let j = choose|j: int|
                    k + 1 <= j < tokens.len() && token_overlaps(#[trigger] tokens[j], line_start, line_end)
                        && !token_in_line(tokens[j], line_start, line_end) && verbatim_token(src, tokens[j]) == false;
                assert(some_token_reaches_past(src, tokens, k, line_start, line_end, false));
            }
        }
    } else {
        assert(tokens.skip(k) =~= Seq::<LexToken>::empty());
        reveal(Seq::filter);
        assert(Seq::<LexToken>::empty().filter(pred) =~= Seq::<LexToken>::empty());
        assert(acc + Seq::<LexToken>::empty() =~= acc);
    }
}

pub open spec fn line_tokens_of(src: Seq<char>, tokens: Seq<LexToken>, line_start: int, line_end: int) -> (
    Seq<LexToken>,
    bool,
    bool,
) {
    line_tokens_from(src, tokens, 0, line_start, line_end, Seq::empty(), false, false)
}

pub fn line_tokens(
    tokens: &[LexToken],
    line_start: usize,
    line_end: usize,
    src: &[char],
    offsets: &[usize],
) -> (res: (Vec<LexToken>, bool, bool))
    requires
        offsets_of(src@, offsets@),
        spans_fit(src@, tokens@),
    ensures
        (res.0@, res.1, res.2) == line_tokens_of(src@, tokens@, line_start as int, line_end as int),
        forall|m: int| 0 <= m < res.0@.len() ==> tokens@.contains(#[trigger] res.0@[m]),
        forall|m: int|
            0 <= m < res.0@.len() ==> line_start <= (#[trigger] res.0@[m]).start && res.0@[m].end
                <= line_end,
        res.0@ == tokens@.filter(|t: LexToken| token_in_line(t, line_start as int, line_end as int)),
        res.1 == some_token_reaches_past(src@, tokens@, 0, line_start as int, line_end as int, true),
        res.2 == some_token_reaches_past(src@, tokens@, 0, line_start as int, line_end as int, false),
{
    proof {
        lemma_line_tokens_filtered(src@, tokens@, 0, line_start as int, line_end as int, Seq::empty(), false, false);
        assert(tokens@.skip(0) =~= tokens@);
        assert(Seq::<LexToken>::empty() + tokens@.filter(|t: LexToken| token_in_line(t, line_start as int, line_end as int))
            =~= tokens@.filter(|t: LexToken| token_in_line(t, line_start as int, line_end as int)));
        lemma_line_tokens_inside(src@, tokens@, 0, line_start as int, line_end as int, Seq::empty(), false, false);
    }
    let mut line_tokens: Vec<LexToken> = Vec::new();
    let mut has_verbatim_multiline_token = false;
    let mut has_structural_multiline_token = false;
    let mut k: usize = 0;
    while k < tokens.len()
        invariant
            0 <= k <= tokens.len(),
            offsets_of(src@, offsets@),
            spans_fit(src@, tokens@),
            forall|m: int| 0 <= m < line_tokens@.len() ==> tokens@.contains(#[trigger] line_tokens@[m]),
            line_tokens_of(src@, tokens@, line_start as int, line_end as int) == line_tokens_from(
                src@,
                tokens@,
                k as int,
                line_start as int,
                line_end as int,
                line_tokens@,
                has_verbatim_multiline_token,
                has_structural_multiline_token,
            ),
        decreases tokens.len() - k,
    {
        let token = tokens[k];
        assert(tokens@[k as int] == token);
        if token.kind == TokenKind::Eol {
        } else if token.start < line_end && token.end > line_start {
            if token.start >= line_start && token.end <= line_end {
                line_tokens.push(token);
                proof {
                    assert forall|m: int| 0 <= m < line_tokens@.len() implies tokens@.contains(
                        #[trigger] line_tokens@[m],
                    ) by {
                        if m == line_tokens@.len() - 1 {
                            assert(tokens@[k as int] == line_tokens@[m]);
                        }
                    }
                }
            } else if is_verbatim_multiline_token(&token, src, offsets) {
                has_verbatim_multiline_token = true;
            } else {
                has_structural_multiline_token = true;
            }
        }
        k = k + 1;
    }
    (line_tokens, has_verbatim_multiline_token, has_structural_multiline_token)
}

// ---------------------------------------------------------------------------
// Laying out a line from its tokens
/// Tokens after which the layout puts a space on both sides: pipes,
/// assignments and redirections.
pub open spec fn is_connector(kind: TokenKind) -> bool {
    !(kind == TokenKind::Item || kind == TokenKind::Comment || kind == TokenKind::Semicolon || kind
        == TokenKind::Eol)
}

/// An item that follows an item or a `;` is set off by a space, unless nothing
/// has been written yet.
pub open spec fn space_before(prev_kind: Option<TokenKind>, current_kind: TokenKind, current_text: Seq<char>) -> bool {
    current_text.len() > 0 && current_kind == TokenKind::Item && (prev_kind == Some(TokenKind::Item)
        || prev_kind == Some(TokenKind::Semicolon))
}

pub fn needs_space_before(prev_kind: Option<TokenKind>, current_kind: TokenKind, current_text: &[char]) -> (b: bool)
    ensures
        b == space_before(prev_kind, current_kind, current_text@),
{
    if current_text.len() == 0 {
        return false;
    }
    current_kind == TokenKind::Item && (prev_kind == Some(TokenKind::Item) || prev_kind == Some(
        TokenKind::Semicolon,
    ))
}

/// Laying out the tokens `k..` of a line after `out`, the previous token being of kind `prev_kind`.
pub open spec fn layout_tokens_from(
    src: Seq<char>,
    tokens: Seq<LexToken>,
    k: int,
    out: Seq<char>,
    prev_kind: Option<TokenKind>,
) -> Seq<char>
    decreases tokens.len() - k,
{
    if k < 0 || k >= tokens.len() {
        out
    } else {
        let token = tokens[k];
        let raw = token_chars(src, token);
        let text = if token.kind == TokenKind::Item {
            collapse_whitespace(raw)
        } else {
            raw
        };
        let has_next = k + 1 < tokens.len();
        if token.kind == TokenKind::Comment {
            if out.len() == 0 {
                trim_start(text)
            } else {
                strip_trailing_spaces(out).push(' ') + trim_start(text)
            }
        } else if is_connector(token.kind) {
            let o = strip_trailing_spaces(out);
            let o = if o.len() > 0 {
                o.push(' ')
            } else {
                o
            };
            let o = o + text;
            let o = if has_next {
                o.push(' ')
            } else {
                o
            };
            layout_tokens_from(src, tokens, k + 1, o, Some(token.kind))
        } else if token.kind == TokenKind::Semicolon {
            let o = strip_trailing_spaces(out) + text;
            let o = if has_next {
                o.push(' ')
            } else {
                o
            };
            layout_tokens_from(src, tokens, k + 1, o, Some(token.kind))
        } else {
            let o = if space_before(prev_kind, token.kind, out) {
                out.push(' ')
            } else {
                out
            };
            layout_tokens_from(src, tokens, k + 1, o + text, Some(token.kind))
        }
    }
}

/// A line laid out from its tokens: spaced by token kind, broken before
/// statement keywords, with separator spaces put back; a line whose tokens
/// give nothing keeps its text (without leading whitespace).
pub open spec fn format_line_spec(line_text: Seq<char>, tokens: Seq<LexToken>, src: Seq<char>, indent_width: nat) -> Seq<char> {
    let result = restore_separators(
        split_heads(strip_trailing_spaces(layout_tokens_from(src, tokens, 0, Seq::empty(), None)), indent_width),
    );
    if result.len() == 0 {
        trim_start(line_text)
    } else {
        result
    }
}

/// Whether every token of a list lies in the text, on character boundaries.
pub open spec fn tokens_fit(src: Seq<char>, tokens: Seq<LexToken>) -> bool {
    forall|m: int|
        #![trigger tokens[m]]
        0 <= m < tokens.len() ==> {
            &&& tokens[m].start <= tokens[m].end
            &&& is_char_offset(src, tokens[m].start as int)
            &&& is_char_offset(src, tokens[m].end as int)
        }
}

fn format_line(
    line_text: &[char],
    tokens: &[LexToken],
    src: &[char],
    offsets: &[usize],
    indent_width: usize,
) -> (res: Vec<char>)
    requires
        offsets_of(src@, offsets@),
        tokens_fit(src@, tokens@),
    ensures
        res@ == format_line_spec(line_text@, tokens@, src@, indent_width as nat),
{
    let mut result: Vec<char> = Vec::new();
    let mut prev_kind: Option<TokenKind> = None;
    let mut k: usize = 0;
    let n = tokens.len();
    while k < n
        invariant_except_break
            layout_tokens_from(src@, tokens@, 0, Seq::empty(), None) == layout_tokens_from(
                src@,
                tokens@,
                k as int,
                result@,
                prev_kind,
            ),
        invariant
            0 <= k <= n,
            n == tokens@.len(),
            offsets_of(src@, offsets@),
            tokens_fit(src@, tokens@),
        ensures
            layout_tokens_from(src@, tokens@, 0, Seq::empty(), None) == result@,
        decreases n - k,
    {
        let token = tokens[k];
        assert(tokens@[k as int] == token);
        let raw_text = token_text(src, offsets, &token);
        let text_chars: Vec<char> = if token.kind == TokenKind::Item {
            normalize_inline_whitespace(raw_text)
        } else {
            let mut copied: Vec<char> = Vec::new();
            push_chars(&mut copied, raw_text);
            copied
        };
        let text = text_chars.as_slice();
        let has_next = k + 1 < n;
        if token.kind == TokenKind::Comment {
            if result.len() == 0 {
                push_chars(&mut result, trim_start_chars(text));
            } else {
                trim_trailing_spaces(&mut result);
                result.push(' ');
                push_chars(&mut result, trim_start_chars(text));
            }
            break;
        } else if token.kind == TokenKind::Semicolon {
            trim_trailing_spaces(&mut result);
            push_chars(&mut result, text);
            if has_next {
                result.push(' ');
            }
        } else if token.kind == TokenKind::Item || token.kind == TokenKind::Eol {
            if needs_space_before(prev_kind, token.kind, &result) {
                result.push(' ');
            }
            push_chars(&mut result, text);
        } else {
            trim_trailing_spaces(&mut result);
            if result.len() > 0 {
                result.push(' ');
            }
            push_chars(&mut result, text);
            if has_next {
                result.push(' ');
            }
        }
        prev_kind = Some(token.kind);
        k = k + 1;
    }
    trim_trailing_spaces(&mut result);
    let result = restore_separator_spaces(&split_reserved_statement_heads(&result, indent_width));
    if result.len() == 0 {
        let mut kept: Vec<char> = Vec::new();
        push_chars(&mut kept, trim_start_chars(line_text));
        kept
    } else {
        result
    }
}

// ---------------------------------------------------------------------------
// Indentation
/// The indentation level after a line: each `{`, `[` or `(` outside strings
/// and before a comment opens a level, each closer closes one (never below 0).
pub open spec fn indent_after_from(
    t: Seq<char>,
    i: int,
    indent: int,
    in_single: bool,
    in_double: bool,
    escaped: bool,
) -> int
    decreases t.len() - i,
{
    if i < 0 || i >= t.len() {
        indent
    } else {
        let ch = t[i];
        let quoted = in_single || in_double;
        if escaped {
            indent_after_from(t, i + 1, indent, in_single, in_double, false)
        } else if ch == '\\' && quoted {
            indent_after_from(t, i + 1, indent, in_single, in_double, true)
        } else if ch == '\'' && !in_double {
            indent_after_from(t, i + 1, indent, !in_single, in_double, escaped)
        } else if ch == '"' && !in_single {
            indent_after_from(t, i + 1, indent, in_single, !in_double, escaped)
        } else if ch == '#' && !quoted {
            indent
        } else if (ch == '{' || ch == '[' || ch == '(') && !quoted {
            indent_after_from(t, i + 1, indent + 1, in_single, in_double, escaped)
        } else if (ch == '}' || ch == ']' || ch == ')') && !quoted {
            indent_after_from(
                t,
                i + 1,
                if indent > 0 {
                    indent - 1
                } else {
                    0
                },
                in_single,
                in_double,
                escaped,
            )
        } else {
            indent_after_from(t, i + 1, indent, in_single, in_double, escaped)
        }
    }
}

pub open spec fn indent_after(content: Seq<char>, current_indent: int) -> int {
    indent_after_from(content, 0, current_indent, false, false, false)
}

pub proof fn lemma_indent_after_bounds(t: Seq<char>, i: int, indent: int, sq: bool, dq: bool, esc: bool)
    requires
        0 <= i <= t.len(),
        0 <= indent,
    ensures
        0 <= indent_after_from(t, i, indent, sq, dq, esc) <= indent + (t.len() - i),
    decreases t.len() - i,
{
    if i < t.len() {
        let ch = t[i];
        let quoted = sq || dq;
        if esc {
            lemma_indent_after_bounds(t, i + 1, indent, sq, dq, false);
        } else if ch == '\\' && quoted {
            lemma_indent_after_bounds(t, i + 1, indent, sq, dq, true);
        } else if ch == '\'' && !dq {
            lemma_indent_after_bounds(t, i + 1, indent, !sq, dq, esc);
        } else if ch == '"' && !sq {
            lemma_indent_after_bounds(t, i + 1, indent, sq, !dq, esc);
        } else if ch == '#' && !quoted {
        } else if (ch == '{' || ch == '[' || ch == '(') && !quoted {
            lemma_indent_after_bounds(t, i + 1, indent + 1, sq, dq, esc);
        } else if (ch == '}' || ch == ']' || ch == ')') && !quoted {
            lemma_indent_after_bounds(
                t,
                i + 1,
                if indent > 0 {
                    indent - 1
                } else {
                    0
                },
                sq,
                dq,
                esc,
            );
        } else {
            lemma_indent_after_bounds(t, i + 1, indent, sq, dq, esc);
        }
    }
}

pub fn next_indent_level(content: &[char], current_indent: usize) -> (indent: usize)
    requires
        current_indent + content@.len() <= usize::MAX,
    ensures
        indent == indent_after(content@, current_indent as int),
        indent <= current_indent + content@.len(),
{
    proof {
        lemma_indent_after_bounds(content@, 0, current_indent as int, false, false, false);
    }
    let mut indent = current_indent;
    let mut in_single_quote = false;
    let mut in_double_quote = false;
    let mut escaped = false;
    let mut i: usize = 0;
    while i < content.len()
        invariant
            0 <= i <= content.len(),
            current_indent + content@.len() <= usize::MAX,
            indent <= current_indent + i,
            indent_after(content@, current_indent as int) == indent_after_from(
                content@,
                i as int,
                indent as int,
                in_single_quote,
                in_double_quote,
                escaped,
            ),
        ensures
            indent_after(content@, current_indent as int) == indent,
        decreases content.len() - i,
    {
        let ch = content[i];
        let quoted = in_single_quote || in_double_quote;
        if escaped {
            escaped = false;
        } else if ch == '\\' && quoted {
            escaped = true;
        } else if ch == '\'' && !in_double_quote {
            in_single_quote = !in_single_quote;
        } else if ch == '"' && !in_single_quote {
            in_double_quote = !in_double_quote;
        } else if ch == '#' && !quoted {
            break;
        } else if (ch == '{' || ch == '[' || ch == '(') && !quoted {
            indent = indent + 1;
        } else if (ch == '}' || ch == ']' || ch == ')') && !quoted {
            indent = indent.saturating_sub(1);
        }
        i = i + 1;
    }
    indent
}

/// A line of a kept grouped expression that keeps its own indentation: an
/// argument line, a lone brace, or a line with a `:`.
pub open spec fn keeps_source_indent(content: Seq<char>) -> bool {
    simple_argument_line(content) || content == "{"@ || content == "}"@ || content.contains(':')
}

pub fn should_preserve_group_expression_source_indent(content: &[char]) -> (b: bool)
    ensures
        b == keeps_source_indent(content@),
{
    is_simple_argument_line(content) || text_eq(content, &chars_of("{")) || text_eq(
        content,
        &chars_of("}"),
    ) || contains_char(content, ':')
}


// ---------------------------------------------------------------------------
// The document
/// Everything the layout of a document reads: its text (line breaks
/// normalised), lines, tokens, the lines inside multiline strings, long lists
/// and kept grouped expressions, and the settings.
pub struct Layout {
    pub src: Seq<char>,
    pub lines: Seq<SourceLine>,
    pub tokens: Seq<LexToken>,
    pub strings: Seq<bool>,
    pub lists: Seq<bool>,
    pub groups: Seq<bool>,
    pub indent_width: int,
    pub max_blank_lines: int,
    pub line_width: int,
}

/// The output so far, the indentation level and the current run of blank lines.
pub struct FormatState {
    pub out: Seq<char>,
    pub indent: int,
    pub blank_run: int,
}

/// The text of a non-blank line as it is written out (before indentation).
pub open spec fn line_body_spec(l: Layout, index: int, indent: int) -> Seq<char> {
    let line = l.lines[index];
    let text = line_text(l.src, line);
    let trimmed_end = trim_end(text);
    let content = trim_start(trimmed_end);
    let width = line_indent_width(l, index, indent);
    let toks = line_tokens_of(l.src, l.tokens, line.start as int, line.end as int);
    if l.strings[index] {
        trimmed_end
    } else if toks.1 || toks.2 {
        restore_separators(split_heads(collapse_whitespace(content), width as nat))
    } else {
        format_line_spec(trimmed_end, toks.0, l.src, width as nat)
    }
}

/// The indentation, in spaces, of a non-blank line at indentation level `indent`.
pub open spec fn line_indent_width(l: Layout, index: int, indent: int) -> int {
    let content = trim_start(trim_end(line_text(l.src, l.lines[index])));
    let effective = if starts_with_closer_spec(content) {
        if indent > 0 {
            indent - 1
        } else {
            0
        }
    } else {
        indent
    };
    indent_columns(effective + continuation_indent(l.src, l.lines, index, content), l.indent_width)
}

/// Laying out line `index`.
pub open spec fn format_step(l: Layout, index: int, st: FormatState) -> FormatState {
    let line = l.lines[index];
    let text = line_text(l.src, line);
    let trimmed_end = trim_end(text);
    let content = trim_start(trimmed_end);
    if content.len() == 0 && l.strings[index] {
        FormatState {
            out: if line.has_newline {
                st.out.push('\n')
            } else {
                st.out
            },
            ..st
        }
    } else if content.len() == 0 {
        let after_opener = match prev_nonempty_from(l.src, l.lines, index) {
            Some(p) => ends_with_opener_spec(p),
            None => false,
        };
        let before_closer = match next_nonempty_from(l.src, l.lines, index + 1) {
            Some(n) => starts_with_closer_spec(n),
            None => false,
        };
        if after_opener || before_closer {
            st
        } else {
            let run = if st.blank_run >= 255 {
                255
            } else {
                st.blank_run + 1
            };
            FormatState {
                out: if run <= l.max_blank_lines {
                    st.out.push('\n')
                } else {
                    st.out
                },
                indent: st.indent,
                blank_run: run,
            }
        }
    } else {
        let width = line_indent_width(l, index, st.indent);
        let toks = line_tokens_of(l.src, l.tokens, line.start as int, line.end as int);
        let body = line_body_spec(l, index, st.indent);
        let in_string = l.strings[index];
        let join = if in_string || (index > 0 && l.strings[index - 1]) || l.lists[index]
            || l.groups[index] {
            None
        } else {
            join_with_previous_spec(st.out, l.src, l.lines, index, content, body, l.line_width)
        };
        let out1 = match join {
            Some(sep) => {
                let o = if ends_with_char(st.out, '\n') {
                    st.out.drop_last()
                } else {
                    st.out
                };
                let o = strip_trailing_spaces(o);
                if separator_text(sep).len() > 0 && o.len() > 0 {
                    o + separator_text(sep)
                } else {
                    o
                }
            },
            None => if in_string {
                st.out
            } else if l.groups[index] && keeps_source_indent(content) {
                st.out + spaces(indent_of(text) as nat)
            } else {
                st.out + spaces(width as nat)
            },
        };
        let out2 = if in_string {
            if join is None {
                out1 + trimmed_end
            } else {
                out1 + content
            }
        } else {
            out1 + body
        };
        let out3 = if line.has_newline {
            out2.push('\n')
        } else {
            out2
        };
        FormatState {
            out: out3,
            indent: if !(in_string || toks.1) {
                indent_after(content, st.indent)
            } else {
                st.indent
            },
            blank_run: 0,
        }
    }
}

/// Laying out the lines `index..`.
pub open spec fn format_lines_from(l: Layout, index: int, st: FormatState) -> FormatState
    decreases l.lines.len() - index,
{
    if index < 0 || index >= l.lines.len() {
        st
    } else {
        format_lines_from(l, index + 1, format_step(l, index, st))
    }
}

/// The layout of a document whose line breaks are normalised, from the tokens
/// that the lexer gave for it.
pub open spec fn layout_with(src: Seq<char>, tokens: Seq<LexToken>, config: Configuration) -> Layout {
    let lines = source_lines_of(src);
    Layout {
        src,
        lines,
        tokens,
        strings: multiline_string_flags(src, lines),
        lists: preserved_bracket_flags(src, lines, false),
        groups: preserved_bracket_flags(src, lines, true),
        indent_width: config.indent_width as int,
        max_blank_lines: config.max_blank_lines as int,
        line_width: config.line_width as int,
    }
}

/// The layout of a document whose line breaks are normalised.
pub open spec fn layout_of(src: Seq<char>, config: Configuration) -> Layout {
    layout_with(src, lexed_tokens(src), config)
}

/// A document laid out line by line from the given tokens.
pub open spec fn layout_output(src: Seq<char>, tokens: Seq<LexToken>, config: Configuration) -> Seq<char> {
    format_lines_from(layout_with(src, tokens, config), 0, FormatState { out: Seq::empty(), indent: 0, blank_run: 0 }).out
}

/// The formatted document: the source with `\r\n` written as `\n`, laid out
/// line by line; a source that Nushell's lexer rejects comes back unchanged.
pub open spec fn format_spec(file_text: Seq<char>, config: Configuration) -> Seq<char> {
    let src = crlf_to_lf(file_text);
    if nu_lex(src).1 {
        file_text
    } else {
        layout_output(src, lexed_tokens(src), config)
    }
}

/// What the layout of a document reads, computed once.
struct Document {
    src: Vec<char>,
    offsets: Vec<usize>,
    lines: Vec<SourceLine>,
    tokens: Vec<LexToken>,
    strings: Vec<bool>,
    lists: Vec<bool>,
    groups: Vec<bool>,
}

impl Document {
    spec fn layout(&self, config: Configuration) -> Layout {
        Layout {
            src: self.src@,
            lines: self.lines@,
            tokens: self.tokens@,
            strings: self.strings@,
            lists: self.lists@,
            groups: self.groups@,
            indent_width: config.indent_width as int,
            max_blank_lines: config.max_blank_lines as int,
            line_width: config.line_width as int,
        }
    }

    spec fn wf(&self) -> bool {
        &&& byte_len(self.src@) <= usize::MAX
        &&& offsets_of(self.src@, self.offsets@)
        &&& lines_wf(self.src@, self.lines@)
        &&& forall|k: int|
            #![trigger self.lines@[k]]
            0 <= k < self.lines@.len() - 1 ==> self.lines@[k].text_end
                < self.lines@[k + 1].text_start
        &&& spans_fit(self.src@, self.tokens@)
        &&& self.strings@.len() == self.lines@.len()
        &&& self.lists@.len() == self.lines@.len()
        &&& self.groups@.len() == self.lines@.len()
    }

    /// Where the text after line `index` starts.
    spec fn next_start(&self, index: int) -> int {
        if index + 1 < self.lines@.len() {
            self.lines@[index + 1].text_start as int
        } else {
            self.src@.len() as int
        }
    }
}

proof fn lemma_line_tokens_fit(src: Seq<char>, tokens: Seq<LexToken>, picked: Seq<LexToken>)
    requires
        spans_fit(src, tokens),
        forall|m: int| 0 <= m < picked.len() ==> tokens.contains(#[trigger] picked[m]),
    ensures
        tokens_fit(src, picked),
{
    assert forall|m: int| #![trigger picked[m]] 0 <= m < picked.len() implies {
        &&& picked[m].start <= picked[m].end
        &&& is_char_offset(src, picked[m].start as int)
        &&& is_char_offset(src, picked[m].end as int)
    } by {
        assert(tokens.contains(picked[m]));
        let j = choose|j: int| 0 <= j < tokens.len() && tokens[j] == picked[m];
        assert(tokens[j] == picked[m]);
    }
}

/// Lays out line `index` onto the output.
fn format_source_line(
    doc: &Document,
    config: &Configuration,
    index: usize,
    result: &mut Vec<char>,
    indent_level: &mut usize,
    blank_run: &mut u8,
)
    requires
        doc.wf(),
        index < doc.lines@.len(),
        *old(indent_level) <= doc.lines@[index as int].text_start,
    ensures
        (FormatState {
            out: final(result)@,
            indent: *final(indent_level) as int,
            blank_run: *final(blank_run) as int,
        }) == format_step(
            doc.layout(*config),
            index as int,
            FormatState {
                out: old(result)@,
                indent: *old(indent_level) as int,
                blank_run: *old(blank_run) as int,
            },
        ),
        *final(indent_level) <= doc.next_start(index as int),
{
    let ghost l = doc.layout(*config);
    let src = doc.src.as_slice();
    let lines = doc.lines.as_slice();
    let line = doc.lines[index];
    assert(doc.lines@[index as int] == line);
    let text = text_of(src, &line);
    let trimmed_end = trim_end_chars(text);
    let content = trim_start_chars(trimmed_end);
    proof {
        lemma_trim_len(text@);
        lemma_trim_len(trimmed_end@);
        if index + 1 < doc.lines@.len() {
            assert(doc.lines@[index as int].text_end < doc.lines@[index + 1].text_start);
        }
    }
    if content.len() == 0 && doc.strings[index] {
        if line.has_newline {
            result.push('\n');
        }
        return;
    }
    if content.len() == 0 {
        let after_opener = match previous_nonempty_content(src, lines, index) {
            Some(p) => ends_with_opener(p),
            None => false,
        };
        let before_closer = match next_nonempty_content(src, lines, index) {
            Some(n) => starts_with_closer(n),
            None => false,
        };
        if after_opener || before_closer {
            return;
        }
        *blank_run = blank_run.saturating_add(1);
        if *blank_run <= config.max_blank_lines {
            result.push('\n');
        }
        return;
    }
    *blank_run = 0;
    let effective_indent = if starts_with_closer(content) {
        indent_level.saturating_sub(1)
    } else {
        *indent_level
    };
    let continuation = continuation_indent_level(src, lines, index, content);
    proof {
        lemma_byte_len_bounds(src@);
        assert(text@.len() > 0);
        assert(effective_indent + continuation <= src@.len());
    }
    let width = indent_columns_of(effective_indent + continuation, config.indent_width);
    assert(width == line_indent_width(l, index as int, *old(indent_level) as int));
    let (line_toks, has_verbatim, has_structural) = line_tokens(
        doc.tokens.as_slice(),
        line.start,
        line.end,
        src,
        doc.offsets.as_slice(),
    );
    proof {
        lemma_line_tokens_fit(src@, doc.tokens@, line_toks@);
    }
    let in_string = doc.strings[index];
    let line_body: Vec<char> = if in_string {
        let mut copied: Vec<char> = Vec::new();
        push_chars(&mut copied, trimmed_end);
        copied
    } else if has_verbatim || has_structural {
        restore_separator_spaces(
            &split_reserved_statement_heads(&normalize_inline_whitespace(content), width),
        )
    } else {
        format_line(trimmed_end, line_toks.as_slice(), src, doc.offsets.as_slice(), width)
    };
    assert(line_body@ == line_body_spec(l, index as int, *old(indent_level) as int));
    let ghost old_out = result@;
    let join = if in_string || (index > 0 && doc.strings[index - 1]) || doc.lists[index]
        || doc.groups[index] {
        None
    } else {
        join_with_previous_line(
            result.as_slice(),
            src,
            lines,
            index,
            content,
            line_body.as_slice(),
            config.line_width as usize,
        )
    };
    assert(join == (if l.strings[index as int] || (index > 0 && l.strings[index - 1]) || l.lists[index as int]
        || l.groups[index as int] {
        None
    } else {
        join_with_previous_spec(old_out, l.src, l.lines, index as int, content@, line_body@, l.line_width)
    }));
    match join {
        Some(separator) => {
            if last_is(result.as_slice(), '\n') {
                result.pop();
            }
            trim_trailing_spaces(result);
            if separator == Separator::Space && result.len() > 0 {
                result.push(' ');
            }
        },
        None => {
            if !in_string {
                if doc.groups[index] && should_preserve_group_expression_source_indent(content) {
                    push_spaces(result, leading_indent(text));
                } else {
                    push_spaces(result, width);
                }
            }
        },
    }
    let ghost out1 = result@;
    assert(out1 == match join {
            Some(sep) => {
                let o = if ends_with_char(old_out, '\n') {
                    old_out.drop_last()
                } else {
                    old_out
                };
                let o = strip_trailing_spaces(o);
                if separator_text(sep).len() > 0 && o.len() > 0 {
                    o + separator_text(sep)
                } else {
                    o
                }
            },
            None => if in_string {
                old_out
            } else if l.groups[index as int] && keeps_source_indent(content@) {
                old_out + spaces(indent_of(text@) as nat)
            } else {
                old_out + spaces(width as nat)
            },
        });
    if in_string {
        if join.is_none() {
            push_chars(result, trimmed_end);
        } else {
            push_chars(result, content);
        }
    } else {
        push_chars(result, line_body.as_slice());
    }
    if line.has_newline {
        result.push('\n');
    }
    if !(in_string || has_verbatim) {
        *indent_level = next_indent_level(content, *indent_level);
    }
    assert(text@ == line_text(l.src, l.lines[index as int]));
    assert(content@ == trim_start(trim_end(text@)));
}

/// Formats a Nushell document: normalises `\r\n` to `\n`, then lays the
/// document out line by line from Nushell's tokens. A document that the lexer
/// rejects is returned unchanged.
pub fn format_text(file_text: &str, config: &Configuration) -> (res: String)
    ensures
        res@ == format_spec(file_text@, *config),
        !nu_lex(crlf_to_lf(file_text@)).1 && config.max_blank_lines < 255
            && string_blank_runs_within(crlf_to_lf(file_text@), config.max_blank_lines as int) ==> ({
            &&& !has_newline_run(res@, config.max_blank_lines + 2)
            &&& !newline_run_at(res@, 0, config.max_blank_lines + 1)
        }),
        !nu_lex(crlf_to_lf(file_text@)).1 ==> visible(res@) == visible(file_text@),
{
    let input = chars_of(file_text);
    let src = normalize_line_breaks(input.as_slice());
    let normalized = string_of(src.as_slice());
    let lexed = lex_document(normalized.as_str());
    if lexed.lex_error.is_some() {
        return string_of(input.as_slice());
    }
    let bytes = str_byte_len(normalized.as_str());
    let result = format_lexed(src.as_slice(), lexed.tokens.as_slice(), config);
    proof {
        lemma_byte_len_bounds(src@);
        if config.max_blank_lines < 255 && string_blank_runs_within(crlf_to_lf(file_text@), config.max_blank_lines as int) {
            law_formatter_caps_blank_lines(file_text@, *config);
        }
        if tokens_cover_lines(crlf_to_lf(file_text@)) {
            law_formatter_keeps_visible_text(file_text@, *config);
        }
    }
    string_of(result.as_slice())
}

/// Lays out a document (with `\n` line breaks) line by line from the tokens
/// that Nushell's lexer gave for it.
pub fn format_lexed(src: &[char], tokens: &[LexToken], config: &Configuration) -> (res: Vec<char>)
    requires
        byte_len(src@) <= usize::MAX,
        spans_fit(src@, tokens@),
    ensures
        res@ == layout_output(src@, tokens@, *config),
{
    let lines = source_lines(src);
    proof {
        lemma_byte_len_bounds(src@);
        lemma_lines_from_ordered(src@, 0);
    }
    let strings = multiline_string_lines(src, lines.as_slice());
    let lists = preserved_multiline_list_lines(src, lines.as_slice());
    let groups = preserved_multiline_group_expression_lines(src, lines.as_slice());
    let offsets = char_offsets(src);
    let doc = Document {
        src: vstd::slice::slice_to_vec(src),
        offsets,
        lines,
        tokens: vstd::slice::slice_to_vec(tokens),
        strings,
        lists,
        groups,
    };
    let ghost l = doc.layout(*config);
    assert(l == layout_with(src@, tokens@, *config));
    let mut result: Vec<char> = Vec::new();
    let mut indent_level: usize = 0;
    let mut blank_run: u8 = 0;
    let mut index: usize = 0;
    let n = doc.lines.len();
    while index < n
        invariant
            0 <= index <= n,
            n == doc.lines@.len(),
            doc.wf(),
            l == doc.layout(*config),
            indent_level <= if index < n {
                doc.lines@[index as int].text_start as int
            } else {
                doc.src@.len() as int
            },
            format_lines_from(l, 0, FormatState { out: Seq::empty(), indent: 0, blank_run: 0 })
                == format_lines_from(
                l,
                index as int,
                FormatState { out: result@, indent: indent_level as int, blank_run: blank_run as int },
            ),
        decreases n - index,
    {
        format_source_line(&doc, config, index, &mut result, &mut indent_level, &mut blank_run);
        index = index + 1;
    }
    result
}
} // verus!
