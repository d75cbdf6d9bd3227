//! Spacing inside a line: collapsing runs of whitespace, breaking a line
//! before a statement keyword that starts a new statement, and putting back
//! the spaces that separators such as `|`, `:` and `,` call for.
use vstd::prelude::*;

use crate::text::{
    chars_of, ends_with_char, ends_with_text, is_ascii_alnum, is_ascii_alpha, is_ascii_ws,
    last_is, push_chars, push_spaces, spaces, text_eq, trim, trim_chars, trim_end, trim_end_chars,
};

use crate::runs::{breaks_before_heads, lemma_split_heads_breaks};
use crate::visible::{lemma_restore_only_spaces, lemma_visible_split_heads, visible, without_spaces};

verus! {

/// Whether `c` opens a string literal.
pub open spec fn is_quote_char(c: char) -> bool {
    c == '"' || c == '\'' || c == '`'
}

// ---------------------------------------------------------------------------
// Trailing spaces
/// End of `s.take(j)` once its trailing spaces are dropped.
pub open spec fn space_end_from(s: Seq<char>, j: int) -> int
    decreases j,
{
    if 0 < j <= s.len() && s[j - 1] == ' ' {
        space_end_from(s, j - 1)
    } else {
        j
    }
}

/// A text without its trailing spaces (`' '` only).
pub open spec fn strip_trailing_spaces(s: Seq<char>) -> Seq<char> {
    s.take(space_end_from(s, s.len() as int))
}

pub proof fn lemma_space_end_bounds(s: Seq<char>, j: int)
    requires
        0 <= j <= s.len(),
    ensures
        0 <= space_end_from(s, j) <= j,
        space_end_from(s, j) > 0 ==> s[space_end_from(s, j) - 1] != ' ',
        forall|k: int| space_end_from(s, j) <= k < j ==> s[k] == ' ',
    decreases j,
{
    if 0 < j && s[j - 1] == ' ' {
        lemma_space_end_bounds(s, j - 1);
    }
}

/// Pops trailing spaces off a growing text.
pub fn trim_trailing_spaces(text: &mut Vec<char>)
    ensures
        final(text)@ == strip_trailing_spaces(old(text)@),
{
    let ghost s = text@;
    while text.len() > 0 && text[text.len() - 1] == ' '
        invariant
            text@ == s.take(text@.len() as int),
            text@.len() <= s.len(),
            space_end_from(s, s.len() as int) == space_end_from(s, text@.len() as int),
        decreases text.len(),
    {
        text.pop();
        proof {
            assert(text@ =~= s.take(text@.len() as int));
        }
    }
    assert(s.take(s.len() as int) =~= s);
}

// ---------------------------------------------------------------------------
// Collapsing whitespace
/// The state of collapsing whitespace: the text so far, the string literal
/// that is open, whether a backslash escapes the next character, and whether a
/// run of whitespace waits to be written as one space.
pub struct Collapse {
    pub out: Seq<char>,
    pub quote: Option<char>,
    pub escaped: bool,
    pub pending_space: bool,
}

pub open spec fn collapse_step(st: Collapse, ch: char) -> Collapse {
    match st.quote {
        Some(q) => {
            let out = st.out.push(ch);
            if st.escaped {
                Collapse { out, escaped: false, ..st }
            } else if ch == '\\' {
                Collapse { out, escaped: true, ..st }
            } else if ch == q {
                Collapse { out, quote: None, ..st }
            } else {
                Collapse { out, ..st }
            }
        },
        None => {
            if is_ascii_ws(ch) {
                Collapse { pending_space: st.out.len() > 0, ..st }
            } else {
                let out = if st.pending_space {
                    st.out.push(' ')
                } else {
                    st.out
                };
                Collapse {
                    out: out.push(ch),
                    quote: if is_quote_char(ch) {
                        Some(ch)
                    } else {
                        None
                    },
                    escaped: st.escaped,
                    pending_space: false,
                }
            }
        },
    }
}

pub open spec fn collapse_from(t: Seq<char>, i: int, st: Collapse) -> Seq<char>
    decreases t.len() - i,
{
    if i < 0 || i >= t.len() {
        st.out
    } else {
        collapse_from(t, i + 1, collapse_step(st, t[i]))
    }
}

/// A text whose runs of ASCII whitespace outside string literals are each
/// written as one space, with none at the start and none at the end.
pub open spec fn collapse_whitespace(t: Seq<char>) -> Seq<char> {
    collapse_from(t, 0, Collapse { out: Seq::empty(), quote: None, escaped: false, pending_space: false })
}

/// Collapsing from a state keeps what was already written.
pub proof fn lemma_collapse_from_prefix(t: Seq<char>, i: int, st: Collapse)
    ensures
        st.out.len() <= collapse_from(t, i, st).len(),
        collapse_from(t, i, st).take(st.out.len() as int) == st.out,
    decreases t.len() - i,
{
    if 0 <= i < t.len() {
        let n = collapse_step(st, t[i]);
        lemma_collapse_from_prefix(t, i + 1, n);
        let o = collapse_from(t, i, st);
        assert(n.out.take(st.out.len() as int) =~= st.out);
        assert(o.take(st.out.len() as int) =~= o.take(n.out.len() as int).take(st.out.len() as int));
    } else {
        assert(st.out.take(st.out.len() as int) =~= st.out);
    }
}

/// A second pass over collapsed text, started where the first pass had got to
/// (in the same string literal and escape, with no space pending), changes nothing.
proof fn lemma_collapse_second_pass(t: Seq<char>, i: int, st1: Collapse, st2: Collapse)
    requires
        0 <= i,
        st2.out == st1.out,
        st2.quote == st1.quote,
        st2.escaped == st1.escaped,
        !st2.pending_space,
        st1.pending_space ==> st1.out.len() > 0 && st1.quote is None,
    ensures
        collapse_from(collapse_from(t, i, st1), st1.out.len() as int, st2) == collapse_from(t, i, st1),
    decreases t.len() - i,
{
    let o = collapse_from(t, i, st1);
    let k = st1.out.len() as int;
    if i < t.len() {
        let ch = t[i];
        let n1 = collapse_step(st1, ch);
        lemma_collapse_from_prefix(t, i + 1, n1);
        assert(o == collapse_from(t, i + 1, n1));
        if st1.quote is None && is_ascii_ws(ch) {
            lemma_collapse_second_pass(t, i + 1, n1, st2);
        } else if st1.quote is None && st1.pending_space {
            assert(n1.out == st1.out.push(' ').push(ch));
            assert(o[k] == n1.out[k]);
            assert(o[k + 1] == n1.out[k + 1]);
            let m1 = collapse_step(st2, ' ');
            assert(m1.pending_space && m1.out == st2.out);
            let m2 = collapse_step(m1, ch);
            assert(m2.out == n1.out && m2.quote == n1.quote && m2.escaped == n1.escaped);
            assert(collapse_from(o, k, st2) == collapse_from(o, k + 1, m1));
            assert(collapse_from(o, k + 1, m1) == collapse_from(o, k + 2, m2));
            lemma_collapse_second_pass(t, i + 1, n1, Collapse { pending_space: false, ..m2 });
            assert(m2 == Collapse { pending_space: false, ..m2 });
        } else {
            assert(n1.out == st1.out.push(ch));
            assert(o[k] == n1.out[k]);
            let m = collapse_step(st2, ch);
            assert(m.out == n1.out && m.quote == n1.quote && m.escaped == n1.escaped);
            assert(collapse_from(o, k, st2) == collapse_from(o, k + 1, m));
            lemma_collapse_second_pass(t, i + 1, n1, Collapse { pending_space: false, ..m });
            assert(m == Collapse { pending_space: false, ..m });
        }
    } else {
        assert(collapse_from(o, k, st2) == st2.out);
    }
}

/// Collapsing whitespace twice is collapsing it once.
pub proof fn lemma_collapse_idempotent(t: Seq<char>)
    ensures
        collapse_whitespace(collapse_whitespace(t)) == collapse_whitespace(t),
{
    let init = Collapse { out: Seq::empty(), quote: None, escaped: false, pending_space: false };
    lemma_collapse_second_pass(t, 0, init, init);
}

pub fn normalize_inline_whitespace(text: &[char]) -> (res: Vec<char>)
    ensures
        res@ == collapse_whitespace(text@),
        collapse_whitespace(res@) == res@,
{
    proof {
        lemma_collapse_idempotent(text@);
    }
    let mut result: Vec<char> = Vec::new();
    let mut quote: Option<char> = None;
    let mut escaped = false;
    let mut pending_space = false;
    let mut i: usize = 0;
    while i < text.len()
        invariant
            0 <= i <= text.len(),
            collapse_whitespace(text@) == collapse_from(
                text@,
                i as int,
                Collapse { out: result@, quote, escaped, pending_space },
            ),
        decreases text.len() - i,
    {
        let ch = text[i];
        match quote {
            Some(active_quote) => {
                result.push(ch);
                if escaped {
                    escaped = false;
                } else if ch == '\\' {
                    escaped = true;
                } else if ch == active_quote {
                    quote = None;
                }
            },
            None => {
                if is_ascii_ws(ch) {
                    pending_space = result.len() > 0;
                } else {
                    if pending_space {
                        result.push(' ');
                        pending_space = false;
                    }
                    result.push(ch);
                    if ch == '"' || ch == '\'' || ch == '`' {
                        quote = Some(ch);
                    }
                }
            },
        }
        i = i + 1;
    }
    result
}

// ---------------------------------------------------------------------------
// Statement heads
/// Keywords that start a statement of their own.
pub open spec fn is_reserved_head(word: Seq<char>) -> bool {
    word == "let"@ || word == "const"@ || word == "mut"@ || word == "return"@ || word == "if"@
        || word == "for"@ || word == "while"@ || word == "match"@ || word == "print"@
}

pub fn is_reserved_statement_head(text: &[char]) -> (b: bool)
    ensures
        b == is_reserved_head(text@),
{
    text_eq(text, &chars_of("let")) || text_eq(text, &chars_of("const")) || text_eq(
        text,
        &chars_of("mut"),
    ) || text_eq(text, &chars_of("return")) || text_eq(text, &chars_of("if")) || text_eq(
        text,
        &chars_of("for"),
    ) || text_eq(text, &chars_of("while")) || text_eq(text, &chars_of("match")) || text_eq(
        text,
        &chars_of("print"),
    )
}

/// Start of the part of `t.take(j)` that follows its last line break.
pub open spec fn after_last_newline_from(t: Seq<char>, j: int) -> int
    decreases j,
{
    if 0 < j <= t.len() && t[j - 1] != '\n' {
        after_last_newline_from(t, j - 1)
    } else {
        j
    }
}

pub proof fn lemma_after_last_newline_bounds(t: Seq<char>, j: int)
    requires
        0 <= j <= t.len(),
    ensures
        0 <= after_last_newline_from(t, j) <= j,
        forall|k: int| after_last_newline_from(t, j) <= k < j ==> t[k] != '\n',
    decreases j,
{
    if 0 < j && t[j - 1] != '\n' {
        lemma_after_last_newline_bounds(t, j - 1);
    }
}

/// The last line of a text, as `str::lines().next_back()` gives it (the empty
/// text when there is none), up to trailing whitespace.
pub open spec fn last_line(s: Seq<char>) -> Seq<char> {
    let t = if ends_with_char(s, '\n') {
        s.drop_last()
    } else {
        s
    };
    t.skip(after_last_newline_from(t, t.len() as int))
}

fn last_line_of(s: &[char]) -> (res: &[char])
    ensures
        res@ == last_line(s@),
{
    let t = if last_is(s, '\n') {
        &s[0..s.len() - 1]
    } else {
        s
    };
    let mut j: usize = t.len();
    while j > 0 && t[j - 1] != '\n'
        invariant
            0 <= j <= t.len(),
            after_last_newline_from(t@, t@.len() as int) == after_last_newline_from(t@, j as int),
        decreases j,
    {
        j = j - 1;
    }
    proof {
        if ends_with_char(s@, '\n') {
            assert(t@ =~= s@.drop_last());
        }
    }
    &t[j..t.len()]
}

/// Whether a statement keyword `next_word` that follows `current_output` on
/// its line starts a new line: not when that line is blank, ends in an opener
/// or `|`, is a bare `let`, `const` or `mut`, or, for `if`, ends in `else` or
/// `=`; a `print` starts a new line only after a string literal.
pub open spec fn splits_before_head(current_output: Seq<char>, next_word: Seq<char>) -> bool {
    let current_line = trim_end(last_line(current_output));
    let trimmed = trim_end(current_line);
    if trim(current_line).len() == 0 {
        false
    } else if ends_with_char(trimmed, '{') || ends_with_char(trimmed, '[') || ends_with_char(
        trimmed,
        '(',
    ) || ends_with_char(trimmed, '|') {
        false
    } else if trimmed == "let"@ || trimmed == "const"@ || trimmed == "mut"@ {
        false
    } else if next_word == "if"@ && ("else"@.is_suffix_of(trimmed) || ends_with_char(trimmed, '=')) {
        false
    } else if next_word == "print"@ && !(ends_with_char(trimmed, '"') || ends_with_char(trimmed, '\'')) {
        false
    } else {
        true
    }
}

pub fn should_split_reserved_statement_line(current_output: &[char], next_word: &[char]) -> (b: bool)
    ensures
        b == splits_before_head(current_output@, next_word@),
{
    let current_line = trim_end_chars(last_line_of(current_output));
    if trim_chars(current_line).len() == 0 {
        return false;
    }
    let trimmed = trim_end_chars(current_line);
    if last_is(trimmed, '{') || last_is(trimmed, '[') || last_is(trimmed, '(') || last_is(
        trimmed,
        '|',
    ) {
        return false;
    }
    if text_eq(trimmed, &chars_of("let")) || text_eq(trimmed, &chars_of("const")) || text_eq(
        trimmed,
        &chars_of("mut"),
    ) {
        return false;
    }
    if text_eq(next_word, &chars_of("if")) && (ends_with_text(trimmed, &chars_of("else")) || last_is(
        trimmed,
        '=',
    )) {
        return false;
    }
    if text_eq(next_word, &chars_of("print")) && !(last_is(trimmed, '"') || last_is(trimmed, '\'')) {
        return false;
    }
    true
}

/// End of the word (ASCII letters, digits and `_`) that continues at `j`.
pub open spec fn word_end_from(t: Seq<char>, j: int) -> int
    decreases t.len() - j,
{
    if 0 <= j < t.len() && (is_ascii_alnum(t[j]) || t[j] == '_') {
        word_end_from(t, j + 1)
    } else {
        j
    }
}

pub proof fn lemma_word_end_bounds(t: Seq<char>, j: int)
    requires
        0 <= j <= t.len(),
    ensures
        j <= word_end_from(t, j) <= t.len(),
        forall|k: int| j <= k < word_end_from(t, j) ==> is_ascii_alnum(#[trigger] t[k]) || t[k] == '_',
    decreases t.len() - j,
{
    if j < t.len() && (is_ascii_alnum(t[j]) || t[j] == '_') {
        lemma_word_end_bounds(t, j + 1);
    }
}

/// Breaking a text before statement keywords, from character `i` on, with
/// `out` written so far and the string state `quote`/`escaped`.
pub open spec fn split_heads_from(
    t: Seq<char>,
    i: int,
    out: Seq<char>,
    quote: Option<char>,
    escaped: bool,
    indent_width: nat,
) -> Seq<char>
    decreases t.len() - i,
{
    if i < 0 || i >= t.len() {
        out
    } else {
        let ch = t[i];
        match quote {
            Some(q) => {
                let out2 = out.push(ch);
                if escaped {
                    split_heads_from(t, i + 1, out2, quote, false, indent_width)
                } else if ch == '\\' {
                    split_heads_from(t, i + 1, out2, quote, true, indent_width)
                } else if ch == q {
                    split_heads_from(t, i + 1, out2, None, false, indent_width)
                } else {
                    split_heads_from(t, i + 1, out2, quote, false, indent_width)
                }
            },
            None => {
                if is_quote_char(ch) {
                    split_heads_from(t, i + 1, out.push(ch), Some(ch), escaped, indent_width)
                } else if is_ascii_alpha(ch) {
                    let e = word_end_from(t, i);
                    let word = t.subrange(i, e);
                    let split = i > 0 && is_ascii_ws(t[i - 1]) && is_reserved_head(word)
                        && splits_before_head(out, word);
                    let out2 = if split {
                        strip_trailing_spaces(out).push('\n') + spaces(indent_width)
                    } else {
                        out
                    };
                    proof {
                        lemma_word_end_bounds(t, i + 1);
                    }
                    split_heads_from(t, e, out2 + word, None, escaped, indent_width)
                } else {
                    split_heads_from(t, i + 1, out.push(ch), None, escaped, indent_width)
                }
            },
        }
    }
}

/// A text with a line break (and `indent_width` spaces) put before each
/// statement keyword that starts a new statement in the middle of a line, and
/// between the command names of a line that holds nothing else.
pub open spec fn split_heads(t: Seq<char>, indent_width: nat) -> Seq<char> {
    if is_invocation_run(t) {
        spread_invocations(t, indent_width)
    } else {
        split_heads_from(t, 0, Seq::empty(), None, false, indent_width)
    }
}

/// Whether `t.skip(i)` continues a run of command names (lower-case words with
/// a `-`, made of lower-case letters, digits and `-`) separated by single
/// spaces; `at_start`: a name starts at `i`; `has_dash`: the name being read
/// holds a `-`.
pub open spec fn invocation_run_from(t: Seq<char>, i: int, at_start: bool, has_dash: bool) -> bool
    decreases t.len() - i,
{
    if i < 0 || i >= t.len() {
        !at_start && has_dash
    } else {
        let c = t[i];
        if c == ' ' {
            !at_start && has_dash && invocation_run_from(t, i + 1, true, false)
        } else if at_start {
            'a' <= c <= 'z' && invocation_run_from(t, i + 1, false, false)
        } else {
            ('a' <= c <= 'z' || '0' <= c <= '9' || c == '-') && invocation_run_from(
                t,
                i + 1,
                false,
                has_dash || c == '-',
            )
        }
    }
}

/// A line made of two or more command names and nothing else, such as
/// `configure-cursor configure-illustrator`: each is a call of its own.
pub open spec fn is_invocation_run(t: Seq<char>) -> bool {
    t.contains(' ') && invocation_run_from(t, 0, true, false)
}

/// A run of command names, one per line, the later ones indented by `indent_width`.
pub open spec fn spread_invocations(t: Seq<char>, indent_width: nat) -> Seq<char>
    decreases t.len(),
{
    if t.len() == 0 {
        Seq::empty()
    } else {
        spread_invocations(t.drop_last(), indent_width) + if t.last() == ' ' {
            seq!['\n'] + spaces(indent_width)
        } else {
            seq![t.last()]
        }
    }
}

fn is_invocation_line(text: &[char]) -> (b: bool)
    ensures
        b == is_invocation_run(text@),
{
    let mut at_start = true;
    let mut has_dash = false;
    let mut has_space = false;
    let mut i: usize = 0;
    while i < text.len()
        invariant
            0 <= i <= text.len(),
            invocation_run_from(text@, 0, true, false) == invocation_run_from(
                text@,
                i as int,
                at_start,
                has_dash,
            ),
            has_space == text@.take(i as int).contains(' '),
            at_start ==> !has_dash,
        decreases text.len() - i,
    {
        let c = text[i];
        proof {
            assert(text@.take(i + 1) =~= text@.take(i as int).push(c));
            if text@.take(i as int).contains(' ') {
                let k = choose|k: int| 0 <= k < i && text@.take(i as int)[k] == ' ';
                assert(text@.take(i + 1)[k] == ' ');
            }
            if c == ' ' {
                assert(text@.take(i + 1)[i as int] == ' ');
            }
        }
        if c == ' ' {
            if at_start || !has_dash {
                return false;
            }
            at_start = true;
            has_dash = false;
            has_space = true;
        } else if at_start {
            if !('a' <= c && c <= 'z') {
                return false;
            }
            at_start = false;
        } else {
            if !(('a' <= c && c <= 'z') || ('0' <= c && c <= '9') || c == '-') {
                return false;
            }
            has_dash = has_dash || c == '-';
        }
        i = i + 1;
    }
    assert(text@.take(text@.len() as int) =~= text@);
    has_space && !at_start && has_dash
}

fn spread_invocation_line(text: &[char], indent_width: usize) -> (res: Vec<char>)
    ensures
        res@ == spread_invocations(text@, indent_width as nat),
{
    let mut result: Vec<char> = Vec::new();
    let mut i: usize = 0;
    while i < text.len()
        invariant
            0 <= i <= text.len(),
            result@ == spread_invocations(text@.take(i as int), indent_width as nat),
        decreases text.len() - i,
    {
        proof {
            assert(text@.take(i + 1).drop_last() =~= text@.take(i as int));
        }
        if text[i] == ' ' {
            result.push('\n');
            push_spaces(&mut result, indent_width);
            proof {
                assert(result@ =~= spread_invocations(text@.take(i as int), indent_width as nat) + (
                seq!['\n'] + spaces(indent_width as nat)));
            }
        } else {
            result.push(text[i]);
        }
        i = i + 1;
    }
    assert(text@.take(text@.len() as int) =~= text@);
    result
}

pub fn split_reserved_statement_heads(text: &[char], indent_width: usize) -> (res: Vec<char>)
    ensures
        res@ == split_heads(text@, indent_width as nat),
        visible(res@) == visible(text@),
        !text@.contains('\n') && !is_invocation_run(text@) ==> breaks_before_heads(res@, indent_width as nat),
{
    proof {
        lemma_visible_split_heads(text@, indent_width as nat);
        if !text@.contains('\n') && !is_invocation_run(text@) {
            lemma_split_heads_breaks(text@, indent_width as nat);
        }
    }
    if is_invocation_line(text) {
        return spread_invocation_line(text, indent_width);
    }
    let mut result: Vec<char> = Vec::new();
    let mut quote: Option<char> = None;
    let mut escaped = false;
    let mut index: usize = 0;
    while index < text.len()
        invariant
            0 <= index <= text.len(),
            !is_invocation_run(text@),
            split_heads(text@, indent_width as nat) == split_heads_from(
                text@,
                index as int,
                result@,
                quote,
                escaped,
                indent_width as nat,
            ),
        decreases text.len() - index,
    {
        let ch = text[index];
        match quote {
            Some(active_quote) => {
                result.push(ch);
                if escaped {
                    escaped = false;
                } else if ch == '\\' {
                    escaped = true;
                } else if ch == active_quote {
                    quote = None;
                }
                index = index + 1;
            },
            None => {
                if ch == '"' || ch == '\'' || ch == '`' {
                    quote = Some(ch);
                    result.push(ch);
                    index = index + 1;
                } else if is_ascii_alpha(ch) {
                    let word_start = index;
                    let ghost before = result@;
                    while index < text.len() && (is_ascii_alnum(text[index]) || text[index] == '_')
                        invariant
                            word_start < index <= text.len() || (word_start == index && index
                                < text.len()),
                            is_ascii_alpha(text@[word_start as int]),
                            word_end_from(text@, word_start as int) == word_end_from(
                                text@,
                                index as int,
                            ),
                        decreases text.len() - index,
                    {
                        index = index + 1;
                    }
                    proof {
                        lemma_word_end_bounds(text@, index as int);
                    }
                    let word = &text[word_start..index];
                    let preceded_by_whitespace = word_start > 0 && is_ascii_ws(text[word_start - 1]);
                    if preceded_by_whitespace && is_reserved_statement_head(word)
                        && should_split_reserved_statement_line(&result, word) {
                        trim_trailing_spaces(&mut result);
                        result.push('\n');
                        push_spaces(&mut result, indent_width);
                    }
                    push_chars(&mut result, word);
                } else {
                    result.push(ch);
                    index = index + 1;
                }
            },
        }
    }
    result
}

// ---------------------------------------------------------------------------
// Separator spaces
/// The last character of a text that is not ASCII whitespace.
pub open spec fn last_non_ws(s: Seq<char>) -> Option<char>
    decreases s.len(),
{
    if s.len() == 0 {
        None
    } else if !is_ascii_ws(s.last()) {
        Some(s.last())
    } else {
        last_non_ws(s.drop_last())
    }
}

fn last_non_ws_of(s: &[char]) -> (res: Option<char>)
    ensures
        res == last_non_ws(s@),
{
    let mut j: usize = s.len();
    assert(s@.take(s@.len() as int) =~= s@);
    while j > 0
        invariant
            0 <= j <= s.len(),
            last_non_ws(s@) == last_non_ws(s@.take(j as int)),
        decreases j,
    {
        proof {
            assert(s@.take(j as int).drop_last() =~= s@.take(j - 1));
        }
        if !is_ascii_ws(s[j - 1]) {
            return Some(s[j - 1]);
        }
        j = j - 1;
    }
    None
}

/// A `}` is preceded by a space unless the text before it ends (ignoring
/// whitespace) in an opener or `|`, or holds nothing but whitespace.
pub open spec fn space_before_closer(out: Seq<char>) -> bool {
    match last_non_ws(out) {
        Some(c) => !(c == '{' || c == '[' || c == '(' || c == '|'),
        None => false,
    }
}

pub fn needs_space_before_inline_closer(current_output: &[char]) -> (b: bool)
    ensures
        b == space_before_closer(current_output@),
{
    match last_non_ws_of(current_output) {
        Some(c) => !(c == '{' || c == '[' || c == '(' || c == '|'),
        None => false,
    }
}

/// Whether the `|` at `i` has another `|` after it, as a closure's parameter list does.
pub open spec fn closure_signature_at(t: Seq<char>, i: int) -> bool {
    0 <= i < t.len() && t[i] == '|' && t.skip(i + 1).contains('|')
}

pub fn looks_like_closure_signature(chars: &[char], start_index: usize) -> (b: bool)
    ensures
        b == closure_signature_at(chars@, start_index as int),
{
    if start_index >= chars.len() || chars[start_index] != '|' {
        return false;
    }
    let mut k: usize = start_index + 1;
    while k < chars.len()
        invariant
            start_index < k <= chars.len(),
            chars@[start_index as int] == '|',
            forall|m: int| start_index < m < k ==> chars@[m] != '|',
        decreases chars.len() - k,
    {
        if chars[k] == '|' {
            let ghost rest = chars@.skip(start_index + 1);
            assert(rest[k - start_index - 1] == '|');
            assert(rest.contains('|'));
            return true;
        }
        k = k + 1;
    }
    proof {
        let rest = chars@.skip(start_index + 1);
        assert forall|m: int| 0 <= m < rest.len() implies rest[m] != '|' by {
            assert(rest[m] == chars@[start_index + 1 + m]);
        }
    }
    false
}

/// The state of restoring separator spaces: the text so far, the open string
/// literal and escape, the open brackets, and whether a closure's parameter
/// list is open.
pub struct Separators {
    pub out: Seq<char>,
    pub quote: Option<char>,
    pub escaped: bool,
    pub stack: Seq<char>,
    pub in_signature: bool,
}

/// Whether the character after `i` exists and is not ASCII whitespace.
pub open spec fn next_is_solid(t: Seq<char>, i: int) -> bool {
    i + 1 < t.len() && !is_ascii_ws(t[i + 1])
}

pub open spec fn top_is(stack: Seq<char>, c: char) -> bool {
    stack.len() > 0 && stack.last() == c
}

pub open spec fn pop_if(stack: Seq<char>, c: char) -> Seq<char> {
    if top_is(stack, c) {
        stack.drop_last()
    } else {
        stack
    }
}

/// One step of restoring separator spaces, at character `i`.
pub open spec fn separators_step(t: Seq<char>, i: int, st: Separators) -> Separators {
    let ch = t[i];
    match st.quote {
        Some(q) => {
            let out = st.out.push(ch);
            if st.escaped {
                Separators { out, escaped: false, ..st }
            } else if ch == '\\' {
                Separators { out, escaped: true, ..st }
            } else if ch == q {
                Separators { out, quote: None, ..st }
            } else {
                Separators { out, ..st }
            }
        },
        None => {
            if is_quote_char(ch) {
                Separators { out: st.out.push(ch), quote: Some(ch), ..st }
            } else if ch == '[' || ch == '(' {
                Separators { out: st.out.push(ch), stack: st.stack.push(ch), ..st }
            } else if ch == '{' {
                Separators { out: st.out.push(ch), stack: st.stack.push(ch), ..st }
            } else if ch == ']' {
                Separators { out: st.out.push(ch), stack: pop_if(st.stack, '['), ..st }
            } else if ch == ')' {
                Separators { out: st.out.push(ch), stack: pop_if(st.stack, '('), ..st }
            } else if ch == '}' {
                let out = if space_before_closer(st.out) {
                    strip_trailing_spaces(st.out).push(' ')
                } else {
                    st.out
                };
                Separators {
                    out: out.push(ch),
                    stack: pop_if(st.stack, '{'),
                    in_signature: false,
                    ..st
                }
            } else if ch == ':' {
                let out = st.out.push(ch);
                Separators {
                    out: if (top_is(st.stack, '[') || top_is(st.stack, '{')) && next_is_solid(t, i) {
                        out.push(' ')
                    } else {
                        out
                    },
                    ..st
                }
            } else if ch == ',' {
                let out = st.out.push(ch);
                Separators {
                    out: if top_is(st.stack, '[') && next_is_solid(t, i) {
                        out.push(' ')
                    } else {
                        out
                    },
                    ..st
                }
            } else if ch == '|' {
                let opening = last_non_ws(st.out) == Some('{') || (trim(st.out).len() == 0
                    && closure_signature_at(t, i));
                let closing = st.in_signature && !opening;
                let out = st.out.push(ch);
                if opening {
                    Separators { out, in_signature: true, ..st }
                } else if closing {
                    Separators {
                        out: if next_is_solid(t, i) {
                            out.push(' ')
                        } else {
                            out
                        },
                        in_signature: false,
                        ..st
                    }
                } else if !st.in_signature && next_is_solid(t, i) && t[i + 1] != '|' {
                    Separators { out: out.push(' '), ..st }
                } else {
                    Separators { out, ..st }
                }
            } else {
                Separators { out: st.out.push(ch), ..st }
            }
        },
    }
}

pub open spec fn separators_from(t: Seq<char>, i: int, st: Separators) -> Seq<char>
    decreases t.len() - i,
{
    if i < 0 || i >= t.len() {
        st.out
    } else {
        separators_from(t, i + 1, separators_step(t, i, st))
    }
}

/// A text with a space put back before an inline `}`, after `:` in records
/// and lists, after `,` in lists, and around pipes and closure parameter
/// lists; a `{` stays next to a closure's `|`, and a `||` is not split.
pub open spec fn restore_separators(t: Seq<char>) -> Seq<char> {
    separators_from(
        t,
        0,
        Separators {
            out: Seq::empty(),
            quote: None,
            escaped: false,
            stack: Seq::empty(),
            in_signature: false,
        },
    )
}

pub fn restore_separator_spaces(text: &[char]) -> (res: Vec<char>)
    ensures
        res@ == restore_separators(text@),
        without_spaces(res@) == without_spaces(text@),
{
    proof {
        lemma_restore_only_spaces(text@);
    }
    let mut result: Vec<char> = Vec::new();
    let mut quote: Option<char> = None;
    let mut escaped = false;
    let mut delimiter_stack: Vec<char> = Vec::new();
    let mut in_closure_signature = false;
    let mut index: usize = 0;
    let n = text.len();
    while index < n
        invariant
            0 <= index <= n,
            n == text@.len(),
            restore_separators(text@) == separators_from(
                text@,
                index as int,
                Separators {
                    out: result@,
                    quote,
                    escaped,
                    stack: delimiter_stack@,
                    in_signature: in_closure_signature,
                },
            ),
        decreases n - index,
    {
        let ch = text[index];
        let next_solid = index + 1 < n && !is_ascii_ws(text[index + 1]);
        match quote {
            Some(active_quote) => {
                result.push(ch);
                if escaped {
                    escaped = false;
                } else if ch == '\\' {
                    escaped = true;
                } else if ch == active_quote {
                    quote = None;
                }
            },
            None => {
                if ch == '"' || ch == '\'' || ch == '`' {
                    quote = Some(ch);
                    result.push(ch);
                } else if ch == '[' || ch == '(' {
                    delimiter_stack.push(ch);
                    result.push(ch);
                } else if ch == '{' {
                    delimiter_stack.push(ch);
                    result.push(ch);
                } else if ch == ']' {
                    if last_is(&delimiter_stack, '[') {
                        delimiter_stack.pop();
                    }
                    result.push(ch);
                } else if ch == ')' {
                    if last_is(&delimiter_stack, '(') {
                        delimiter_stack.pop();
                    }
                    result.push(ch);
                } else if ch == '}' {
                    if needs_space_before_inline_closer(&result) {
                        trim_trailing_spaces(&mut result);
                        result.push(' ');
                    }
                    if last_is(&delimiter_stack, '{') {
                        delimiter_stack.pop();
                    }
                    result.push(ch);
                    in_closure_signature = false;
                } else if ch == ':' {
                    result.push(ch);
                    if (last_is(&delimiter_stack, '[') || last_is(&delimiter_stack, '{')) && next_solid {
                        result.push(' ');
                    }
                } else if ch == ',' {
                    result.push(ch);
                    if last_is(&delimiter_stack, '[') && next_solid {
                        result.push(' ');
                    }
                } else if ch == '|' {
                    let previous_nonspace = last_non_ws_of(&result);
                    let opening_closure_bar = previous_nonspace == Some('{') || (trim_chars(
                        &result,
                    ).len() == 0 && looks_like_closure_signature(text, index));
                    let closing_closure_bar = in_closure_signature && !opening_closure_bar;
                    result.push(ch);
                    if opening_closure_bar {
                        in_closure_signature = true;
                    } else if closing_closure_bar {
                        if next_solid {
                            result.push(' ');
                        }
                        in_closure_signature = false;
                    } else if !in_closure_signature && next_solid && text[index + 1] != '|' {
                        result.push(' ');
                    }
                } else {
                    result.push(ch);
                }
            },
        }
        proof {
            assert(delimiter_stack@.len() > 0 ==> delimiter_stack@.last() == delimiter_stack@[
                delimiter_stack@.len() - 1]);
        }
        index = index + 1;
    }
    result
}

} // verus!
