//! Runs of line breaks in a text, and the shapes of text that the spacing
//! passes produce: facts that the blank-line laws are built from.
use vstd::prelude::*;

use crate::spacing::{
    Collapse, Separators, after_last_newline_from, collapse_from, collapse_step,
    collapse_whitespace, invocation_run_from, is_invocation_run, last_line,
    lemma_after_last_newline_bounds, lemma_space_end_bounds, lemma_word_end_bounds,
    restore_separators, separators_from, separators_step, space_end_from, split_heads,
    split_heads_from, splits_before_head, spread_invocations, strip_trailing_spaces,
    word_end_from,
};
use crate::text::{
    is_ascii_alpha, is_ascii_ws, is_unicode_ws, lemma_trim_empty_iff, spaces, trim, trim_end,
};

verus! {

// ---------------------------------------------------------------------------
// Runs of blank lines
/// `n` line breaks in a row start at `i`.
pub open spec fn newline_run_at(s: Seq<char>, i: int, n: int) -> bool {
    0 <= i && i + n <= s.len() && forall|j: int| i <= j < i + n ==> s[j] == '\n'
}

/// A text holds `n` line breaks in a row somewhere.
pub open spec fn has_newline_run(s: Seq<char>, n: int) -> bool {
    exists|i: int| newline_run_at(s, i, n)
}

/// The number of line breaks that a text ends with.
pub open spec fn trailing_newlines(s: Seq<char>) -> nat
    decreases s.len(),
{
    if s.len() > 0 && s.last() == '\n' {
        1 + trailing_newlines(s.drop_last())
    } else {
        0
    }
}

pub proof fn lemma_trailing_newlines_cover(s: Seq<char>, i: int)
    requires
        0 <= i <= s.len(),
        forall|j: int| i <= j < s.len() ==> s[j] == '\n',
    ensures
        trailing_newlines(s) >= s.len() - i,
    decreases s.len() - i,
{
    if i < s.len() {
        let d = s.drop_last();
        assert forall|j: int| i <= j < d.len() implies d[j] == '\n' by {
            assert(d[j] == s[j]);
        }
        lemma_trailing_newlines_cover(d, i);
    }
}

/// Adding one line break to a text without long runs makes a long run only
/// out of the line breaks that the text already ends with.
pub proof fn lemma_push_newline_run(s: Seq<char>, n: int)
    requires
        n >= 1,
        !has_newline_run(s, n),
        trailing_newlines(s) + 1 < n,
    ensures
        !has_newline_run(s.push('\n'), n),
        trailing_newlines(s.push('\n')) == trailing_newlines(s) + 1,
{
    let t = s.push('\n');
    assert(t.drop_last() =~= s);
    if has_newline_run(t, n) {
        let i = choose|i: int| newline_run_at(t, i, n);
        if i + n <= s.len() {
            assert(newline_run_at(s, i, n));
        } else {
            assert forall|j: int| i <= j < s.len() implies s[j] == '\n' by {
                assert(t[j] == s[j]);
            }
            lemma_trailing_newlines_cover(s, i);
        }
    }
}

/// A line (a non-empty text without line breaks, then a line break) added to
/// a text without long runs makes no long run, and leaves one line break at the end.
pub proof fn lemma_push_line_run(s: Seq<char>, x: Seq<char>, n: int)
    requires
        n >= 2,
        !has_newline_run(s, n),
        x.len() > 0,
        !x.contains('\n'),
    ensures
        !has_newline_run((s + x).push('\n'), n),
        trailing_newlines((s + x).push('\n')) == 1,
{
    let t = (s + x).push('\n');
    assert(t.drop_last() =~= s + x);
    assert((s + x).last() == x.last());
    assert(x.last() == x[x.len() - 1]);
    assert(trailing_newlines(s + x) == 0);
    if has_newline_run(t, n) {
        let i = choose|i: int| newline_run_at(t, i, n);
        if i + n <= s.len() {
            assert forall|j: int| i <= j < i + n implies s[j] == '\n' by {
                assert(t[j] == s[j]);
            }
            assert(newline_run_at(s, i, n));
        } else {
            let p = i + n - 2;
            assert(s.len() <= p + 1);
            if p >= s.len() {
                assert(t[p] == x[p - s.len()]);
            } else {
                assert(t[p + 1] == x[p + 1 - s.len()]);
            }
        }
    }
}

pub proof fn lemma_prefix_newline_run(s: Seq<char>, k: int, n: int)
    requires
        0 <= k <= s.len(),
        !has_newline_run(s, n),
    ensures
        !has_newline_run(s.take(k), n),
{
    if has_newline_run(s.take(k), n) {
        let i = choose|i: int| newline_run_at(s.take(k), i, n);
        assert forall|j: int| i <= j < i + n implies s[j] == '\n' by {
            assert(s.take(k)[j] == s[j]);
        }
        assert(newline_run_at(s, i, n));
    }
}

// ---------------------------------------------------------------------------
// Texts whose line breaks are kept apart
/// Every line break has a character other than a line break right before it:
/// the text starts with no line break and holds no empty line.
pub open spec fn breaks_separated(s: Seq<char>) -> bool {
    forall|j: int| #![trigger s[j]] 0 <= j < s.len() && s[j] == '\n' ==> j > 0 && s[j - 1] != '\n'
}

/// A text that ends in a line kept apart from what precedes it: non-empty, its
/// line breaks kept apart, and no line break at its end.
pub open spec fn closed_line(s: Seq<char>) -> bool {
    &&& s.len() > 0
    &&& breaks_separated(s)
    &&& s.last() != '\n'
}

pub proof fn lemma_plain_separated(s: Seq<char>)
    requires
        !s.contains('\n'),
    ensures
        breaks_separated(s),
{
    assert forall|j: int| #![trigger s[j]] 0 <= j < s.len() && s[j] == '\n' implies j > 0 && s[j - 1] != '\n' by {
        assert(s.contains(s[j]));
    }
}

pub proof fn lemma_separated_take(s: Seq<char>, k: int)
    requires
        0 <= k <= s.len(),
        breaks_separated(s),
    ensures
        breaks_separated(s.take(k)),
{
    let t = s.take(k);
    assert forall|j: int| #![trigger t[j]] 0 <= j < t.len() && t[j] == '\n' implies j > 0 && t[j - 1] != '\n' by {
        assert(t[j] == s[j]);
        assert(s[j - 1] == t[j - 1]);
    }
}

pub proof fn lemma_separated_push(s: Seq<char>, c: char)
    requires
        breaks_separated(s),
        c == '\n' ==> s.len() > 0 && s.last() != '\n',
    ensures
        breaks_separated(s.push(c)),
{
    let t = s.push(c);
    assert forall|j: int| #![trigger t[j]] 0 <= j < t.len() && t[j] == '\n' implies j > 0 && t[j - 1] != '\n' by {
        if j < s.len() {
            assert(t[j] == s[j]);
            assert(s[j - 1] == t[j - 1]);
        } else {
            assert(t[j - 1] == s.last());
        }
    }
}

/// Characters other than line breaks added at the end keep line breaks apart.
pub proof fn lemma_separated_append_plain(s: Seq<char>, x: Seq<char>)
    requires
        breaks_separated(s),
        !x.contains('\n'),
    ensures
        breaks_separated(s + x),
{
    let t = s + x;
    assert forall|j: int| #![trigger t[j]] 0 <= j < t.len() && t[j] == '\n' implies j > 0 && t[j - 1] != '\n' by {
        if j < s.len() {
            assert(t[j] == s[j]);
            assert(s[j - 1] == t[j - 1]);
        } else {
            assert(t[j] == x[j - s.len()]);
            assert(x.contains(x[j - s.len()]));
        }
    }
}

/// Text without line breaks added to a text makes no new run of them.
pub proof fn lemma_append_plain_run(s: Seq<char>, x: Seq<char>, n: int)
    requires
        n >= 1,
        !has_newline_run(s, n),
        !x.contains('\n'),
    ensures
        !has_newline_run(s + x, n),
        x.len() > 0 ==> trailing_newlines(s + x) == 0,
        x.len() == 0 ==> s + x == s,
{
    let t = s + x;
    if has_newline_run(t, n) {
        let i = choose|i: int| newline_run_at(t, i, n);
        let p = i + n - 1;
        if p >= s.len() {
            assert(t[p] == x[p - s.len()]);
            assert(x.contains(x[p - s.len()]));
        } else {
            assert forall|j: int| i <= j < i + n implies s[j] == '\n' by {
                assert(t[j] == s[j]);
            }
            assert(newline_run_at(s, i, n));
        }
    }
    if x.len() > 0 {
        assert(t.last() == x[x.len() - 1]);
        assert(x.contains(x[x.len() - 1]));
    } else {
        assert(t =~= s);
    }
}

/// A closed line added to a text without runs of `n >= 2` line breaks makes no
/// such run, and leaves no line break at the end.
pub proof fn lemma_append_closed_line(s: Seq<char>, x: Seq<char>, n: int)
    requires
        n >= 2,
        !has_newline_run(s, n),
        closed_line(x),
    ensures
        !has_newline_run(s + x, n),
        trailing_newlines(s + x) == 0,
{
    let t = s + x;
    if has_newline_run(t, n) {
        let i = choose|i: int| newline_run_at(t, i, n);
        let p = i + n - 1;
        if p >= s.len() {
            assert(t[p] == x[p - s.len()]);
            assert(t[p] == '\n');
            if p - 1 >= s.len() {
                assert(t[p - 1] == x[p - 1 - s.len()]);
            } else {
                assert(x[0] == t[p]);
            }
        } else {
            assert forall|j: int| i <= j < i + n implies s[j] == '\n' by {
                assert(t[j] == s[j]);
            }
            assert(newline_run_at(s, i, n));
        }
    }
    assert(t.last() == x.last());
}


pub proof fn lemma_spaces_plain(n: nat)
    ensures
        !spaces(n).contains('\n'),
{
    assert forall|m: int| 0 <= m < spaces(n).len() implies spaces(n)[m] != '\n' by {}
}

pub proof fn lemma_take_plain(s: Seq<char>, k: int)
    requires
        0 <= k <= s.len(),
        !s.contains('\n'),
    ensures
        !s.take(k).contains('\n'),
{
    assert forall|m: int| 0 <= m < s.take(k).len() implies s.take(k)[m] != '\n' by {
        assert(s.take(k)[m] == s[m]);
        assert(s.contains(s[m]));
    }
}

pub proof fn lemma_subrange_plain(s: Seq<char>, a: int, b: int)
    requires
        0 <= a <= b <= s.len(),
        !s.contains('\n'),
    ensures
        !s.subrange(a, b).contains('\n'),
{
    assert forall|m: int| 0 <= m < s.subrange(a, b).len() implies s.subrange(a, b)[m] != '\n' by {
        assert(s.subrange(a, b)[m] == s[a + m]);
        assert(s.contains(s[a + m]));
    }
}

proof fn lemma_push_plain(s: Seq<char>, c: char)
    requires
        !s.contains('\n'),
        c != '\n',
    ensures
        !s.push(c).contains('\n'),
{
    assert forall|m: int| 0 <= m < s.push(c).len() implies s.push(c)[m] != '\n' by {
        if m < s.len() {
            assert(s.push(c)[m] == s[m]);
            assert(s.contains(s[m]));
        }
    }
}

// ---------------------------------------------------------------------------
// Collapsing whitespace
proof fn lemma_collapse_from_props(t: Seq<char>, i: int, st: Collapse)
    requires
        0 <= i <= t.len(),
        !t.contains('\n'),
        !st.out.contains('\n'),
    ensures
        !collapse_from(t, i, st).contains('\n'),
        st.out.len() > 0 ==> collapse_from(t, i, st).len() > 0,
    decreases t.len() - i,
{
    if i < t.len() {
        let ch = t[i];
        assert(t.contains(t[i]));
        let n = collapse_step(st, ch);
        assert(!n.out.contains('\n') && (st.out.len() > 0 ==> n.out.len() > 0)) by {
            if st.quote is Some {
                lemma_push_plain(st.out, ch);
            } else if !is_ascii_ws(ch) {
                if st.pending_space {
                    lemma_push_plain(st.out, ' ');
                    lemma_push_plain(st.out.push(' '), ch);
                } else {
                    lemma_push_plain(st.out, ch);
                }
            }
        }
        lemma_collapse_from_props(t, i + 1, n);
    }
}

/// Collapsing the whitespace of a text without line breaks gives a text
/// without line breaks, non-empty when the text starts with a non-blank character.
pub proof fn lemma_collapse_plain(t: Seq<char>)
    requires
        !t.contains('\n'),
    ensures
        !collapse_whitespace(t).contains('\n'),
        t.len() > 0 && !is_unicode_ws(t[0]) ==> collapse_whitespace(t).len() > 0,
{
    let init = Collapse { out: Seq::empty(), quote: None, escaped: false, pending_space: false };
    assert(!init.out.contains('\n'));
    lemma_collapse_from_props(t, 0, init);
    if t.len() > 0 && !is_unicode_ws(t[0]) {
        assert(!is_ascii_ws(t[0]));
        let n = collapse_step(init, t[0]);
        assert(n.out.len() == 1);
        assert(t.contains(t[0]));
        lemma_push_plain(init.out, t[0]);
        lemma_collapse_from_props(t, 1, n);
        assert(collapse_whitespace(t) == collapse_from(t, 1, n));
    }
}

// ---------------------------------------------------------------------------
// Breaking lines before statement keywords
/// Before a statement keyword is moved to a new line, the text so far, without
/// its trailing spaces, still ends in a character of its last line.
proof fn lemma_split_point(out: Seq<char>, word: Seq<char>)
    requires
        splits_before_head(out, word),
        out.len() > 0 ==> out.last() != '\n',
    ensures
        strip_trailing_spaces(out).len() > 0,
        strip_trailing_spaces(out).last() != '\n',
{
    let a = after_last_newline_from(out, out.len() as int);
    lemma_after_last_newline_bounds(out, out.len() as int);
    if out.len() > 0 {
        assert(out[out.len() - 1] != '\n');
    }
    let ll = last_line(out);
    assert(ll =~= out.skip(a));
    let cl = trim_end(ll);
    lemma_trim_empty_iff(cl);
    assert(trim(cl).len() != 0);
    let k = choose|k: int| 0 <= k < cl.len() && !is_unicode_ws(#[trigger] cl[k]);
    crate::text::lemma_trim_ws_end_bounds(ll, ll.len() as int);
    assert(cl[k] == ll[k]);
    let p = a + k;
    assert(ll[k] == out[p]);
    let e = space_end_from(out, out.len() as int);
    lemma_space_end_bounds(out, out.len() as int);
    assert(p < e);
    assert(strip_trailing_spaces(out).last() == out[e - 1]);
}

proof fn lemma_split_heads_from_props(
    t: Seq<char>,
    i: int,
    out: Seq<char>,
    quote: Option<char>,
    escaped: bool,
    w: nat,
)
    requires
        0 <= i <= t.len(),
        !t.contains('\n'),
        breaks_separated(out),
        out.len() > 0 ==> out.last() != '\n',
    ensures
        breaks_separated(split_heads_from(t, i, out, quote, escaped, w)),
        (out.len() > 0 || i < t.len()) ==> closed_line(split_heads_from(t, i, out, quote, escaped, w)),
    decreases t.len() - i,
{
    if i < t.len() {
        let ch = t[i];
        assert(t.contains(t[i]));
        lemma_separated_push(out, ch);
        let pushed = out.push(ch);
        match quote {
            Some(q) => {
                let esc2 = if escaped { false } else if ch == '\\' { true } else { false };
                let q2 = if escaped { quote } else if ch == '\\' { quote } else if ch == q { None } else { quote };
                lemma_split_heads_from_props(t, i + 1, pushed, q2, esc2, w);
            },
            None => {
                if crate::spacing::is_quote_char(ch) {
                    lemma_split_heads_from_props(t, i + 1, pushed, Some(ch), escaped, w);
                } else if is_ascii_alpha(ch) {
                    let e = word_end_from(t, i);
                    lemma_word_end_bounds(t, i + 1);
                    assert(e == word_end_from(t, i + 1));
                    let word = t.subrange(i, e);
                    lemma_subrange_plain(t, i, e);
                    let split = i > 0 && is_ascii_ws(t[i - 1]) && crate::spacing::is_reserved_head(word)
                        && splits_before_head(out, word);
                    let out2 = if split {
                        strip_trailing_spaces(out).push('\n') + spaces(w)
                    } else {
                        out
                    };
                    if split {
                        lemma_split_point(out, word);
                        lemma_space_end_bounds(out, out.len() as int);
                        lemma_separated_take(out, space_end_from(out, out.len() as int));
                        lemma_separated_push(strip_trailing_spaces(out), '\n');
                        lemma_spaces_plain(w);
                        lemma_separated_append_plain(strip_trailing_spaces(out).push('\n'), spaces(w));
                    }
                    lemma_separated_append_plain(out2, word);
                    let o3 = out2 + word;
                    assert(o3.last() == word[word.len() - 1]);
                    assert(word.contains(word[word.len() - 1]));
                    lemma_split_heads_from_props(t, e, o3, None, escaped, w);
                } else {
                    lemma_split_heads_from_props(t, i + 1, pushed, None, escaped, w);
                }
            },
        }
    }
}

/// Lines taken out of the run of command names: one per line.
proof fn lemma_invocation_run_spaces(t: Seq<char>, i: int, at_start: bool, has_dash: bool)
    requires
        0 <= i <= t.len(),
        invocation_run_from(t, i, at_start, has_dash),
    ensures
        forall|p: int|
            #![trigger t[p]]
            i <= p < t.len() && t[p] == ' ' ==> (p > i || !at_start) && (p > i ==> t[p - 1] != ' '),
        i < t.len() ==> t.last() != ' ',
        i == t.len() ==> !at_start,
    decreases t.len() - i,
{
    if i < t.len() {
        let c = t[i];
        if c == ' ' {
            lemma_invocation_run_spaces(t, i + 1, true, false);
        } else if at_start {
            lemma_invocation_run_spaces(t, i + 1, false, false);
        } else {
            lemma_invocation_run_spaces(t, i + 1, false, has_dash || c == '-');
        }
    }
}

proof fn lemma_spread_props(t: Seq<char>, w: nat)
    requires
        !t.contains('\n'),
        forall|p: int| #![trigger t[p]] 0 <= p < t.len() && t[p] == ' ' ==> p > 0 && t[p - 1] != ' ',
    ensures
        breaks_separated(spread_invocations(t, w)),
        t.len() > 0 && t.last() != ' ' ==> spread_invocations(t, w).len() > 0
            && spread_invocations(t, w).last() == t.last(),
    decreases t.len(),
{
    if t.len() > 0 {
        let d = t.drop_last();
        assert forall|p: int| #![trigger d[p]] 0 <= p < d.len() && d[p] == ' ' implies p > 0 && d[p - 1] != ' ' by {
            assert(d[p] == t[p]);
            assert(d[p - 1] == t[p - 1]);
        }
        assert forall|m: int| 0 <= m < d.len() implies d[m] != '\n' by {
            assert(d[m] == t[m]);
            assert(t.contains(t[m]));
        }
        lemma_spread_props(d, w);
        let r = spread_invocations(d, w);
        assert(t.contains(t[t.len() - 1]));
        if t.last() == ' ' {
            assert(t[t.len() - 1] == ' ');
            assert(d.len() > 0 && d.last() == t[t.len() - 2]);
            lemma_separated_push(r, '\n');
            lemma_spaces_plain(w);
            lemma_separated_append_plain(r.push('\n'), spaces(w));
            assert(r + (seq!['\n'] + spaces(w)) =~= r.push('\n') + spaces(w));
        } else {
            lemma_separated_push(r, t.last());
            assert(r + seq![t.last()] =~= r.push(t.last()));
        }
    }
}

/// Breaking a text without line breaks before statement keywords gives a text
/// whose line breaks are kept apart, a closed line when the text is not empty.
pub proof fn lemma_split_heads_props(t: Seq<char>, w: nat)
    requires
        !t.contains('\n'),
    ensures
        breaks_separated(split_heads(t, w)),
        t.len() > 0 ==> closed_line(split_heads(t, w)),
        t.len() == 0 ==> split_heads(t, w).len() == 0,
{
    if t.len() == 0 {
        assert(!t.contains(' '));
    }
    if is_invocation_run(t) {
        lemma_invocation_run_spaces(t, 0, true, false);
        lemma_spread_props(t, w);
        if t.len() > 0 {
            assert(t.contains(t[t.len() - 1]));
        }
    } else {
        lemma_plain_separated(Seq::<char>::empty());
        lemma_split_heads_from_props(t, 0, Seq::empty(), None, false, w);
    }
}


// ---------------------------------------------------------------------------
// Putting separator spaces back
/// One step of restoring separators adds the character read, maybe followed
/// by a space, or puts a single space between the text (without its trailing
/// spaces) and the character read.
proof fn lemma_separators_step_shape(t: Seq<char>, i: int, st: Separators)
    requires
        0 <= i < t.len(),
    ensures
        ({
            let o = separators_step(t, i, st).out;
            ||| o == st.out.push(t[i])
            ||| o == st.out.push(t[i]).push(' ')
            ||| o == strip_trailing_spaces(st.out).push(' ').push(t[i])
        }),
{
}

proof fn lemma_separators_from_props(t: Seq<char>, i: int, st: Separators)
    requires
        0 <= i <= t.len(),
        breaks_separated(t),
        breaks_separated(st.out),
        i > 0 ==> st.out.len() > 0 && (st.out.last() == t[i - 1] || st.out.last() == ' '),
    ensures
        breaks_separated(separators_from(t, i, st)),
        t.len() > 0 && t.last() != '\n' ==> closed_line(separators_from(t, i, st)),
    decreases t.len() - i,
{
    if i < t.len() {
        let n = separators_step(t, i, st);
        let ch = t[i];
        lemma_separators_step_shape(t, i, st);
        if ch == '\n' {
            assert(i > 0 && t[i - 1] != '\n');
        }
        lemma_separated_push(st.out, ch);
        if n.out == st.out.push(ch).push(' ') {
            lemma_separated_push(st.out.push(ch), ' ');
        } else if n.out == strip_trailing_spaces(st.out).push(' ').push(ch) {
            lemma_space_end_bounds(st.out, st.out.len() as int);
            lemma_separated_take(st.out, space_end_from(st.out, st.out.len() as int));
            lemma_separated_push(strip_trailing_spaces(st.out), ' ');
            lemma_separated_push(strip_trailing_spaces(st.out).push(' '), ch);
        }
        lemma_separators_from_props(t, i + 1, n);
    } else if t.len() > 0 && t.last() != '\n' {
        assert(t[i - 1] == t.last());
    }
}

/// Restoring separator spaces keeps line breaks apart, and turns a closed line
/// into a closed line.
pub proof fn lemma_restore_separators_props(t: Seq<char>)
    requires
        breaks_separated(t),
    ensures
        breaks_separated(restore_separators(t)),
        closed_line(t) ==> closed_line(restore_separators(t)),
        t.len() == 0 ==> restore_separators(t).len() == 0,
{
    let init = Separators {
        out: Seq::empty(),
        quote: None,
        escaped: false,
        stack: Seq::empty(),
        in_signature: false,
    };
    lemma_plain_separated(init.out);
    lemma_separators_from_props(t, 0, init);
}


// ---------------------------------------------------------------------------
// Line breaks at the start of a text
/// A text made of line breaks only (the empty text among them).
pub open spec fn all_newlines(s: Seq<char>) -> bool {
    forall|j: int| 0 <= j < s.len() ==> s[j] == '\n'
}

pub proof fn lemma_leading_take(s: Seq<char>, k: int, n: int)
    requires
        0 <= k <= s.len(),
        !newline_run_at(s, 0, n),
    ensures
        !newline_run_at(s.take(k), 0, n),
{
    if newline_run_at(s.take(k), 0, n) {
        assert forall|j: int| 0 <= j < n implies s[j] == '\n' by {
            assert(s.take(k)[j] == s[j]);
        }
        assert(newline_run_at(s, 0, n));
    }
}

/// Text without line breaks added at the end makes no new leading run.
pub proof fn lemma_leading_append_plain(s: Seq<char>, x: Seq<char>, n: int)
    requires
        n >= 1,
        !newline_run_at(s, 0, n),
        !x.contains('\n'),
    ensures
        !newline_run_at(s + x, 0, n),
{
    let t = s + x;
    if newline_run_at(t, 0, n) {
        if n <= s.len() {
            assert forall|j: int| 0 <= j < n implies s[j] == '\n' by {
                assert(t[j] == s[j]);
            }
            assert(newline_run_at(s, 0, n));
        } else {
            assert(t[s.len() as int] == x[0]);
            assert(x.contains(x[0]));
        }
    }
}

/// A closed line added at the end makes no new leading run, and leaves a
/// text that is not all line breaks.
pub proof fn lemma_leading_append_closed(s: Seq<char>, x: Seq<char>, n: int)
    requires
        n >= 1,
        !newline_run_at(s, 0, n),
        closed_line(x),
    ensures
        !newline_run_at(s + x, 0, n),
        !all_newlines(s + x),
{
    let t = s + x;
    assert(x[0] != '\n');
    if newline_run_at(t, 0, n) {
        if n <= s.len() {
            assert forall|j: int| 0 <= j < n implies s[j] == '\n' by {
                assert(t[j] == s[j]);
            }
            assert(newline_run_at(s, 0, n));
        } else {
            assert(t[s.len() as int] == x[0]);
        }
    }
    assert(t[t.len() - 1] == x.last());
}

/// A line break after a text that does not end in one makes no new leading run.
pub proof fn lemma_leading_push_newline(s: Seq<char>, n: int)
    requires
        n >= 1,
        !newline_run_at(s, 0, n),
        !all_newlines(s),
    ensures
        !newline_run_at(s.push('\n'), 0, n),
        !all_newlines(s.push('\n')),
{
    let t = s.push('\n');
    let j0 = choose|j: int| 0 <= j < s.len() && s[j] != '\n';
    assert(t[j0] == s[j0]);
    if newline_run_at(t, 0, n) {
        if n <= s.len() {
            assert forall|j: int| 0 <= j < n implies s[j] == '\n' by {
                assert(t[j] == s[j]);
            }
            assert(newline_run_at(s, 0, n));
        } else {
            assert(t[j0] == '\n');
        }
    }
}

/// A line break after a text of at most `n - 2` line breaks makes no leading run of `n`.
pub proof fn lemma_leading_push_blank(s: Seq<char>, n: int)
    requires
        all_newlines(s),
        s.len() + 1 < n,
    ensures
        !newline_run_at(s.push('\n'), 0, n),
        all_newlines(s.push('\n')),
{
    let t = s.push('\n');
    assert forall|j: int| 0 <= j < t.len() implies t[j] == '\n' by {
        if j < s.len() {
            assert(t[j] == s[j]);
        }
    }
}


// ---------------------------------------------------------------------------
// Where statement keywords are moved to a new line
/// The line break at `p` is followed by `w` spaces and a statement keyword
/// that ends before `out.len()` in a character other than a space.
pub open spec fn break_before_head(out: Seq<char>, p: int, w: nat) -> bool {
    exists|e: int|
        p + 1 + w < e <= out.len() && out.subrange(p + 1, p + 1 + w) == spaces(w)
            && crate::spacing::is_reserved_head(#[trigger] out.subrange(p + 1 + w, e)) && out[e - 1] != ' '
}

/// Every line break of `out` comes before a statement keyword.
pub open spec fn breaks_before_heads(out: Seq<char>, w: nat) -> bool {
    forall|p: int| 0 <= p < out.len() && #[trigger] out[p] == '\n' ==> break_before_head(out, p, w)
}

proof fn lemma_break_kept_in_prefix(out: Seq<char>, k: int, p: int, w: nat)
    requires
        0 <= p < k <= out.len(),
        break_before_head(out, p, w),
        forall|j: int| k <= j < out.len() ==> out[j] == ' ',
    ensures
        break_before_head(out.take(k), p, w),
{
    let e = choose|e: int|
        p + 1 + w < e <= out.len() && out.subrange(p + 1, p + 1 + w) == spaces(w)
            && crate::spacing::is_reserved_head(#[trigger] out.subrange(p + 1 + w, e)) && out[e - 1] != ' ';
    assert(e <= k);
    let t = out.take(k);
    assert(t.subrange(p + 1, p + 1 + w) =~= out.subrange(p + 1, p + 1 + w));
    assert(t.subrange(p + 1 + w, e) =~= out.subrange(p + 1 + w, e));
    assert(t[e - 1] == out[e - 1]);
}

proof fn lemma_break_kept_in_extension(out: Seq<char>, x: Seq<char>, p: int, w: nat)
    requires
        0 <= p < out.len(),
        break_before_head(out, p, w),
    ensures
        break_before_head(out + x, p, w),
{
    let e = choose|e: int|
        p + 1 + w < e <= out.len() && out.subrange(p + 1, p + 1 + w) == spaces(w)
            && crate::spacing::is_reserved_head(#[trigger] out.subrange(p + 1 + w, e)) && out[e - 1] != ' ';
    let t = out + x;
    assert(t.subrange(p + 1, p + 1 + w) =~= out.subrange(p + 1, p + 1 + w));
    assert(t.subrange(p + 1 + w, e) =~= out.subrange(p + 1 + w, e));
    assert(t[e - 1] == out[e - 1]);
}

proof fn lemma_breaks_append_plain(out: Seq<char>, x: Seq<char>, w: nat)
    requires
        breaks_before_heads(out, w),
        !x.contains('\n'),
    ensures
        breaks_before_heads(out + x, w),
{
    let t = out + x;
    assert forall|p: int| 0 <= p < t.len() && #[trigger] t[p] == '\n' implies break_before_head(t, p, w) by {
        if p < out.len() {
            assert(out[p] == t[p]);
            lemma_break_kept_in_extension(out, x, p, w);
        } else {
            assert(t[p] == x[p - out.len()]);
            assert(x.contains(x[p - out.len()]));
        }
    }
}

proof fn lemma_split_heads_from_breaks(
    t: Seq<char>,
    i: int,
    out: Seq<char>,
    quote: Option<char>,
    escaped: bool,
    w: nat,
)
    requires
        0 <= i <= t.len(),
        !t.contains('\n'),
        breaks_before_heads(out, w),
    ensures
        breaks_before_heads(split_heads_from(t, i, out, quote, escaped, w), w),
    decreases t.len() - i,
{
    if i < t.len() {
        let ch = t[i];
        assert(t.contains(t[i]));
        lemma_push_plain(Seq::<char>::empty(), ch);
        assert(out.push(ch) =~= out + seq![ch]);
        assert(seq![ch] =~= Seq::<char>::empty().push(ch));
        lemma_breaks_append_plain(out, seq![ch], w);
        let pushed = out.push(ch);
        match quote {
            Some(q) => {
                let esc2 = if escaped { false } else if ch == '\\' { true } else { false };
                let q2 = if escaped { quote } else if ch == '\\' { quote } else if ch == q { None } else { quote };
                lemma_split_heads_from_breaks(t, i + 1, pushed, q2, esc2, w);
            },
            None => {
                if crate::spacing::is_quote_char(ch) {
                    lemma_split_heads_from_breaks(t, i + 1, pushed, Some(ch), escaped, w);
                } else if is_ascii_alpha(ch) {
                    let e = word_end_from(t, i);
                    lemma_word_end_bounds(t, i + 1);
                    assert(e == word_end_from(t, i + 1));
                    let word = t.subrange(i, e);
                    lemma_subrange_plain(t, i, e);
                    let split = i > 0 && is_ascii_ws(t[i - 1]) && crate::spacing::is_reserved_head(word)
                        && splits_before_head(out, word);
                    let out2 = if split {
                        strip_trailing_spaces(out).push('\n') + spaces(w)
                    } else {
                        out
                    };
                    assert(word[word.len() - 1] != ' ') by {
                        if e - 1 > i {
                            assert(word[word.len() - 1] == t[e - 1]);
                        }
                    }
                    if split {
                        lemma_space_end_bounds(out, out.len() as int);
                        let se = space_end_from(out, out.len() as int);
                        let so = strip_trailing_spaces(out);
                        assert(breaks_before_heads(so, w)) by {
                            assert forall|p: int| 0 <= p < so.len() && #[trigger] so[p] == '\n' implies break_before_head(so, p, w) by {
                                assert(out[p] == so[p]);
                                lemma_break_kept_in_prefix(out, se, p, w);
                            }
                        }
                        let o3 = out2 + word;
                        let p0 = so.len() as int;
                        lemma_spaces_plain(w);
                        assert forall|p: int| 0 <= p < o3.len() && #[trigger] o3[p] == '\n' implies break_before_head(o3, p, w) by {
                            if p < p0 {
                                assert(o3 == so + (seq!['\n'] + spaces(w) + word));
                                assert(o3[p] == so[p]);
                                lemma_break_kept_in_extension(so, seq!['\n'] + spaces(w) + word, p, w);
                            } else if p == p0 {
                                let e2 = p0 + 1 + w + word.len();
                                assert(o3.subrange(p0 + 1, p0 + 1 + w) =~= spaces(w));
                                assert(o3.subrange(p0 + 1 + w, e2) =~= word);
                                assert(o3[e2 - 1] == word[word.len() - 1]);
                            } else if p <= p0 + w {
                                assert(o3[p] == spaces(w)[p - p0 - 1]);
                            } else {
                                assert(o3[p] == word[p - p0 - 1 - w]);
                                assert(word.contains(word[p - p0 - 1 - w]));
                            }
                        }
                        lemma_split_heads_from_breaks(t, e, o3, None, escaped, w);
                    } else {
                        lemma_breaks_append_plain(out, word, w);
                        lemma_split_heads_from_breaks(t, e, out + word, None, escaped, w);
                    }
                } else {
                    lemma_split_heads_from_breaks(t, i + 1, pushed, None, escaped, w);
                }
            },
        }
    }
}

/// Outside a line made only of command names, breaking a line without line
/// breaks before statement keywords puts each line break right before
/// `w` spaces and a statement keyword.
pub proof fn lemma_split_heads_breaks(t: Seq<char>, w: nat)
    requires
        !t.contains('\n'),
        !is_invocation_run(t),
    ensures
        breaks_before_heads(split_heads(t, w), w),
{
    lemma_split_heads_from_breaks(t, 0, Seq::empty(), None, false, w);
}


} // verus!
