//! The visible characters of a text (those that are not whitespace), and the
//! passes over a line that keep them: the formatter moves whitespace around
//! and nothing else.
use vstd::prelude::*;

use crate::spacing::{
    Collapse, Separators, collapse_from, collapse_step, collapse_whitespace, is_invocation_run,
    lemma_space_end_bounds, lemma_word_end_bounds, restore_separators, separators_from,
    separators_step, space_end_from, split_heads, split_heads_from, splits_before_head,
    spread_invocations, strip_trailing_spaces, word_end_from,
};
use crate::formatter::{crlf_to_lf, is_connector, layout_tokens_from, space_before, token_chars};
use crate::line_formatter::{Spacing, inline_spacing, spacing_from, with_pending_space};
use crate::nushell::{LexToken, TokenKind};
use crate::text::{
    is_ascii_alpha, is_ascii_ws, is_unicode_ws, lemma_skip_ws_bounds, lemma_trim_ws_end_bounds,
    skip_ws_from, spaces, trim_end, trim_start, trim_ws_end_from,
};

verus! {

/// The characters of a text that are not Unicode whitespace, in order.
pub open spec fn visible(s: Seq<char>) -> Seq<char>
    decreases s.len(),
{
    if s.len() == 0 {
        Seq::empty()
    } else {
        visible(s.drop_last()) + if is_unicode_ws(s.last()) {
            Seq::empty()
        } else {
            seq![s.last()]
        }
    }
}

/// A text made of whitespace only.
pub open spec fn all_blank(s: Seq<char>) -> bool {
    forall|k: int| 0 <= k < s.len() ==> is_unicode_ws(#[trigger] s[k])
}

pub proof fn lemma_visible_push(s: Seq<char>, c: char)
    ensures
        visible(s.push(c)) == visible(s) + if is_unicode_ws(c) {
            Seq::empty()
        } else {
            seq![c]
        },
{
    assert(s.push(c).drop_last() =~= s);
}

pub proof fn lemma_visible_append(a: Seq<char>, b: Seq<char>)
    ensures
        visible(a + b) == visible(a) + visible(b),
    decreases b.len(),
{
    if b.len() == 0 {
        assert(a + b =~= a);
        assert(visible(a) + visible(b) =~= visible(a));
    } else {
        let d = b.drop_last();
        lemma_visible_append(a, d);
        assert((a + b).drop_last() =~= a + d);
        assert((a + b).last() == b.last());
        assert(visible(a + b) =~= visible(a) + visible(b));
    }
}

pub proof fn lemma_visible_blank(s: Seq<char>)
    requires
        all_blank(s),
    ensures
        visible(s) == Seq::<char>::empty(),
    decreases s.len(),
{
    if s.len() > 0 {
        let d = s.drop_last();
        assert forall|k: int| 0 <= k < d.len() implies is_unicode_ws(#[trigger] d[k]) by {
            assert(d[k] == s[k]);
        }
        lemma_visible_blank(d);
        assert(is_unicode_ws(s[s.len() - 1]));
        assert(visible(s) =~= Seq::<char>::empty());
    }
}

pub proof fn lemma_visible_spaces(n: nat)
    ensures
        visible(spaces(n)) == Seq::<char>::empty(),
{
    assert forall|k: int| 0 <= k < spaces(n).len() implies is_unicode_ws(#[trigger] spaces(n)[k]) by {}
    lemma_visible_blank(spaces(n));
}

/// Splitting a text at `k` splits its visible characters there.
pub proof fn lemma_visible_split(s: Seq<char>, k: int)
    requires
        0 <= k <= s.len(),
    ensures
        visible(s) == visible(s.take(k)) + visible(s.skip(k)),
{
    assert(s =~= s.take(k) + s.skip(k));
    lemma_visible_append(s.take(k), s.skip(k));
}

/// Dropping whitespace at the end keeps the visible characters.
pub proof fn lemma_visible_drop_blank_end(s: Seq<char>, k: int)
    requires
        0 <= k <= s.len(),
        forall|j: int| k <= j < s.len() ==> is_unicode_ws(#[trigger] s[j]),
    ensures
        visible(s.take(k)) == visible(s),
{
    lemma_visible_split(s, k);
    let r = s.skip(k);
    assert forall|j: int| 0 <= j < r.len() implies is_unicode_ws(#[trigger] r[j]) by {
        assert(r[j] == s[k + j]);
    }
    lemma_visible_blank(r);
    assert(visible(s.take(k)) + Seq::<char>::empty() =~= visible(s.take(k)));
}

pub proof fn lemma_visible_strip(s: Seq<char>)
    ensures
        visible(strip_trailing_spaces(s)) == visible(s),
{
    lemma_space_end_bounds(s, s.len() as int);
    let e = space_end_from(s, s.len() as int);
    assert forall|j: int| e <= j < s.len() implies is_unicode_ws(#[trigger] s[j]) by {
        assert(s[j] == ' ');
    }
    lemma_visible_drop_blank_end(s, e);
}

pub proof fn lemma_visible_trim_end(s: Seq<char>)
    ensures
        visible(trim_end(s)) == visible(s),
{
    lemma_trim_ws_end_bounds(s, s.len() as int);
    lemma_visible_drop_blank_end(s, trim_ws_end_from(s, s.len() as int));
}

pub proof fn lemma_visible_trim_start(s: Seq<char>)
    ensures
        visible(trim_start(s)) == visible(s),
{
    lemma_skip_ws_bounds(s, 0);
    let k = skip_ws_from(s, 0);
    lemma_visible_split(s, k);
    let h = s.take(k);
    assert forall|j: int| 0 <= j < h.len() implies is_unicode_ws(#[trigger] h[j]) by {
        assert(h[j] == s[j]);
    }
    lemma_visible_blank(h);
    assert(Seq::<char>::empty() + visible(s.skip(k)) =~= visible(s.skip(k)));
}

/// The visible characters of `t.skip(i)`: the one at `i`, if visible, then those after it.
pub proof fn lemma_visible_skip_step(t: Seq<char>, i: int)
    requires
        0 <= i < t.len(),
    ensures
        visible(t.skip(i)) == (if is_unicode_ws(t[i]) {
            Seq::empty()
        } else {
            seq![t[i]]
        }) + visible(t.skip(i + 1)),
{
    let r = t.skip(i);
    assert(r.take(1) =~= seq![t[i]]);
    assert(r.skip(1) =~= t.skip(i + 1));
    lemma_visible_split(r, 1);
    assert(seq![t[i]] =~= Seq::<char>::empty().push(t[i]));
    lemma_visible_push(Seq::<char>::empty(), t[i]);
    assert(visible(Seq::<char>::empty()) =~= Seq::<char>::empty());
}

proof fn lemma_visible_unit(c: char)
    ensures
        visible(seq![c]) == if is_unicode_ws(c) {
            Seq::<char>::empty()
        } else {
            seq![c]
        },
{
    assert(seq![c] =~= Seq::<char>::empty().push(c));
    lemma_visible_push(Seq::<char>::empty(), c);
    assert(visible(Seq::<char>::empty()) =~= Seq::<char>::empty());
    assert(Seq::<char>::empty() + seq![c] =~= seq![c]);
    assert(Seq::<char>::empty() + Seq::<char>::empty() =~= Seq::<char>::empty());
}

// ---------------------------------------------------------------------------
// Collapsing whitespace
proof fn lemma_visible_collapse_from(t: Seq<char>, i: int, st: Collapse)
    requires
        0 <= i <= t.len(),
    ensures
        visible(collapse_from(t, i, st)) == visible(st.out) + visible(t.skip(i)),
    decreases t.len() - i,
{
    if i < t.len() {
        let ch = t[i];
        let n = collapse_step(st, ch);
        lemma_visible_skip_step(t, i);
        lemma_visible_push(st.out, ch);
        lemma_visible_push(st.out, ' ');
        lemma_visible_push(st.out.push(' '), ch);
        assert(visible(n.out) == visible(st.out) + if is_unicode_ws(ch) {
            Seq::<char>::empty()
        } else {
            seq![ch]
        }) by {
            if st.quote is None && is_ascii_ws(ch) {
                assert(visible(st.out) + Seq::<char>::empty() =~= visible(st.out));
            } else if st.quote is None && st.pending_space {
                assert(visible(st.out) + Seq::<char>::empty() =~= visible(st.out));
            }
        }
        lemma_visible_collapse_from(t, i + 1, n);
        assert(visible(collapse_from(t, i, st)) =~= visible(st.out) + visible(t.skip(i)));
    } else {
        assert(t.skip(i) =~= Seq::<char>::empty());
        assert(visible(st.out) + visible(t.skip(i)) =~= visible(st.out));
    }
}

/// Collapsing whitespace keeps the visible characters.
pub proof fn lemma_visible_collapse(t: Seq<char>)
    ensures
        visible(collapse_whitespace(t)) == visible(t),
{
    let init = Collapse { out: Seq::empty(), quote: None, escaped: false, pending_space: false };
    lemma_visible_collapse_from(t, 0, init);
    assert(t.skip(0) =~= t);
    assert(visible(init.out) =~= Seq::<char>::empty());
    assert(Seq::<char>::empty() + visible(t) =~= visible(t));
}

// ---------------------------------------------------------------------------
// Breaking lines before statement keywords
proof fn lemma_visible_split_heads_from(
    t: Seq<char>,
    i: int,
    out: Seq<char>,
    quote: Option<char>,
    escaped: bool,
    w: nat,
)
    requires
        0 <= i <= t.len(),
    ensures
        visible(split_heads_from(t, i, out, quote, escaped, w)) == visible(out) + visible(t.skip(i)),
    decreases t.len() - i,
{
    if i < t.len() {
        let ch = t[i];
        lemma_visible_skip_step(t, i);
        lemma_visible_push(out, ch);
        let pushed = out.push(ch);
        let goal = visible(out) + visible(t.skip(i));
        match quote {
            Some(q) => {
                let esc2 = if escaped { false } else if ch == '\\' { true } else { false };
                let q2 = if escaped { quote } else if ch == '\\' { quote } else if ch == q { None } else { quote };
                lemma_visible_split_heads_from(t, i + 1, pushed, q2, esc2, w);
                assert(visible(pushed) + visible(t.skip(i + 1)) =~= goal);
            },
            None => {
                if crate::spacing::is_quote_char(ch) {
                    lemma_visible_split_heads_from(t, i + 1, pushed, Some(ch), escaped, w);
                    assert(visible(pushed) + visible(t.skip(i + 1)) =~= goal);
                } else if is_ascii_alpha(ch) {
                    let e = word_end_from(t, i);
                    lemma_word_end_bounds(t, i + 1);
                    assert(e == word_end_from(t, i + 1));
                    let word = t.subrange(i, e);
                    let split = i > 0 && is_ascii_ws(t[i - 1]) && crate::spacing::is_reserved_head(word)
                        && splits_before_head(out, word);
                    let out2 = if split {
                        strip_trailing_spaces(out).push('\n') + spaces(w)
                    } else {
                        out
                    };
                    assert(visible(out2) == visible(out)) by {
                        if split {
                            lemma_visible_strip(out);
                            lemma_visible_push(strip_trailing_spaces(out), '\n');
                            lemma_visible_spaces(w);
                            lemma_visible_append(strip_trailing_spaces(out).push('\n'), spaces(w));
                            assert(visible(strip_trailing_spaces(out)) + Seq::<char>::empty()
                                =~= visible(strip_trailing_spaces(out)));
                        }
                    }
                    lemma_visible_append(out2, word);
                    let r = t.skip(i);
                    lemma_visible_split(r, e - i);
                    assert(r.take(e - i) =~= word);
                    assert(r.skip(e - i) =~= t.skip(e));
                    lemma_visible_split_heads_from(t, e, out2 + word, None, escaped, w);
                    assert(visible(out2 + word) + visible(t.skip(e)) =~= goal);
                } else {
                    lemma_visible_split_heads_from(t, i + 1, pushed, None, escaped, w);
                    assert(visible(pushed) + visible(t.skip(i + 1)) =~= goal);
                }
            },
        }
    } else {
        assert(t.skip(i) =~= Seq::<char>::empty());
        assert(visible(out) + visible(t.skip(i)) =~= visible(out));
    }
}

proof fn lemma_visible_spread(t: Seq<char>, w: nat)
    ensures
        visible(spread_invocations(t, w)) == visible(t),
    decreases t.len(),
{
    if t.len() > 0 {
        let d = t.drop_last();
        lemma_visible_spread(d, w);
        let piece = if t.last() == ' ' {
            seq!['\n'] + spaces(w)
        } else {
            seq![t.last()]
        };
        lemma_visible_append(spread_invocations(d, w), piece);
        lemma_visible_unit(t.last());
        if t.last() == ' ' {
            lemma_visible_unit('\n');
            lemma_visible_spaces(w);
            lemma_visible_append(seq!['\n'], spaces(w));
        }
        assert(visible(spread_invocations(t, w)) =~= visible(t));
    }
}

/// Breaking a line before statement keywords keeps the visible characters.
pub proof fn lemma_visible_split_heads(t: Seq<char>, w: nat)
    ensures
        visible(split_heads(t, w)) == visible(t),
{
    if is_invocation_run(t) {
        lemma_visible_spread(t, w);
    } else {
        lemma_visible_split_heads_from(t, 0, Seq::empty(), None, false, w);
        assert(t.skip(0) =~= t);
        assert(visible(Seq::<char>::empty()) =~= Seq::<char>::empty());
        assert(Seq::<char>::empty() + visible(t) =~= visible(t));
    }
}

// ---------------------------------------------------------------------------
// Putting separator spaces back
proof fn lemma_visible_separators_from(t: Seq<char>, i: int, st: Separators)
    requires
        0 <= i <= t.len(),
    ensures
        visible(separators_from(t, i, st)) == visible(st.out) + visible(t.skip(i)),
    decreases t.len() - i,
{
    if i < t.len() {
        let ch = t[i];
        let n = separators_step(t, i, st);
        lemma_visible_skip_step(t, i);
        let unit = if is_unicode_ws(ch) {
            Seq::<char>::empty()
        } else {
            seq![ch]
        };
        lemma_visible_push(st.out, ch);
        lemma_visible_push(st.out.push(ch), ' ');
        lemma_visible_strip(st.out);
        lemma_visible_push(strip_trailing_spaces(st.out), ' ');
        lemma_visible_push(strip_trailing_spaces(st.out).push(' '), ch);
        assert(visible(n.out) =~= visible(st.out) + unit);
        lemma_visible_separators_from(t, i + 1, n);
        assert(visible(separators_from(t, i, st)) =~= visible(st.out) + visible(t.skip(i)));
    } else {
        assert(t.skip(i) =~= Seq::<char>::empty());
        assert(visible(st.out) + visible(t.skip(i)) =~= visible(st.out));
    }
}

/// Putting separator spaces back keeps the visible characters.
pub proof fn lemma_visible_restore(t: Seq<char>)
    ensures
        visible(restore_separators(t)) == visible(t),
{
    let init = Separators {
        out: Seq::empty(),
        quote: None,
        escaped: false,
        stack: Seq::empty(),
        in_signature: false,
    };
    lemma_visible_separators_from(t, 0, init);
    assert(t.skip(0) =~= t);
    assert(visible(Seq::<char>::empty()) =~= Seq::<char>::empty());
    assert(Seq::<char>::empty() + visible(t) =~= visible(t));
}


// ---------------------------------------------------------------------------
// Line breaks and tokens
/// Writing `\r\n` as `\n` keeps the visible characters.
pub proof fn lemma_visible_crlf_to_lf(s: Seq<char>)
    ensures
        visible(crlf_to_lf(s)) == visible(s),
    decreases s.len(),
{
    if s.len() > 0 {
        if s.len() >= 2 && s[0] == '\r' && s[1] == '\n' {
            lemma_visible_crlf_to_lf(s.skip(2));
            lemma_visible_unit('\n');
            lemma_visible_append(seq!['\n'], crlf_to_lf(s.skip(2)));
            lemma_visible_skip_step(s, 0);
            lemma_visible_skip_step(s, 1);
            assert(s.skip(0) =~= s);
            assert(visible(crlf_to_lf(s)) =~= visible(s));
        } else {
            lemma_visible_crlf_to_lf(s.skip(1));
            lemma_visible_unit(s[0]);
            lemma_visible_append(seq![s[0]], crlf_to_lf(s.skip(1)));
            lemma_visible_skip_step(s, 0);
            assert(s.skip(0) =~= s);
            assert(visible(crlf_to_lf(s)) =~= visible(s));
        }
    }
}

/// The visible characters of the tokens `k..`, one token after another.
pub open spec fn tokens_visible(src: Seq<char>, tokens: Seq<LexToken>, k: int) -> Seq<char>
    decreases tokens.len() - k,
{
    if k < 0 || k >= tokens.len() {
        Seq::empty()
    } else {
        visible(token_chars(src, tokens[k])) + tokens_visible(src, tokens, k + 1)
    }
}

/// Laying tokens out keeps their visible characters, when no comment is
/// followed by another token.
pub proof fn lemma_visible_layout_tokens(
    src: Seq<char>,
    tokens: Seq<LexToken>,
    k: int,
    out: Seq<char>,
    prev_kind: Option<TokenKind>,
)
    requires
        0 <= k,
        forall|m: int| k <= m < tokens.len() - 1 ==> (#[trigger] tokens[m]).kind != TokenKind::Comment,
    ensures
        visible(layout_tokens_from(src, tokens, k, out, prev_kind)) == visible(out) + tokens_visible(
            src,
            tokens,
            k,
        ),
    decreases tokens.len() - k,
{
    if k < tokens.len() {
        let token = tokens[k];
        let raw = token_chars(src, token);
        lemma_visible_collapse(raw);
        let text = if token.kind == TokenKind::Item {
            collapse_whitespace(raw)
        } else {
            raw
        };
        assert(visible(text) == visible(raw));
        let has_next = k + 1 < tokens.len();
        let so = strip_trailing_spaces(out);
        lemma_visible_strip(out);
        lemma_visible_push(so, ' ');
        let sp = visible(so.push(' '));
        assert(sp =~= visible(out)) by {
            assert(visible(so) + Seq::<char>::empty() =~= visible(so));
        }
        if token.kind == TokenKind::Comment {
            assert(k == tokens.len() - 1);
            assert(tokens_visible(src, tokens, k + 1) =~= Seq::<char>::empty());
            lemma_visible_trim_start(text);
            if out.len() == 0 {
                assert(visible(out) =~= Seq::<char>::empty());
                assert(visible(out) + (visible(raw) + Seq::<char>::empty()) =~= visible(raw));
            } else {
                lemma_visible_append(so.push(' '), trim_start(text));
                assert(visible(out) + (visible(raw) + Seq::<char>::empty()) =~= visible(out) + visible(raw));
            }
        } else {
            let o2 = if is_connector(token.kind) {
                let o = if so.len() > 0 {
                    so.push(' ')
                } else {
                    so
                };
                let o = o + text;
                if has_next {
                    o.push(' ')
                } else {
                    o
                }
            } else if token.kind == TokenKind::Semicolon {
                let o = so + text;
                if has_next {
                    o.push(' ')
                } else {
                    o
                }
            } else {
                let o = if space_before(prev_kind, token.kind, out) {
                    out.push(' ')
                } else {
                    out
                };
                o + text
            };
            assert(visible(o2) == visible(out) + visible(raw)) by {
                lemma_visible_push(out, ' ');
                assert(visible(out) + Seq::<char>::empty() =~= visible(out));
                lemma_visible_append(so.push(' '), text);
                lemma_visible_append(so, text);
                lemma_visible_append(out.push(' '), text);
                lemma_visible_append(out, text);
                lemma_visible_push(so.push(' ') + text, ' ');
                lemma_visible_push(so + text, ' ');
                assert(visible(so.push(' ') + text) + Seq::<char>::empty() =~= visible(so.push(' ') + text));
                assert(visible(so + text) + Seq::<char>::empty() =~= visible(so + text));
            }
            lemma_visible_layout_tokens(src, tokens, k + 1, o2, Some(token.kind));
            assert(visible(o2) + tokens_visible(src, tokens, k + 1) =~= visible(out) + tokens_visible(
                src,
                tokens,
                k,
            ));
        }
    } else {
        assert(visible(out) + tokens_visible(src, tokens, k) =~= visible(out));
    }
}


// ---------------------------------------------------------------------------
// The spacing of the line-oriented formatter
proof fn lemma_visible_spacing_from(t: Seq<char>, i: int, st: Spacing)
    requires
        0 <= i <= t.len(),
    ensures
        visible(spacing_from(t, i, st)) == visible(st.out) + visible(t.skip(i)),
    decreases t.len() - i,
{
    if i < t.len() {
        let ch = t[i];
        let quoted = st.in_single || st.in_double;
        let more = i + 1 < t.len();
        let o = st.out;
        let unit = if is_unicode_ws(ch) {
            Seq::<char>::empty()
        } else {
            seq![ch]
        };
        lemma_visible_skip_step(t, i);
        let goal = visible(o) + visible(t.skip(i));
        assert(goal =~= visible(o) + unit + visible(t.skip(i + 1)));
        let wp = with_pending_space(st);
        lemma_visible_push(o, ' ');
        assert(visible(wp) == visible(o)) by {
            assert(visible(o) + Seq::<char>::empty() =~= visible(o));
        }
        lemma_visible_push(o, ch);
        lemma_visible_push(wp, ch);
        let so = strip_trailing_spaces(o);
        lemma_visible_strip(o);
        lemma_visible_push(so, ' ');
        assert(visible(so.push(' ')) == visible(o)) by {
            assert(visible(so) + Seq::<char>::empty() =~= visible(so));
        }
        if st.escaped {
            let n = Spacing { out: o.push(ch), escaped: false, ..st };
            lemma_visible_spacing_from(t, i + 1, n);
        } else if ch == '\\' && quoted {
            let n = Spacing { out: o.push(ch), escaped: true, ..st };
            lemma_visible_spacing_from(t, i + 1, n);
        } else if ch == '\'' && !st.in_double {
            let n = Spacing { out: wp.push(ch), in_single: !st.in_single, saw_space: false, ..st };
            lemma_visible_spacing_from(t, i + 1, n);
        } else if ch == '"' && !st.in_single {
            let n = Spacing { out: wp.push(ch), in_double: !st.in_double, saw_space: false, ..st };
            lemma_visible_spacing_from(t, i + 1, n);
        } else if ch == '#' && !quoted {
            let o1 = if o.len() > 0 && !crate::text::ends_with_char(o, ' ') {
                o.push(' ')
            } else {
                o
            };
            assert(visible(o1) == visible(o)) by {
                assert(visible(o) + Seq::<char>::empty() =~= visible(o));
            }
            lemma_visible_push(o1, '#');
            let rest = trim_start(t.skip(i + 1));
            lemma_visible_trim_start(t.skip(i + 1));
            lemma_visible_append(o1.push('#'), rest);
            assert(spacing_from(t, i, st) == o1.push('#') + rest);
        } else if (ch == ' ' || ch == '\t') && !quoted {
            let n = Spacing {
                saw_space: if o.len() > 0 && !crate::text::ends_with_char(o, ' ') {
                    true
                } else {
                    st.saw_space
                },
                ..st
            };
            lemma_visible_spacing_from(t, i + 1, n);
            assert(visible(o) + Seq::<char>::empty() =~= visible(o));
        } else if ch == '|' && !quoted {
            let o1 = if so.len() > 0 {
                so.push(' ')
            } else {
                so
            };
            let o2 = o1.push('|');
            let o3 = if more {
                o2.push(' ')
            } else {
                o2
            };
            lemma_visible_push(o1, '|');
            lemma_visible_push(o2, ' ');
            assert(visible(o3) =~= visible(o) + unit) by {
                assert(visible(o2) + Seq::<char>::empty() =~= visible(o2));
            }
            lemma_visible_spacing_from(t, i + 1, Spacing { out: o3, saw_space: false, ..st });
        } else if ch == ',' && !quoted {
            let o2 = so.push(',');
            let o3 = if more {
                o2.push(' ')
            } else {
                o2
            };
            lemma_visible_push(so, ',');
            lemma_visible_push(o2, ' ');
            assert(visible(o3) =~= visible(o) + unit) by {
                assert(visible(o2) + Seq::<char>::empty() =~= visible(o2));
            }
            lemma_visible_spacing_from(t, i + 1, Spacing { out: o3, saw_space: false, ..st });
        } else {
            lemma_visible_spacing_from(t, i + 1, Spacing { out: wp.push(ch), saw_space: false, ..st });
        }
    } else {
        assert(t.skip(i) =~= Seq::<char>::empty());
        assert(visible(st.out) + visible(t.skip(i)) =~= visible(st.out));
    }
}

/// The spacing of a line keeps its visible characters.
pub proof fn lemma_visible_inline_spacing(content: Seq<char>)
    ensures
        visible(inline_spacing(content)) == visible(content),
{
    let st = Spacing { out: Seq::empty(), in_single: false, in_double: false, escaped: false, saw_space: false };
    lemma_visible_spacing_from(content, 0, st);
    lemma_visible_strip(spacing_from(content, 0, st));
    assert(content.skip(0) =~= content);
    assert(visible(Seq::<char>::empty()) =~= Seq::<char>::empty());
    assert(Seq::<char>::empty() + visible(content) =~= visible(content));
}


// ---------------------------------------------------------------------------
// Spaces only
/// The characters of a text other than `' '`, in order.
pub open spec fn without_spaces(s: Seq<char>) -> Seq<char>
    decreases s.len(),
{
    if s.len() == 0 {
        Seq::empty()
    } else {
        without_spaces(s.drop_last()) + if s.last() == ' ' {
            Seq::empty()
        } else {
            seq![s.last()]
        }
    }
}

proof fn lemma_without_spaces_push(s: Seq<char>, c: char)
    ensures
        without_spaces(s.push(c)) == without_spaces(s) + if c == ' ' {
            Seq::empty()
        } else {
            seq![c]
        },
{
    assert(s.push(c).drop_last() =~= s);
}

proof fn lemma_without_spaces_strip(s: Seq<char>)
    ensures
        without_spaces(strip_trailing_spaces(s)) == without_spaces(s),
    decreases s.len(),
{
    lemma_space_end_bounds(s, s.len() as int);
    if s.len() > 0 && s.last() == ' ' {
        let d = s.drop_last();
        lemma_without_spaces_strip(d);
        assert(space_end_from(s, s.len() as int) == space_end_from(d, d.len() as int)) by {
            assert(space_end_from(s, s.len() as int) == space_end_from(s, s.len() - 1));
            lemma_space_end_agree(s, d, d.len() as int);
        }
        lemma_space_end_bounds(d, d.len() as int);
        assert(strip_trailing_spaces(s) =~= strip_trailing_spaces(d));
        assert(without_spaces(s) =~= without_spaces(d));
    } else {
        assert(s.take(s.len() as int) =~= s);
    }
}

proof fn lemma_space_end_agree(s: Seq<char>, d: Seq<char>, j: int)
    requires
        s.len() > 0,
        d == s.drop_last(),
        0 <= j <= d.len(),
    ensures
        space_end_from(s, j) == space_end_from(d, j),
    decreases j,
{
    if j > 0 {
        assert(s[j - 1] == d[j - 1]);
        lemma_space_end_agree(s, d, j - 1);
    }
}

proof fn lemma_without_spaces_append(a: Seq<char>, b: Seq<char>)
    ensures
        without_spaces(a + b) == without_spaces(a) + without_spaces(b),
    decreases b.len(),
{
    if b.len() == 0 {
        assert(a + b =~= a);
        assert(without_spaces(a) + without_spaces(b) =~= without_spaces(a));
    } else {
        let d = b.drop_last();
        lemma_without_spaces_append(a, d);
        assert((a + b).drop_last() =~= a + d);
        assert((a + b).last() == b.last());
        assert(without_spaces(a + b) =~= without_spaces(a) + without_spaces(b));
    }
}

proof fn lemma_without_spaces_skip_step(t: Seq<char>, i: int)
    requires
        0 <= i < t.len(),
    ensures
        without_spaces(t.skip(i)) == (if t[i] == ' ' {
            Seq::empty()
        } else {
            seq![t[i]]
        }) + without_spaces(t.skip(i + 1)),
{
    let r = t.skip(i);
    assert(r =~= seq![t[i]] + t.skip(i + 1));
    lemma_without_spaces_append(seq![t[i]], t.skip(i + 1));
    assert(seq![t[i]] =~= Seq::<char>::empty().push(t[i]));
    lemma_without_spaces_push(Seq::<char>::empty(), t[i]);
    assert(without_spaces(Seq::<char>::empty()) =~= Seq::<char>::empty());
    assert(Seq::<char>::empty() + Seq::<char>::empty() =~= Seq::<char>::empty());
    assert(Seq::<char>::empty() + seq![t[i]] =~= seq![t[i]]);
}

proof fn lemma_without_spaces_separators_from(t: Seq<char>, i: int, st: Separators)
    requires
        0 <= i <= t.len(),
    ensures
        without_spaces(separators_from(t, i, st)) == without_spaces(st.out) + without_spaces(t.skip(i)),
    decreases t.len() - i,
{
    if i < t.len() {
        let ch = t[i];
        let n = separators_step(t, i, st);
        lemma_without_spaces_skip_step(t, i);
        let unit = if ch == ' ' {
            Seq::<char>::empty()
        } else {
            seq![ch]
        };
        lemma_without_spaces_push(st.out, ch);
        lemma_without_spaces_push(st.out.push(ch), ' ');
        lemma_without_spaces_strip(st.out);
        lemma_without_spaces_push(strip_trailing_spaces(st.out), ' ');
        lemma_without_spaces_push(strip_trailing_spaces(st.out).push(' '), ch);
        assert(without_spaces(n.out) =~= without_spaces(st.out) + unit);
        lemma_without_spaces_separators_from(t, i + 1, n);
        assert(without_spaces(separators_from(t, i, st)) =~= without_spaces(st.out) + without_spaces(t.skip(i)));
    } else {
        assert(t.skip(i) =~= Seq::<char>::empty());
        assert(without_spaces(st.out) + without_spaces(t.skip(i)) =~= without_spaces(st.out));
    }
}

/// Putting separator spaces back inserts or drops spaces and nothing else.
pub proof fn lemma_restore_only_spaces(t: Seq<char>)
    ensures
        without_spaces(restore_separators(t)) == without_spaces(t),
{
    let init = Separators {
        out: Seq::empty(),
        quote: None,
        escaped: false,
        stack: Seq::empty(),
        in_signature: false,
    };
    lemma_without_spaces_separators_from(t, 0, init);
    assert(t.skip(0) =~= t);
    assert(without_spaces(Seq::<char>::empty()) =~= Seq::<char>::empty());
    assert(Seq::<char>::empty() + without_spaces(t) =~= without_spaces(t));
}


} // verus!
