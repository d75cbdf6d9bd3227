//! The source split into lines, and what the formatter reads off whole lines:
//! which lines lie inside multiline strings, which belong to long multiline
//! lists or grouped expressions that are kept as written, and the indentation
//! and neighbours of a line.
use vstd::prelude::*;

use crate::text::{
    byte_len, char_byte_width, chars_of, ends_with_char, ends_with_text, first_is, is_ascii_ws,
    is_unicode_ws, lemma_byte_len_take_le,
    last_is, lemma_byte_len_bounds, lemma_byte_len_take_step, starts_with_char, text_eq, trim,
    trim_chars,
};

verus! {

/// A line of the source: its characters `text_start..text_end` (without the
/// line break), their byte range `start..end`, and whether a line break follows.
#[derive(Clone, Copy, Debug, PartialEq, Eq, Structural)]
pub struct SourceLine {
    pub text_start: usize,
    pub text_end: usize,
    pub start: usize,
    pub end: usize,
    pub has_newline: bool,
}

/// The characters of a line.
pub open spec fn line_text(src: Seq<char>, line: SourceLine) -> Seq<char> {
    src.subrange(line.text_start as int, line.text_end as int)
}

/// Every line lies inside the source.
pub open spec fn lines_wf(src: Seq<char>, lines: Seq<SourceLine>) -> bool {
    forall|k: int|
        #![trigger lines[k]]
        0 <= k < lines.len() ==> lines[k].text_start <= lines[k].text_end <= src.len()
}

/// Index of the first line break at or after `i`, or the end of the text.
pub open spec fn line_end_from(s: Seq<char>, i: int) -> int
    decreases s.len() - i,
{
    if 0 <= i < s.len() && s[i] != '\n' {
        line_end_from(s, i + 1)
    } else {
        i
    }
}

pub proof fn lemma_line_end_bounds(s: Seq<char>, i: int)
    requires
        0 <= i <= s.len(),
    ensures
        i <= line_end_from(s, i) <= s.len(),
        line_end_from(s, i) < s.len() ==> s[line_end_from(s, i)] == '\n',
        forall|j: int| i <= j < line_end_from(s, i) ==> s[j] != '\n',
    decreases s.len() - i,
{
    if i < s.len() && s[i] != '\n' {
        lemma_line_end_bounds(s, i + 1);
    }
}

/// The lines of `s` from character `i` on, as `str::split_inclusive('\n')` cuts them.
pub open spec fn lines_from(s: Seq<char>, i: int) -> Seq<SourceLine>
    decreases s.len() - i,
{
    if i < 0 || i >= s.len() {
        Seq::empty()
    } else {
        let e = line_end_from(s, i);
        let has_newline = e < s.len();
        let next = if has_newline {
            e + 1
        } else {
            s.len() as int
        };
        proof {
            lemma_line_end_bounds(s, i);
        }
        seq![
            SourceLine {
                text_start: i as usize,
                text_end: e as usize,
                start: byte_len(s.take(i)) as usize,
                end: byte_len(s.take(e)) as usize,
                has_newline,
            },
        ] + lines_from(s, next)
    }
}

/// The lines of a source text.
pub open spec fn source_lines_of(s: Seq<char>) -> Seq<SourceLine> {
    lines_from(s, 0)
}

pub proof fn lemma_lines_from_wf(s: Seq<char>, i: int)
    requires
        0 <= i,
        s.len() <= usize::MAX,
    ensures
        lines_wf(s, lines_from(s, i)),
        forall|k: int|
            #![trigger lines_from(s, i)[k]]
            0 <= k < lines_from(s, i).len() ==> i <= lines_from(s, i)[k].text_start,
    decreases s.len() - i,
{
    if i < s.len() {
        lemma_line_end_bounds(s, i);
        let e = line_end_from(s, i);
        let next = if e < s.len() {
            e + 1
        } else {
            s.len() as int
        };
        lemma_lines_from_wf(s, next);
        let ls = lines_from(s, i);
        assert forall|k: int| #![trigger ls[k]] 0 <= k < ls.len() implies ls[k].text_start
            <= ls[k].text_end <= s.len() && i <= ls[k].text_start by {
            if k > 0 {
                assert(ls[k] == lines_from(s, next)[k - 1]);
            }
        }
    }
}

/// No line holds a line break.
pub proof fn lemma_lines_from_no_newline(s: Seq<char>, i: int)
    requires
        0 <= i,
        s.len() <= usize::MAX,
    ensures
        forall|k: int|
            0 <= k < lines_from(s, i).len() ==> !(#[trigger] line_text(s, lines_from(s, i)[k])).contains(
                '\n',
            ),
    decreases s.len() - i,
{
    if i < s.len() {
        lemma_line_end_bounds(s, i);
        let e = line_end_from(s, i);
        let next = if e < s.len() {
            e + 1
        } else {
            s.len() as int
        };
        lemma_lines_from_no_newline(s, next);
        let ls = lines_from(s, i);
        assert forall|k: int| 0 <= k < ls.len() implies !(#[trigger] line_text(s, ls[k])).contains(
            '\n',
        ) by {
            if k > 0 {
                assert(ls[k] == lines_from(s, next)[k - 1]);
            } else {
                let t = line_text(s, ls[0]);
                assert forall|m: int| 0 <= m < t.len() implies t[m] != '\n' by {
                    assert(t[m] == s[i + m]);
                }
            }
        }
    }
}

/// A line's byte range is where its characters lie in the UTF-8 encoding.
pub proof fn lemma_lines_from_bytes(s: Seq<char>, i: int)
    requires
        0 <= i,
        byte_len(s) <= usize::MAX,
    ensures
        forall|k: int|
            #![trigger lines_from(s, i)[k]]
            0 <= k < lines_from(s, i).len() ==> {
                &&& lines_from(s, i)[k].start == byte_len(s.take(lines_from(s, i)[k].text_start as int))
                &&& lines_from(s, i)[k].end == byte_len(s.take(lines_from(s, i)[k].text_end as int))
            },
    decreases s.len() - i,
{
    if i < s.len() {
        lemma_line_end_bounds(s, i);
        let e = line_end_from(s, i);
        let next = if e < s.len() {
            e + 1
        } else {
            s.len() as int
        };
        lemma_lines_from_bytes(s, next);
        lemma_byte_len_bounds(s.take(i));
        lemma_byte_len_take_le(s, i);
        lemma_byte_len_bounds(s.take(e));
        lemma_byte_len_take_le(s, e);
        let ls = lines_from(s, i);
        assert forall|k: int| #![trigger ls[k]] 0 <= k < ls.len() implies {
            &&& ls[k].start == byte_len(s.take(ls[k].text_start as int))
            &&& ls[k].end == byte_len(s.take(ls[k].text_end as int))
        } by {
            if k > 0 {
                assert(ls[k] == lines_from(s, next)[k - 1]);
            }
        }
    }
}

/// Where the text after a line starts: past its line break, or at the end.
pub open spec fn after_line(s: Seq<char>, lines: Seq<SourceLine>, k: int) -> int {
    if k + 1 < lines.len() {
        lines[k + 1].text_start as int
    } else {
        s.len() as int
    }
}

/// The lines cover the source: the first starts at its start, each runs up to
/// its line break (if any), and the next starts right after it.
pub proof fn lemma_lines_from_cover(s: Seq<char>, i: int)
    requires
        0 <= i,
        s.len() <= usize::MAX,
    ensures
        lines_from(s, i).len() == 0 ==> i >= s.len(),
        lines_from(s, i).len() > 0 ==> lines_from(s, i)[0].text_start == i,
        forall|k: int|
            #![trigger lines_from(s, i)[k]]
            0 <= k < lines_from(s, i).len() ==> {
                let line = lines_from(s, i)[k];
                &&& after_line(s, lines_from(s, i), k) == if line.has_newline {
                    line.text_end + 1
                } else {
                    line.text_end as int
                }
                &&& line.has_newline ==> line.text_end < s.len() && s[line.text_end as int] == '\n'
            },
    decreases s.len() - i,
{
    if i < s.len() {
        lemma_line_end_bounds(s, i);
        let e = line_end_from(s, i);
        let next = if e < s.len() {
            e + 1
        } else {
            s.len() as int
        };
        lemma_lines_from_cover(s, next);
        let ls = lines_from(s, i);
        let rest = lines_from(s, next);
        assert forall|k: int| #![trigger ls[k]] 0 <= k < ls.len() implies {
            let line = ls[k];
            &&& after_line(s, ls, k) == if line.has_newline {
                line.text_end + 1
            } else {
                line.text_end as int
            }
            &&& line.has_newline ==> line.text_end < s.len() && s[line.text_end as int] == '\n'
        } by {
            if k > 0 {
                assert(ls[k] == rest[k - 1]);
                if k + 1 < ls.len() {
                    assert(ls[k + 1] == rest[k]);
                }
                assert(after_line(s, ls, k) == after_line(s, rest, k - 1));
            } else if ls.len() > 1 {
                assert(ls[1] == rest[0]);
            }
        }
    }
}

/// The lines written one after another, each followed by its line break.
pub open spec fn joined_lines(src: Seq<char>, lines: Seq<SourceLine>) -> Seq<char>
    decreases lines.len(),
{
    if lines.len() == 0 {
        Seq::empty()
    } else {
        line_text(src, lines[0]) + (if lines[0].has_newline {
            seq!['\n']
        } else {
            Seq::empty()
        }) + joined_lines(src, lines.skip(1))
    }
}

/// Writing the lines back one after another gives the source back.
pub proof fn lemma_lines_from_joined(s: Seq<char>, i: int)
    requires
        0 <= i <= s.len(),
        s.len() <= usize::MAX,
    ensures
        joined_lines(s, lines_from(s, i)) == s.skip(i),
    decreases s.len() - i,
{
    if i < s.len() {
        lemma_line_end_bounds(s, i);
        let e = line_end_from(s, i);
        let next = if e < s.len() {
            e + 1
        } else {
            s.len() as int
        };
        lemma_lines_from_joined(s, next);
        let ls = lines_from(s, i);
        assert(ls.skip(1) =~= lines_from(s, next));
        let nl = if e < s.len() {
            seq!['\n']
        } else {
            Seq::<char>::empty()
        };
        assert(ls[0].text_start == i && ls[0].text_end == e);
        assert(line_text(s, ls[0]) =~= s.subrange(i, e));
        assert(s.skip(i) =~= s.subrange(i, e) + nl + s.skip(next));
    } else {
        assert(s.skip(i) =~= Seq::<char>::empty());
    }
}

/// Only the last line may lack a line break, and a line without one is not empty.
pub proof fn lemma_lines_from_breaks(s: Seq<char>, i: int)
    requires
        0 <= i,
        s.len() <= usize::MAX,
    ensures
        forall|k: int|
            #![trigger lines_from(s, i)[k]]
            0 <= k < lines_from(s, i).len() ==> {
                &&& k + 1 < lines_from(s, i).len() ==> lines_from(s, i)[k].has_newline
                &&& !lines_from(s, i)[k].has_newline ==> lines_from(s, i)[k].text_start
                    < lines_from(s, i)[k].text_end
            },
    decreases s.len() - i,
{
    if i < s.len() {
        lemma_line_end_bounds(s, i);
        let e = line_end_from(s, i);
        let next = if e < s.len() {
            e + 1
        } else {
            s.len() as int
        };
        lemma_lines_from_breaks(s, next);
        let ls = lines_from(s, i);
        assert forall|k: int| #![trigger ls[k]] 0 <= k < ls.len() implies {
            &&& k + 1 < ls.len() ==> ls[k].has_newline
            &&& !ls[k].has_newline ==> ls[k].text_start < ls[k].text_end
        } by {
            if k > 0 {
                assert(ls[k] == lines_from(s, next)[k - 1]);
            } else if !ls[0].has_newline {
                assert(lines_from(s, next).len() == 0);
            }
        }
    }
}

/// Consecutive lines follow each other in the source.
pub proof fn lemma_lines_from_ordered(s: Seq<char>, i: int)
    requires
        0 <= i,
        s.len() <= usize::MAX,
    ensures
        forall|k: int|
            #![trigger lines_from(s, i)[k]]
            0 <= k < lines_from(s, i).len() - 1 ==> lines_from(s, i)[k].text_end
                < lines_from(s, i)[k + 1].text_start,
    decreases s.len() - i,
{
    if i < s.len() {
        lemma_line_end_bounds(s, i);
        let e = line_end_from(s, i);
        let next = if e < s.len() {
            e + 1
        } else {
            s.len() as int
        };
        lemma_lines_from_ordered(s, next);
        lemma_lines_from_wf(s, next);
        let ls = lines_from(s, i);
        let rest = lines_from(s, next);
        assert forall|k: int| #![trigger ls[k]] 0 <= k < ls.len() - 1 implies ls[k].text_end
            < ls[k + 1].text_start by {
            assert(ls[k + 1] == rest[k]);
            if k > 0 {
                assert(ls[k] == rest[k - 1]);
            }
        }
    }
}

/// Splits a source into lines, recording each line's characters, byte range
/// and whether a line break ends it.
pub fn source_lines(source: &[char]) -> (lines: Vec<SourceLine>)
    requires
        byte_len(source@) <= usize::MAX,
    ensures
        lines@ == source_lines_of(source@),
        lines_wf(source@, lines@),
        joined_lines(source@, lines@) == source@,
        forall|k: int|
            #![trigger lines@[k]]
            0 <= k < lines@.len() ==> {
                &&& !line_text(source@, lines@[k]).contains('\n')
                &&& lines@[k].start == byte_len(source@.take(lines@[k].text_start as int))
                &&& lines@[k].end == byte_len(source@.take(lines@[k].text_end as int))
                &&& k + 1 < lines@.len() ==> lines@[k].has_newline
                &&& !lines@[k].has_newline ==> lines@[k].text_start < lines@[k].text_end
            },
{
    proof {
        lemma_byte_len_bounds(source@);
        lemma_lines_from_no_newline(source@, 0);
        lemma_lines_from_bytes(source@, 0);
        lemma_lines_from_breaks(source@, 0);
        lemma_lines_from_joined(source@, 0);
        assert(source@.skip(0) =~= source@);
    }
    let ghost s = source@;
    let mut lines: Vec<SourceLine> = Vec::new();
    let mut start: usize = 0;
    let mut start_byte: usize = 0;
    proof {
        lemma_byte_len_bounds(s);
        lemma_lines_from_wf(s, 0);
        assert(s.take(0) =~= Seq::<char>::empty());
    }
    while start < source.len()
        invariant
            0 <= start <= source.len(),
            byte_len(s) <= usize::MAX,
            source@ == s,
            start_byte == byte_len(s.take(start as int)),
            lines@ + lines_from(s, start as int) == lines_from(s, 0),
        decreases source.len() - start,
    {
        let mut end: usize = start;
        let mut end_byte: usize = start_byte;
        proof {
            lemma_byte_len_bounds(s.take(start as int));
        lemma_byte_len_take_le(s, start as int);
        }
        while end < source.len() && source[end] != '\n'
            invariant
                start <= end <= source.len(),
                byte_len(s) <= usize::MAX,
                source@ == s,
                end_byte == byte_len(s.take(end as int)),
                line_end_from(s, start as int) == line_end_from(s, end as int),
            decreases source.len() - end,
        {
            proof {
                lemma_byte_len_take_step(s, end as int);
                lemma_byte_len_bounds(s.take(end + 1));
        lemma_byte_len_take_le(s, end + 1);
            }
            end_byte = end_byte + char_byte_width(source[end]) as usize;
            end = end + 1;
        }
        proof {
            lemma_line_end_bounds(s, start as int);
        }
        let has_newline = end < source.len();
        lines.push(
            SourceLine { text_start: start, text_end: end, start: start_byte, end: end_byte, has_newline },
        );
        if has_newline {
            proof {
                lemma_byte_len_take_step(s, end as int);
                lemma_byte_len_bounds(s.take(end + 1));
        lemma_byte_len_take_le(s, end + 1);
            }
            start_byte = end_byte + 1;
            start = end + 1;
        } else {
            start_byte = end_byte;
            start = end;
        }
    }
    proof {
        assert(lines@ + lines_from(s, start as int) == lines@);
        lemma_lines_from_wf(s, 0);
    }
    lines
}

/// The characters of a line, as a slice of the source.
pub fn text_of<'a>(src: &'a [char], line: &SourceLine) -> (t: &'a [char])
    requires
        line.text_start <= line.text_end <= src@.len(),
    ensures
        t@ == line_text(src@, *line),
{
    &src[line.text_start..line.text_end]
}

// ---------------------------------------------------------------------------
// Multiline strings
/// The string that is still open after scanning `t` from `i` on, given the one
/// open before it (`escaped`: the previous character was a backslash inside a
/// double-quoted string). A `#` outside strings ends the scan; `$"` opens an
/// interpolated string.
pub open spec fn quote_after(t: Seq<char>, i: int, quote: Option<char>, escaped: bool) -> Option<char>
    decreases t.len() - i,
{
    if i < 0 || i >= t.len() {
        quote
    } else {
        let ch = t[i];
        match quote {
            Some(q) => {
                if escaped {
                    quote_after(t, i + 1, quote, false)
                } else if q == '"' && ch == '\\' {
                    quote_after(t, i + 1, quote, true)
                } else if ch == q {
                    quote_after(t, i + 1, None, false)
                } else {
                    quote_after(t, i + 1, quote, false)
                }
            },
            None => {
                if ch == '#' {
                    None
                } else if ch == '$' && i + 1 < t.len() && t[i + 1] == '"' {
                    quote_after(t, i + 2, Some('"'), false)
                } else if ch == '"' || ch == '\'' || ch == '`' {
                    quote_after(t, i + 1, Some(ch), false)
                } else {
                    quote_after(t, i + 1, None, false)
                }
            },
        }
    }
}

/// For lines `k..`, whether each starts or ends inside a string, given the string open before line `k`.
pub open spec fn string_flags_from(
    src: Seq<char>,
    lines: Seq<SourceLine>,
    k: int,
    active: Option<char>,
) -> Seq<bool>
    decreases lines.len() - k,
{
    if k < 0 || k >= lines.len() {
        Seq::empty()
    } else {
        let after = quote_after(line_text(src, lines[k]), 0, active, false);
        seq![active.is_some() || after.is_some()] + string_flags_from(src, lines, k + 1, after)
    }
}

/// Which lines begin or end inside a string literal.
pub open spec fn multiline_string_flags(src: Seq<char>, lines: Seq<SourceLine>) -> Seq<bool> {
    string_flags_from(src, lines, 0, None)
}

pub proof fn lemma_string_flags_len(src: Seq<char>, lines: Seq<SourceLine>, k: int, active: Option<char>)
    requires
        0 <= k <= lines.len(),
    ensures
        string_flags_from(src, lines, k, active).len() == lines.len() - k,
    decreases lines.len() - k,
{
    if k < lines.len() {
        let after = quote_after(line_text(src, lines[k]), 0, active, false);
        lemma_string_flags_len(src, lines, k + 1, after);
    }
}

/// The string literal open at the start of line `k`.
pub open spec fn active_before(src: Seq<char>, lines: Seq<SourceLine>, k: int) -> Option<char>
    decreases k,
{
    if k <= 0 {
        None
    } else {
        quote_after(line_text(src, lines[k - 1]), 0, active_before(src, lines, k - 1), false)
    }
}

pub proof fn lemma_flags_at(src: Seq<char>, lines: Seq<SourceLine>, j: int, k: int)
    requires
        0 <= j <= k < lines.len(),
    ensures
        string_flags_from(src, lines, j, active_before(src, lines, j))[k - j] == (active_before(
            src,
            lines,
            k,
        ).is_some() || active_before(src, lines, k + 1).is_some()),
    decreases k - j,
{
    if j < k {
        lemma_flags_at(src, lines, j + 1, k);
        lemma_string_flags_len(src, lines, j + 1, active_before(src, lines, j + 1));
    }
}

/// No string literal, or one opened by a quote character.
pub open spec fn quote_state(q: Option<char>) -> bool {
    q is None || q == Some('"') || q == Some('\'') || q == Some('`')
}

proof fn lemma_quote_after_state(t: Seq<char>, i: int, q: Option<char>, escaped: bool)
    requires
        quote_state(q),
    ensures
        quote_state(quote_after(t, i, q, escaped)),
    decreases t.len() - i,
{
    if 0 <= i < t.len() {
        let ch = t[i];
        lemma_quote_after_state(t, i + 1, q, false);
        lemma_quote_after_state(t, i + 1, q, true);
        lemma_quote_after_state(t, i + 1, None, false);
        if i + 1 < t.len() {
            lemma_quote_after_state(t, i + 2, Some('"'), false);
        }
        if ch == '"' || ch == '\'' || ch == '`' {
            lemma_quote_after_state(t, i + 1, Some(ch), false);
        }
    }
}

proof fn lemma_active_before_state(src: Seq<char>, lines: Seq<SourceLine>, k: int)
    ensures
        quote_state(active_before(src, lines, k)),
    decreases k,
{
    if k > 0 {
        lemma_active_before_state(src, lines, k - 1);
        lemma_quote_after_state(line_text(src, lines[k - 1]), 0, active_before(src, lines, k - 1), false);
    }
}

/// A text of whitespace opens and closes no string literal.
pub proof fn lemma_quote_after_blank(t: Seq<char>, i: int, q: Option<char>)
    requires
        quote_state(q),
        0 <= i <= t.len(),
        forall|k: int| 0 <= k < t.len() ==> is_unicode_ws(#[trigger] t[k]),
    ensures
        quote_after(t, i, q, false) == q,
    decreases t.len() - i,
{
    if i < t.len() {
        assert(is_unicode_ws(t[i]));
        lemma_quote_after_blank(t, i + 1, q);
    }
}

/// A blank line inside a multiline string has a string line before it and,
/// unless it is the last line, a string line after it.
pub proof fn lemma_blank_string_line_neighbours(src: Seq<char>, lines: Seq<SourceLine>, k: int)
    requires
        0 <= k < lines.len(),
        multiline_string_flags(src, lines)[k],
        forall|c: int|
            0 <= c < line_text(src, lines[k]).len() ==> is_unicode_ws(#[trigger] line_text(src, lines[k])[c]),
    ensures
        k > 0,
        multiline_string_flags(src, lines)[k - 1],
        k + 1 < lines.len() ==> multiline_string_flags(src, lines)[k + 1],
{
    lemma_flags_at(src, lines, 0, k);
    lemma_active_before_state(src, lines, k);
    lemma_quote_after_blank(line_text(src, lines[k]), 0, active_before(src, lines, k));
    assert(active_before(src, lines, k + 1) == active_before(src, lines, k));
    if k > 0 {
        lemma_flags_at(src, lines, 0, k - 1);
    }
    if k + 1 < lines.len() {
        lemma_flags_at(src, lines, 0, k + 1);
    }
}

/// Marks the lines that start or end inside a string literal, whose text the
/// formatter keeps as written.
pub fn multiline_string_lines(src: &[char], lines: &[SourceLine]) -> (res: Vec<bool>)
    requires
        lines_wf(src@, lines@),
    ensures
        res@ == multiline_string_flags(src@, lines@),
        res@.len() == lines@.len(),
{
    let mut result: Vec<bool> = Vec::new();
    let mut active_quote: Option<char> = None;
    let mut k: usize = 0;
    while k < lines.len()
        invariant
            0 <= k <= lines.len(),
            lines_wf(src@, lines@),
            result@ + string_flags_from(src@, lines@, k as int, active_quote) == multiline_string_flags(
                src@,
                lines@,
            ),
        decreases lines.len() - k,
    {
        let was_in_multiline = active_quote.is_some();
        let line = lines[k];
        let t = text_of(src, &line);
        let ghost start_quote = active_quote;
        let mut escaped = false;
        let mut i: usize = 0;
        while i < t.len()
            invariant
                0 <= i <= t.len(),
                quote_after(t@, 0, start_quote, false) == quote_after(t@, i as int, active_quote, escaped),
            ensures
                quote_after(t@, 0, start_quote, false) == active_quote,
            decreases t.len() - i,
        {
            let ch = t[i];
            match active_quote {
                Some(quote) => {
                    if escaped {
                        escaped = false;
                    } else if quote == '"' && ch == '\\' {
                        escaped = true;
                    } else if ch == quote {
                        active_quote = None;
                        escaped = false;
                    }
                    i = i + 1;
                },
                None => {
                    if ch == '#' {
                        break;
                    }
                    if ch == '$' && i + 1 < t.len() && t[i + 1] == '"' {
                        active_quote = Some('"');
                        escaped = false;
                        i = i + 2;
                    } else {
                        if ch == '"' || ch == '\'' || ch == '`' {
                            active_quote = Some(ch);
                        }
                        escaped = false;
                        i = i + 1;
                    }
                },
            }
        }
        result.push(was_in_multiline || active_quote.is_some());
        proof {
            assert(t@ == line_text(src@, lines@[k as int]));
            assert(quote_after(t@, 0, start_quote, false) == active_quote);
            let after = active_quote;
            assert(string_flags_from(src@, lines@, k as int, start_quote) == seq![
                start_quote.is_some() || after.is_some(),
            ] + string_flags_from(src@, lines@, k + 1, after));
            assert(result@ + string_flags_from(src@, lines@, k + 1, after) =~= (result@.drop_last()
                + string_flags_from(src@, lines@, k as int, start_quote)));
        }
        k = k + 1;
    }
    proof {
        assert(result@ + string_flags_from(src@, lines@, k as int, active_quote) == result@);
        lemma_string_flags_len(src@, lines@, 0, None);
    }
    result
}


// ---------------------------------------------------------------------------
// Long multiline lists and grouped expressions
/// A list that spans at least this many item lines is kept as written.
pub const MULTILINE_LIST_PRESERVE_THRESHOLD: usize = 6;

/// Characters that carry no content of their own in a list's lines.
pub open spec fn is_list_structural(c: char) -> bool {
    is_ascii_ws(c) || c == '[' || c == ']' || c == '(' || c == ')' || c == '{' || c == '}' || c == ','
}

/// Characters that carry no content of their own in a grouped expression's lines.
pub open spec fn is_group_structural(c: char) -> bool {
    is_ascii_ws(c) || c == '(' || c == ')' || c == '[' || c == ']' || c == '{' || c == '}'
}

/// Whether a line holds content: its trimmed text is not empty and not made of
/// structural characters only (`group` picks the grouped-expression set, else the list set).
pub open spec fn is_significant_line(t: Seq<char>, group: bool) -> bool {
    let c = trim(t);
    c.len() > 0 && !(forall|j: int| 0 <= j < c.len() ==> #[trigger] is_structural(c[j], group))
}

/// The structural characters of grouped expressions (`group`) or of lists.
pub open spec fn is_structural(c: char, group: bool) -> bool {
    if group {
        is_group_structural(c)
    } else {
        is_list_structural(c)
    }
}

/// How many of the lines `lo..hi` hold content.
pub open spec fn count_significant(
    src: Seq<char>,
    lines: Seq<SourceLine>,
    lo: int,
    hi: int,
    group: bool,
) -> nat
    decreases hi - lo,
{
    if hi <= lo {
        0
    } else {
        count_significant(src, lines, lo, hi - 1, group) + if is_significant_line(
            line_text(src, lines[hi - 1]),
            group,
        ) {
            1nat
        } else {
            0nat
        }
    }
}

fn is_significant(t: &[char], group: bool) -> (b: bool)
    ensures
        b == is_significant_line(t@, group),
{
    let c = trim_chars(t);
    if c.len() == 0 {
        return false;
    }
    let mut j: usize = 0;
    while j < c.len()
        invariant
            0 <= j <= c.len(),
            c@ == trim(t@),
            forall|m: int| 0 <= m < j ==> #[trigger] is_structural(c@[m], group),
        decreases c.len() - j,
    {
        let ch = c[j];
        let structural = is_ascii_ws(ch) || ch == '(' || ch == ')' || ch == '[' || ch == ']' || ch
            == '{' || ch == '}' || (!group && ch == ',');
        if !structural {
            assert(!is_structural(c@[j as int], group));
            assert(!(forall|m: int| 0 <= m < c@.len() ==> #[trigger] is_structural(c@[m], group)));

            return true;
        }
        j = j + 1;
    }
    false
}

fn count_significant_lines(
    src: &[char],
    lines: &[SourceLine],
    lo: usize,
    hi: usize,
    group: bool,
) -> (count: usize)
    requires
        lines_wf(src@, lines@),
        lo <= hi <= lines@.len(),
    ensures
        count == count_significant(src@, lines@, lo as int, hi as int, group),
{
    let mut count: usize = 0;
    let mut k: usize = lo;
    while k < hi
        invariant
            lo <= k <= hi <= lines@.len(),
            lines_wf(src@, lines@),
            count == count_significant(src@, lines@, lo as int, k as int, group),
            count <= k - lo,
        decreases hi - k,
    {
        let t = text_of(src, &lines[k]);
        if is_significant(t, group) {
            count = count + 1;
        }
        k = k + 1;
    }
    count
}

/// Lines `start + 1 .. end` of a grouped expression that hold content.
pub fn count_significant_group_expression_lines(
    src: &[char],
    lines: &[SourceLine],
    start_line: usize,
    end_line: usize,
) -> (count: usize)
    requires
        lines_wf(src@, lines@),
        start_line < end_line <= lines@.len(),
    ensures
        count == count_significant(src@, lines@, start_line + 1, end_line as int, true),
{
    count_significant_lines(src, lines, start_line + 1, end_line, true)
}

/// Lines `start + 1 .. end` of a list that hold content.
pub fn count_significant_list_item_lines(
    src: &[char],
    lines: &[SourceLine],
    start_line: usize,
    end_line: usize,
) -> (count: usize)
    requires
        lines_wf(src@, lines@),
        start_line < end_line <= lines@.len(),
    ensures
        count == count_significant(src@, lines@, start_line + 1, end_line as int, false),
{
    count_significant_lines(src, lines, start_line + 1, end_line, false)
}

/// Whether a grouped expression from `start_line` to `end_line` is kept as
/// written: it opens alone, after `=` or after `return`, and holds at least two
/// lines of content.
pub open spec fn preserves_group(src: Seq<char>, lines: Seq<SourceLine>, start_line: int, end_line: int) -> bool {
    let opener = trim(line_text(src, lines[start_line]));
    (opener == "("@ || "= ("@.is_suffix_of(opener) || "return ("@.is_suffix_of(opener))
        && count_significant(src, lines, start_line + 1, end_line, true) >= 2
}

pub fn should_preserve_multiline_group_expression(
    src: &[char],
    lines: &[SourceLine],
    start_line: usize,
    end_line: usize,
) -> (b: bool)
    requires
        lines_wf(src@, lines@),
        start_line < end_line <= lines@.len(),
    ensures
        b == preserves_group(src@, lines@, start_line as int, end_line as int),
{
    let opener = trim_chars(text_of(src, &lines[start_line]));
    if !(text_eq(opener, &chars_of("(")) || ends_with_text(opener, &chars_of("= ("))
        || ends_with_text(opener, &chars_of("return ("))) {
        return false;
    }
    count_significant_group_expression_lines(src, lines, start_line, end_line) >= 2
}

/// The state of a scan for long multiline lists or grouped expressions.
pub struct BracketScan {
    pub preserve: Seq<bool>,
    /// Lines on which the still open brackets were opened.
    pub stack: Seq<usize>,
    pub in_single: bool,
    pub in_double: bool,
    pub escaped: bool,
}

/// `p` with the entries `lo..hi` set.
pub open spec fn mark_range(p: Seq<bool>, lo: int, hi: int) -> Seq<bool> {
    Seq::new(p.len(), |j: int| if lo <= j < hi { true } else { p[j] })
}

/// Closing a bracket on line `li`: when it was opened on an earlier line and
/// the bracketed region is kept as written, its inner lines are marked.
pub open spec fn close_bracket(
    src: Seq<char>,
    lines: Seq<SourceLine>,
    li: int,
    st: BracketScan,
    group: bool,
) -> BracketScan {
    if st.stack.len() == 0 {
        st
    } else {
        let s0 = st.stack.last() as int;
        let popped = BracketScan { stack: st.stack.drop_last(), ..st };
        let keep = if group {
            preserves_group(src, lines, s0, li)
        } else {
            count_significant(src, lines, s0 + 1, li, false)
                >= MULTILINE_LIST_PRESERVE_THRESHOLD
        };
        if s0 < li && keep {
            BracketScan { preserve: mark_range(st.preserve, s0 + 1, li), ..popped }
        } else {
            popped
        }
    }
}

/// Scans the characters `i..` of line `li` (whose text is `t`).
pub open spec fn bracket_scan_chars(
    src: Seq<char>,
    lines: Seq<SourceLine>,
    li: int,
    t: Seq<char>,
    i: int,
    st: BracketScan,
    group: bool,
) -> BracketScan
    decreases t.len() - i,
{
    if i < 0 || i >= t.len() {
        st
    } else {
        let ch = t[i];
        let open = if group {
            '('
        } else {
            '['
        };
        let close = if group {
            ')'
        } else {
            ']'
        };
        if st.escaped {
            bracket_scan_chars(src, lines, li, t, i + 1, BracketScan { escaped: false, ..st }, group)
        } else if st.in_single {
            if ch == '\\' {
                bracket_scan_chars(src, lines, li, t, i + 1, BracketScan { escaped: true, ..st }, group)
            } else if ch == '\'' {
                bracket_scan_chars(
                    src,
                    lines,
                    li,
                    t,
                    i + 1,
                    BracketScan { in_single: false, ..st },
                    group,
                )
            } else {
                bracket_scan_chars(src, lines, li, t, i + 1, st, group)
            }
        } else if st.in_double {
            if ch == '\\' {
                bracket_scan_chars(src, lines, li, t, i + 1, BracketScan { escaped: true, ..st }, group)
            } else if ch == '"' {
                bracket_scan_chars(
                    src,
                    lines,
                    li,
                    t,
                    i + 1,
                    BracketScan { in_double: false, ..st },
                    group,
                )
            } else {
                bracket_scan_chars(src, lines, li, t, i + 1, st, group)
            }
        } else if ch == '#' {
            st
        } else if ch == '\'' {
            bracket_scan_chars(src, lines, li, t, i + 1, BracketScan { in_single: true, ..st }, group)
        } else if ch == '"' {
            bracket_scan_chars(src, lines, li, t, i + 1, BracketScan { in_double: true, ..st }, group)
        } else if ch == open {
            bracket_scan_chars(
                src,
                lines,
                li,
                t,
                i + 1,
                BracketScan { stack: st.stack.push(li as usize), ..st },
                group,
            )
        } else if ch == close {
            bracket_scan_chars(src, lines, li, t, i + 1, close_bracket(src, lines, li, st, group), group)
        } else {
            bracket_scan_chars(src, lines, li, t, i + 1, st, group)
        }
    }
}

/// Scans the lines `li..`.
pub open spec fn bracket_scan_lines(
    src: Seq<char>,
    lines: Seq<SourceLine>,
    li: int,
    st: BracketScan,
    group: bool,
) -> BracketScan
    decreases lines.len() - li,
{
    if li < 0 || li >= lines.len() {
        st
    } else {
        bracket_scan_lines(
            src,
            lines,
            li + 1,
            bracket_scan_chars(src, lines, li, line_text(src, lines[li]), 0, st, group),
            group,
        )
    }
}

/// The lines kept as written because they lie inside a long multiline list
/// (`group` false) or a multiline grouped expression (`group` true).
pub open spec fn preserved_bracket_flags(src: Seq<char>, lines: Seq<SourceLine>, group: bool) -> Seq<bool> {
    bracket_scan_lines(
        src,
        lines,
        0,
        BracketScan {
            preserve: Seq::new(lines.len(), |j: int| false),
            stack: Seq::empty(),
            in_single: false,
            in_double: false,
            escaped: false,
        },
        group,
    ).preserve
}

/// The bracket that opens a region: `(` for grouped expressions, `[` for lists.
pub open spec fn opener(group: bool) -> char {
    if group {
        '('
    } else {
        '['
    }
}

/// The bracket that closes a region.
pub open spec fn closer(group: bool) -> char {
    if group {
        ')'
    } else {
        ']'
    }
}

/// The lines on which the still open brackets were opened hold an opening bracket.
pub open spec fn stack_lines_open(src: Seq<char>, lines: Seq<SourceLine>, stack: Seq<usize>, group: bool) -> bool {
    forall|x: int|
        0 <= x < stack.len() ==> (#[trigger] stack[x]) < lines.len() && line_text(
            src,
            lines[stack[x] as int],
        ).contains(opener(group))
}

/// Line `j` lies strictly inside a bracketed region opened on line `s0` and
/// closed on line `e` that is kept as written.
pub open spec fn kept_between(src: Seq<char>, lines: Seq<SourceLine>, s0: int, j: int, e: int, group: bool) -> bool {
    &&& 0 <= s0 < j < e < lines.len()
    &&& line_text(src, lines[s0]).contains(opener(group))
    &&& line_text(src, lines[e]).contains(closer(group))
    &&& if group {
        preserves_group(src, lines, s0, e)
    } else {
        count_significant(src, lines, s0 + 1, e, false) >= MULTILINE_LIST_PRESERVE_THRESHOLD
    }
}

/// Every marked line lies strictly inside a kept region.
pub open spec fn marks_justified(src: Seq<char>, lines: Seq<SourceLine>, p: Seq<bool>, group: bool) -> bool {
    &&& p.len() == lines.len()
    &&& forall|j: int|
        0 <= j < p.len() && #[trigger] p[j] ==> exists|s0: int, e: int|
            kept_between(src, lines, s0, j, e, group)
}

proof fn lemma_close_bracket_justified(
    src: Seq<char>,
    lines: Seq<SourceLine>,
    li: int,
    st: BracketScan,
    group: bool,
)
    requires
        0 <= li < lines.len(),
        line_text(src, lines[li]).contains(closer(group)),
        marks_justified(src, lines, st.preserve, group),
        stack_lines_open(src, lines, st.stack, group),
    ensures
        marks_justified(src, lines, close_bracket(src, lines, li, st, group).preserve, group),
        stack_lines_open(src, lines, close_bracket(src, lines, li, st, group).stack, group),
{
    if st.stack.len() > 0 {
        let s0 = st.stack.last() as int;
        assert(st.stack[st.stack.len() - 1] == st.stack.last());
        let d = st.stack.drop_last();
        assert forall|x: int| 0 <= x < d.len() implies (#[trigger] d[x]) < lines.len() && line_text(
            src,
            lines[d[x] as int],
        ).contains(opener(group)) by {
            assert(d[x] == st.stack[x]);
        }
        let p = close_bracket(src, lines, li, st, group).preserve;
        assert forall|j: int| 0 <= j < p.len() && #[trigger] p[j] implies exists|a: int, b: int|
            kept_between(src, lines, a, j, b, group) by {
            if p != st.preserve && s0 + 1 <= j < li {
                assert(kept_between(src, lines, s0, j, li, group));
            } else {
                assert(p[j] == st.preserve[j]);
            }
        }
    }
}

proof fn lemma_bracket_scan_chars_justified(
    src: Seq<char>,
    lines: Seq<SourceLine>,
    li: int,
    t: Seq<char>,
    i: int,
    st: BracketScan,
    group: bool,
)
    requires
        0 <= li < lines.len(),
        lines.len() <= usize::MAX,
        t == line_text(src, lines[li]),
        marks_justified(src, lines, st.preserve, group),
        stack_lines_open(src, lines, st.stack, group),
    ensures
        marks_justified(src, lines, bracket_scan_chars(src, lines, li, t, i, st, group).preserve, group),
        stack_lines_open(src, lines, bracket_scan_chars(src, lines, li, t, i, st, group).stack, group),
    decreases t.len() - i,
{
    if 0 <= i < t.len() {
        let ch = t[i];
        let open = if group {
            '('
        } else {
            '['
        };
        let close = if group {
            ')'
        } else {
            ']'
        };
        let next = if st.escaped {
            BracketScan { escaped: false, ..st }
        } else if st.in_single {
            if ch == '\\' {
                BracketScan { escaped: true, ..st }
            } else if ch == '\'' {
                BracketScan { in_single: false, ..st }
            } else {
                st
            }
        } else if st.in_double {
            if ch == '\\' {
                BracketScan { escaped: true, ..st }
            } else if ch == '"' {
                BracketScan { in_double: false, ..st }
            } else {
                st
            }
        } else if ch == '\'' {
            BracketScan { in_single: true, ..st }
        } else if ch == '"' {
            BracketScan { in_double: true, ..st }
        } else if ch == open {
            assert(t.contains(t[i]));
            let pushed = st.stack.push(li as usize);
            assert forall|x: int| 0 <= x < pushed.len() implies (#[trigger] pushed[x]) < lines.len()
                && line_text(src, lines[pushed[x] as int]).contains(opener(group)) by {
                if x < st.stack.len() {
                    assert(pushed[x] == st.stack[x]);
                }
            }
            assert(pushed[pushed.len() - 1] as int == li);
            BracketScan { stack: pushed, ..st }
        } else if ch == close {
            assert(t.contains(t[i]));
            lemma_close_bracket_justified(src, lines, li, st, group);
            close_bracket(src, lines, li, st, group)
        } else {
            st
        };
        if st.escaped || st.in_single || st.in_double || ch != '#' {
            lemma_bracket_scan_chars_justified(src, lines, li, t, i + 1, next, group);
        }
    }
}

proof fn lemma_bracket_scan_lines_justified(
    src: Seq<char>,
    lines: Seq<SourceLine>,
    li: int,
    st: BracketScan,
    group: bool,
)
    requires
        0 <= li,
        lines.len() <= usize::MAX,
        marks_justified(src, lines, st.preserve, group),
        stack_lines_open(src, lines, st.stack, group),
    ensures
        marks_justified(src, lines, bracket_scan_lines(src, lines, li, st, group).preserve, group),
    decreases lines.len() - li,
{
    if li < lines.len() {
        let t = line_text(src, lines[li]);
        lemma_bracket_scan_chars_justified(src, lines, li, t, 0, st, group);
        lemma_bracket_scan_lines_justified(
            src,
            lines,
            li + 1,
            bracket_scan_chars(src, lines, li, t, 0, st, group),
            group,
        );
    }
}

/// A line is kept as written only when it lies strictly inside a bracketed
/// region that is kept: so the first and the last line never are.
pub proof fn lemma_preserved_flags_justified(src: Seq<char>, lines: Seq<SourceLine>, group: bool)
    requires
        lines.len() <= usize::MAX,
    ensures
        marks_justified(src, lines, preserved_bracket_flags(src, lines, group), group),
{
    let init = BracketScan {
        preserve: Seq::new(lines.len(), |j: int| false),
        stack: Seq::empty(),
        in_single: false,
        in_double: false,
        escaped: false,
    };
    lemma_bracket_scan_lines_justified(src, lines, 0, init, group);
}

/// Marks the inner lines of bracketed regions that are kept as written.
fn preserved_bracket_lines(src: &[char], lines: &[SourceLine], group: bool) -> (res: Vec<bool>)
    requires
        lines_wf(src@, lines@),
    ensures
        res@ == preserved_bracket_flags(src@, lines@, group),
        res@.len() == lines@.len(),
{
    let open = if group {
        '('
    } else {
        '['
    };
    let close = if group {
        ')'
    } else {
        ']'
    };
    let mut preserve: Vec<bool> = Vec::new();
    let mut j: usize = 0;
    while j < lines.len()
        invariant
            0 <= j <= lines.len(),
            preserve@ == Seq::new(j as nat, |m: int| false),
        decreases lines.len() - j,
    {
        preserve.push(false);
        proof {
            assert(preserve@ =~= Seq::new((j + 1) as nat, |m: int| false));
        }
        j = j + 1;
    }
    let mut stack: Vec<usize> = Vec::new();
    let mut in_single = false;
    let mut in_double = false;
    let mut escaped = false;
    let ghost init = BracketScan {
        preserve: preserve@,
        stack: stack@,
        in_single,
        in_double,
        escaped,
    };
    let mut li: usize = 0;
    while li < lines.len()
        invariant
            0 <= li <= lines.len(),
            lines_wf(src@, lines@),
            open == (if group { '(' } else { '[' }),
            close == (if group { ')' } else { ']' }),
            preserve@.len() == lines@.len(),
            forall|m: int| 0 <= m < stack@.len() ==> stack@[m] < li,
            bracket_scan_lines(src@, lines@, 0, init, group) == bracket_scan_lines(
                src@,
                lines@,
                li as int,
                BracketScan { preserve: preserve@, stack: stack@, in_single, in_double, escaped },
                group,
            ),
        decreases lines.len() - li,
    {
        let t = text_of(src, &lines[li]);
        let ghost line_start = BracketScan {
            preserve: preserve@,
            stack: stack@,
            in_single,
            in_double,
            escaped,
        };
        let mut i: usize = 0;
        while i < t.len()
            invariant
                0 <= i <= t.len(),
                li < lines@.len(),
                t@ == line_text(src@, lines@[li as int]),
                lines_wf(src@, lines@),
                open == (if group { '(' } else { '[' }),
                close == (if group { ')' } else { ']' }),
                preserve@.len() == lines@.len(),
                forall|m: int| 0 <= m < stack@.len() ==> stack@[m] <= li,
                bracket_scan_chars(src@, lines@, li as int, t@, 0, line_start, group)
                    == bracket_scan_chars(
                    src@,
                    lines@,
                    li as int,
                    t@,
                    i as int,
                    BracketScan { preserve: preserve@, stack: stack@, in_single, in_double, escaped },
                    group,
                ),
            ensures
                preserve@.len() == lines@.len(),
                forall|m: int| 0 <= m < stack@.len() ==> stack@[m] <= li,
                bracket_scan_chars(src@, lines@, li as int, t@, 0, line_start, group)
                    == (BracketScan { preserve: preserve@, stack: stack@, in_single, in_double, escaped }),
            decreases t.len() - i,
        {
            let ch = t[i];
            if escaped {
                escaped = false;
            } else if in_single {
                if ch == '\\' {
                    escaped = true;
                } else if ch == '\'' {
                    in_single = false;
                }
            } else if in_double {
                if ch == '\\' {
                    escaped = true;
                } else if ch == '"' {
                    in_double = false;
                }
            } else if ch == '#' {
                break;
            } else if ch == '\'' {
                in_single = true;
            } else if ch == '"' {
                in_double = true;
            } else if ch == open {
                stack.push(li);
            } else if ch == close {
                let ghost before = BracketScan {
                    preserve: preserve@,
                    stack: stack@,
                    in_single,
                    in_double,
                    escaped,
                };
                if let Some(start_line) = stack.pop() {
                    let keep = if start_line < li {
                        if group {
                            should_preserve_multiline_group_expression(src, lines, start_line, li)
                        } else {
                            count_significant_list_item_lines(src, lines, start_line, li)
                                >= MULTILINE_LIST_PRESERVE_THRESHOLD
                        }
                    } else {
                        false
                    };
                    if keep {
                        let mut m: usize = start_line + 1;
                        let ghost p0 = preserve@;
                        while m < li
                            invariant
                                start_line + 1 <= m <= li,
                                li < lines@.len(),
                                preserve@.len() == p0.len(),
                                p0.len() == lines@.len(),
                                forall|q: int|
                                    0 <= q < p0.len() ==> preserve@[q] == if start_line + 1 <= q < m {
                                        true
                                    } else {
                                        p0[q]
                                    },
                            decreases li - m,
                        {
                            preserve.set(m, true);
                            m = m + 1;
                        }
                        assert(preserve@ =~= mark_range(p0, start_line + 1, li as int));
                    }
                    proof {
                        assert(stack@ =~= before.stack.drop_last());
                    }
                }
                assert(close_bracket(src@, lines@, li as int, before, group) == (BracketScan {
                    preserve: preserve@,
                    stack: stack@,
                    in_single,
                    in_double,
                    escaped,
                }));
            }
            i = i + 1;
        }
        li = li + 1;
    }
    preserve
}

/// Marks the inner lines of multiline lists with many item lines, which the
/// formatter keeps as written.
pub fn preserved_multiline_list_lines(src: &[char], lines: &[SourceLine]) -> (res: Vec<bool>)
    requires
        lines_wf(src@, lines@),
    ensures
        res@ == preserved_bracket_flags(src@, lines@, false),
        res@.len() == lines@.len(),
        marks_justified(src@, lines@, res@, false),
{
    let line_count = lines.len();
    proof {
        assert(lines@.len() == line_count);
        lemma_preserved_flags_justified(src@, lines@, false);
    }
    preserved_bracket_lines(src, lines, false)
}

/// Marks the inner lines of multiline grouped expressions that the formatter
/// keeps as written.
pub fn preserved_multiline_group_expression_lines(src: &[char], lines: &[SourceLine]) -> (res: Vec<
    bool,
>)
    requires
        lines_wf(src@, lines@),
    ensures
        res@ == preserved_bracket_flags(src@, lines@, true),
        res@.len() == lines@.len(),
        marks_justified(src@, lines@, res@, true),
{
    let line_count = lines.len();
    proof {
        assert(lines@.len() == line_count);
        lemma_preserved_flags_justified(src@, lines@, true);
    }
    preserved_bracket_lines(src, lines, true)
}


// ---------------------------------------------------------------------------
// Neighbouring lines and indentation
/// The trimmed text of the last line before line `k` that is not blank.
pub open spec fn prev_nonempty_from(src: Seq<char>, lines: Seq<SourceLine>, k: int) -> Option<Seq<char>>
    decreases k,
{
    if k <= 0 || k > lines.len() {
        None
    } else {
        let c = trim(line_text(src, lines[k - 1]));
        if c.len() > 0 {
            Some(c)
        } else {
            prev_nonempty_from(src, lines, k - 1)
        }
    }
}

/// The trimmed text of the first line from line `k` on that is not blank.
pub open spec fn next_nonempty_from(src: Seq<char>, lines: Seq<SourceLine>, k: int) -> Option<Seq<char>>
    decreases lines.len() - k,
{
    if k < 0 || k >= lines.len() {
        None
    } else {
        let c = trim(line_text(src, lines[k]));
        if c.len() > 0 {
            Some(c)
        } else {
            next_nonempty_from(src, lines, k + 1)
        }
    }
}

/// The content of the closest non-blank line before line `index`.
pub fn previous_nonempty_content<'a>(src: &'a [char], lines: &[SourceLine], index: usize) -> (res:
    Option<&'a [char]>)
    requires
        lines_wf(src@, lines@),
        index <= lines@.len(),
    ensures
        res matches Some(c) ==> prev_nonempty_from(src@, lines@, index as int) == Some(c@),
        res is None ==> prev_nonempty_from(src@, lines@, index as int) is None,
{
    let mut k: usize = index;
    while k > 0
        invariant
            0 <= k <= index <= lines@.len(),
            lines_wf(src@, lines@),
            prev_nonempty_from(src@, lines@, index as int) == prev_nonempty_from(src@, lines@, k as int),
        decreases k,
    {
        let c = trim_chars(text_of(src, &lines[k - 1]));
        if c.len() > 0 {
            return Some(c);
        }
        k = k - 1;
    }
    None
}

/// The content of the closest non-blank line after line `index`.
pub fn next_nonempty_content<'a>(src: &'a [char], lines: &[SourceLine], index: usize) -> (res: Option<
    &'a [char],
>)
    requires
        lines_wf(src@, lines@),
        index < lines@.len(),
    ensures
        res matches Some(c) ==> next_nonempty_from(src@, lines@, index + 1) == Some(c@),
        res is None ==> next_nonempty_from(src@, lines@, index + 1) is None,
{
    let n = lines.len();
    let mut k: usize = index + 1;
    while k < n
        invariant
            index + 1 <= k <= lines@.len(),
            n == lines@.len(),
            lines_wf(src@, lines@),
            next_nonempty_from(src@, lines@, index + 1) == next_nonempty_from(src@, lines@, k as int),
        decreases n - k,
    {
        let c = trim_chars(text_of(src, &lines[k]));
        if c.len() > 0 {
            return Some(c);
        }
        k = k + 1;
    }
    None
}

/// Index of the first character at or after `i` that is not ASCII whitespace.
pub open spec fn skip_ascii_ws_from(t: Seq<char>, i: int) -> int
    decreases t.len() - i,
{
    if 0 <= i < t.len() && is_ascii_ws(t[i]) {
        skip_ascii_ws_from(t, i + 1)
    } else {
        i
    }
}

/// The number of ASCII whitespace characters that a text starts with.
pub open spec fn indent_of(t: Seq<char>) -> int {
    skip_ascii_ws_from(t, 0)
}

pub proof fn lemma_skip_ascii_ws_bounds(t: Seq<char>, i: int)
    requires
        0 <= i <= t.len(),
    ensures
        i <= skip_ascii_ws_from(t, i) <= t.len(),
    decreases t.len() - i,
{
    if i < t.len() && is_ascii_ws(t[i]) {
        lemma_skip_ascii_ws_bounds(t, i + 1);
    }
}

/// The number of ASCII whitespace characters that a line starts with.
pub fn leading_indent(text: &[char]) -> (n: usize)
    ensures
        n == indent_of(text@),
        n <= text@.len(),
{
    let mut i: usize = 0;
    while i < text.len() && is_ascii_ws(text[i])
        invariant
            0 <= i <= text.len(),
            skip_ascii_ws_from(text@, 0) == skip_ascii_ws_from(text@, i as int),
        decreases text.len() - i,
    {
        i = i + 1;
    }
    i
}

/// The extra indentation level of a line that continues the one above it: one
/// level when it is indented deeper than a line ending in `=` or `:`, or than a
/// bare `if`, `else if`, `while`, `match` or `return` that it continues with
/// `(` or `{`.
pub open spec fn continuation_indent(src: Seq<char>, lines: Seq<SourceLine>, index: int, content: Seq<char>) -> int {
    if index == 0 {
        0
    } else {
        let previous = trim(line_text(src, lines[index - 1]));
        let current_indent = indent_of(line_text(src, lines[index]));
        let previous_indent = indent_of(line_text(src, lines[index - 1]));
        if current_indent <= previous_indent {
            0
        } else if ends_with_char(previous, '=') || ends_with_char(previous, ':') {
            1
        } else if (previous == "if"@ || previous == "else if"@ || previous == "while"@ || previous
            == "match"@ || previous == "return"@) && (starts_with_char(content, '(')
            || starts_with_char(content, '{')) {
            1
        } else {
            0
        }
    }
}

pub fn continuation_indent_level(src: &[char], lines: &[SourceLine], index: usize, content: &[char]) -> (level: usize)
    requires
        lines_wf(src@, lines@),
        index < lines@.len(),
    ensures
        level == continuation_indent(src@, lines@, index as int, content@),
        level <= 1,
{
    if index == 0 {
        return 0;
    }
    let previous = trim_chars(text_of(src, &lines[index - 1]));
    let current_indent = leading_indent(text_of(src, &lines[index]));
    let previous_indent = leading_indent(text_of(src, &lines[index - 1]));
    if current_indent <= previous_indent {
        return 0;
    }
    if last_is(previous, '=') || last_is(previous, ':') {
        return 1;
    }
    if (text_eq(previous, &chars_of("if")) || text_eq(previous, &chars_of("else if")) || text_eq(
        previous,
        &chars_of("while"),
    ) || text_eq(previous, &chars_of("match")) || text_eq(previous, &chars_of("return")))
        && (first_is(content, '(') || first_is(content, '{')) {
        return 1;
    }
    0
}

} // verus!
