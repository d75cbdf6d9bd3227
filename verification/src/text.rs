//! Character-level text helpers shared by the formatters.
//!
//! Texts are handled as sequences of `char`s: a `str` is turned into a
//! `Vec<char>` once, worked on as slices of it, and turned back into a
//! `String` once.
use vstd::prelude::*;

verus! {

/// ASCII whitespace, as `char::is_ascii_whitespace` defines it.
#[verifier::allow_in_spec]
pub fn is_ascii_ws(c: char) -> bool
    returns
        c == ' ' || c == '\t' || c == '\n' || c == '\x0C' || c == '\r',
{
    c == ' ' || c == '\t' || c == '\n' || c == '\x0C' || c == '\r'
}

/// Characters with the Unicode `White_Space` property, as `char::is_whitespace`
/// defines them; `str::trim` and its relatives strip these.
#[verifier::allow_in_spec]
pub fn is_unicode_ws(c: char) -> bool
    returns
        ('\t' <= c && c <= '\r') || c == ' ' || c == '\u{85}' || c == '\u{A0}' || c == '\u{1680}'
            || ('\u{2000}' <= c && c <= '\u{200A}') || c == '\u{2028}' || c == '\u{2029}'
            || c == '\u{202F}' || c == '\u{205F}' || c == '\u{3000}',
{
    ('\t' <= c && c <= '\r') || c == ' ' || c == '\u{85}' || c == '\u{A0}' || c == '\u{1680}'
        || ('\u{2000}' <= c && c <= '\u{200A}') || c == '\u{2028}' || c == '\u{2029}'
        || c == '\u{202F}' || c == '\u{205F}' || c == '\u{3000}'
}

/// `char::is_ascii_alphabetic`.
#[verifier::allow_in_spec]
pub fn is_ascii_alpha(c: char) -> bool
    returns
        ('a' <= c && c <= 'z') || ('A' <= c && c <= 'Z'),
{
    ('a' <= c && c <= 'z') || ('A' <= c && c <= 'Z')
}

/// `char::is_ascii_alphanumeric`.
#[verifier::allow_in_spec]
pub fn is_ascii_alnum(c: char) -> bool
    returns
        ('a' <= c && c <= 'z') || ('A' <= c && c <= 'Z') || ('0' <= c && c <= '9'),
{
    ('a' <= c && c <= 'z') || ('A' <= c && c <= 'Z') || ('0' <= c && c <= '9')
}

/// Index of the first character at or after `i` that is not Unicode whitespace.
pub open spec fn skip_ws_from(s: Seq<char>, i: int) -> int
    decreases s.len() - i,
{
    if 0 <= i < s.len() && is_unicode_ws(s[i]) {
        skip_ws_from(s, i + 1)
    } else {
        i
    }
}

/// End of `s.take(j)` once its trailing Unicode whitespace is dropped.
pub open spec fn trim_ws_end_from(s: Seq<char>, j: int) -> int
    decreases j,
{
    if 0 < j <= s.len() && is_unicode_ws(s[j - 1]) {
        trim_ws_end_from(s, j - 1)
    } else {
        j
    }
}

/// `str::trim_start`.
pub open spec fn trim_start(s: Seq<char>) -> Seq<char> {
    s.skip(skip_ws_from(s, 0))
}

/// `str::trim_end`.
pub open spec fn trim_end(s: Seq<char>) -> Seq<char> {
    s.take(trim_ws_end_from(s, s.len() as int))
}

/// `str::trim`.
pub open spec fn trim(s: Seq<char>) -> Seq<char> {
    trim_start(trim_end(s))
}

pub proof fn lemma_skip_ws_bounds(s: Seq<char>, i: int)
    requires
        0 <= i <= s.len(),
    ensures
        i <= skip_ws_from(s, i) <= s.len(),
        skip_ws_from(s, i) < s.len() ==> !is_unicode_ws(s[skip_ws_from(s, i)]),
        forall|k: int| i <= k < skip_ws_from(s, i) ==> is_unicode_ws(#[trigger] s[k]),
    decreases s.len() - i,
{
    if i < s.len() && is_unicode_ws(s[i]) {
        lemma_skip_ws_bounds(s, i + 1);
    }
}

pub proof fn lemma_trim_ws_end_bounds(s: Seq<char>, j: int)
    requires
        0 <= j <= s.len(),
    ensures
        0 <= trim_ws_end_from(s, j) <= j,
        trim_ws_end_from(s, j) > 0 ==> !is_unicode_ws(s[trim_ws_end_from(s, j) - 1]),
        forall|k: int| trim_ws_end_from(s, j) <= k < j ==> is_unicode_ws(#[trigger] s[k]),
    decreases j,
{
    if 0 < j && is_unicode_ws(s[j - 1]) {
        lemma_trim_ws_end_bounds(s, j - 1);
    }
}

/// A text that holds nothing but Unicode whitespace trims to nothing.
pub proof fn lemma_trim_empty_iff(s: Seq<char>)
    ensures
        trim(s).len() == 0 <==> forall|k: int| 0 <= k < s.len() ==> is_unicode_ws(#[trigger] s[k]),
        trim_start(s).len() == 0 <==> trim(s).len() == 0,
        trim_end(s).len() == 0 <==> trim(s).len() == 0,
{
    lemma_skip_ws_bounds(s, 0);
    lemma_trim_ws_end_bounds(s, s.len() as int);
    let e = trim_end(s);
    lemma_skip_ws_bounds(e, 0);
    if trim(s).len() == 0 {
        assert forall|k: int| 0 <= k < s.len() implies is_unicode_ws(#[trigger] s[k]) by {
            if k < trim_ws_end_from(s, s.len() as int) {
                assert(e[k] == s[k]);
            }
        }
    }
    if trim_start(s).len() == 0 {
        assert forall|k: int| 0 <= k < e.len() implies is_unicode_ws(#[trigger] e[k]) by {
            assert(e[k] == s[k]);
        }
        lemma_all_ws_skip(e, 0);
    }
    if forall|k: int| 0 <= k < s.len() ==> is_unicode_ws(#[trigger] s[k]) {
        lemma_all_ws_trim_end(s, s.len() as int);
        lemma_all_ws_skip(s, 0);
    }
}

proof fn lemma_all_ws_skip(s: Seq<char>, i: int)
    requires
        0 <= i <= s.len(),
        forall|k: int| 0 <= k < s.len() ==> is_unicode_ws(#[trigger] s[k]),
    ensures
        skip_ws_from(s, i) == s.len(),
    decreases s.len() - i,
{
    if i < s.len() {
        lemma_all_ws_skip(s, i + 1);
    }
}

proof fn lemma_all_ws_trim_end(s: Seq<char>, j: int)
    requires
        0 <= j <= s.len(),
        forall|k: int| 0 <= k < s.len() ==> is_unicode_ws(#[trigger] s[k]),
    ensures
        trim_ws_end_from(s, j) == 0,
    decreases j,
{
    if j > 0 {
        lemma_all_ws_trim_end(s, j - 1);
    }
}

/// `str::trim_start` on a slice of characters.
pub fn trim_start_chars(s: &[char]) -> (res: &[char])
    ensures
        res@ == trim_start(s@),
{
    let mut i: usize = 0;
    while i < s.len() && is_unicode_ws(s[i])
        invariant
            0 <= i <= s.len(),
            skip_ws_from(s@, 0) == skip_ws_from(s@, i as int),
        decreases s.len() - i,
    {
        i = i + 1;
    }
    &s[i..s.len()]
}

/// `str::trim_end` on a slice of characters.
pub fn trim_end_chars(s: &[char]) -> (res: &[char])
    ensures
        res@ == trim_end(s@),
{
    let mut j: usize = s.len();
    while j > 0 && is_unicode_ws(s[j - 1])
        invariant
            0 <= j <= s.len(),
            trim_ws_end_from(s@, s@.len() as int) == trim_ws_end_from(s@, j as int),
        decreases j,
    {
        j = j - 1;
    }
    &s[0..j]
}

/// `str::trim` on a slice of characters.
pub fn trim_chars(s: &[char]) -> (res: &[char])
    ensures
        res@ == trim(s@),
{
    trim_start_chars(trim_end_chars(s))
}

/// Whether `p` occurs in `s` starting at index `i`.
pub open spec fn occurs_at(s: Seq<char>, p: Seq<char>, i: int) -> bool {
    0 <= i && i + p.len() <= s.len() && s.subrange(i, i + p.len()) == p
}

/// `str::contains` with a string pattern.
pub open spec fn contains_text(s: Seq<char>, p: Seq<char>) -> bool {
    exists|i: int| occurs_at(s, p, i)
}

/// `str::starts_with` with a single character.
pub open spec fn starts_with_char(s: Seq<char>, c: char) -> bool {
    s.len() > 0 && s[0] == c
}

/// `str::ends_with` with a single character.
pub open spec fn ends_with_char(s: Seq<char>, c: char) -> bool {
    s.len() > 0 && s.last() == c
}

pub fn first_is(s: &[char], c: char) -> (b: bool)
    ensures
        b == starts_with_char(s@, c),
{
    s.len() > 0 && s[0] == c
}

pub fn last_is(s: &[char], c: char) -> (b: bool)
    ensures
        b == ends_with_char(s@, c),
{
    s.len() > 0 && s[s.len() - 1] == c
}

/// `str::starts_with` with a string pattern.
pub fn starts_with_text(s: &[char], p: &[char]) -> (b: bool)
    ensures
        b == p@.is_prefix_of(s@),
{
    if p.len() > s.len() {
        return false;
    }
    let mut i: usize = 0;
    while i < p.len()
        invariant
            p.len() <= s.len(),
            0 <= i <= p.len(),
            forall|k: int| 0 <= k < i ==> s@[k] == p@[k],
        decreases p.len() - i,
    {
        if s[i] != p[i] {
            return false;
        }
        i = i + 1;
    }
    assert(p@ =~= s@.subrange(0, p@.len() as int));
    true
}

/// `str::ends_with` with a string pattern.
pub fn ends_with_text(s: &[char], p: &[char]) -> (b: bool)
    ensures
        b == p@.is_suffix_of(s@),
{
    if p.len() > s.len() {
        return false;
    }
    let off = s.len() - p.len();
    let mut i: usize = 0;
    while i < p.len()
        invariant
            p.len() <= s.len(),
            off == s.len() - p.len(),
            0 <= i <= p.len(),
            forall|k: int| 0 <= k < i ==> s@[off + k] == p@[k],
        decreases p.len() - i,
    {
        if s[off + i] != p[i] {
            assert(s@.subrange(off as int, s@.len() as int)[i as int] == s@[off + i]);
            return false;
        }
        i = i + 1;
    }
    assert(p@ =~= s@.subrange(off as int, s@.len() as int));
    true
}

/// Whether two texts are equal.
pub fn text_eq(s: &[char], p: &[char]) -> (b: bool)
    ensures
        b == (s@ == p@),
{
    if s.len() != p.len() {
        return false;
    }
    let r = starts_with_text(s, p);
    proof {
        if r {
            assert(s@ =~= p@);
        }
    }
    r
}

/// `str::contains` with a string pattern.
pub fn contains_chars(s: &[char], p: &[char]) -> (b: bool)
    ensures
        b == contains_text(s@, p@),
{
    if p.len() > s.len() {
        return false;
    }
    let mut i: usize = 0;
    while i <= s.len() - p.len()
        invariant
            p.len() <= s.len(),
            0 <= i <= s.len() - p.len() + 1,
            forall|k: int| 0 <= k < i ==> !occurs_at(s@, p@, k),
        decreases s.len() - p.len() + 1 - i,
    {
        if starts_with_text(&s[i..s.len()], p) {
            assert(s@.subrange(i as int, s@.len() as int).subrange(0, p@.len() as int) =~= s@.subrange(
                i as int,
                i + p@.len(),
            ));
            assert(occurs_at(s@, p@, i as int));
            return true;
        }
        assert(s@.subrange(i as int, s@.len() as int).subrange(0, p@.len() as int) =~= s@.subrange(
            i as int,
            i + p@.len(),
        ));
        i = i + 1;
    }
    false
}

/// `str::contains` with a single character.
pub fn contains_char(s: &[char], c: char) -> (b: bool)
    ensures
        b == s@.contains(c),
{
    let mut i: usize = 0;
    while i < s.len()
        invariant
            0 <= i <= s.len(),
            forall|k: int| 0 <= k < i ==> s@[k] != c,
        decreases s.len() - i,
    {
        if s[i] == c {
            return true;
        }
        i = i + 1;
    }
    false
}

/// Number of bytes that the UTF-8 encoding of `c` takes.
pub open spec fn char_width(c: char) -> nat {
    if (c as u32) < 0x80 {
        1
    } else if (c as u32) < 0x800 {
        2
    } else if (c as u32) < 0x10000 {
        3
    } else {
        4
    }
}

/// Length in bytes of the UTF-8 encoding of a text, which is what `str::len` counts.
pub open spec fn byte_len(s: Seq<char>) -> nat
    decreases s.len(),
{
    if s.len() == 0 {
        0
    } else {
        byte_len(s.drop_last()) + char_width(s.last())
    }
}

pub fn char_byte_width(c: char) -> (w: u8)
    ensures
        w == char_width(c),
{
    let u = c as u32;
    if u < 0x80 {
        1
    } else if u < 0x800 {
        2
    } else if u < 0x10000 {
        3
    } else {
        4
    }
}

pub proof fn lemma_byte_len_take_step(s: Seq<char>, i: int)
    requires
        0 <= i < s.len(),
    ensures
        byte_len(s.take(i + 1)) == byte_len(s.take(i)) + char_width(s[i]),
{
    assert(s.take(i + 1).drop_last() =~= s.take(i));
}

pub proof fn lemma_byte_len_bounds(s: Seq<char>)
    ensures
        s.len() <= byte_len(s) <= 4 * s.len(),
    decreases s.len(),
{
    if s.len() > 0 {
        lemma_byte_len_bounds(s.drop_last());
    }
}

/// A prefix takes no more bytes than the whole text, and the text no fewer
/// bytes than characters.
pub proof fn lemma_byte_len_take_le(s: Seq<char>, i: int)
    requires
        0 <= i <= s.len(),
    ensures
        byte_len(s.take(i)) <= byte_len(s),
        s.len() <= byte_len(s),
{
    lemma_byte_len_bounds(s);
    if i < s.len() {
        lemma_byte_len_prefix_strict(s, i, s.len() as int);
    }
    assert(s.take(s.len() as int) =~= s);
}

/// `str::len`: the length in bytes of a string's UTF-8 encoding.
///
/// Trusted: std documents `str::len` as the length of the string in bytes,
/// which for valid UTF-8 is the sum over its characters of `char::len_utf8`,
/// the widths that `byte_len` adds up.
#[verifier::external_body]
pub fn str_byte_len(s: &str) -> (n: usize)
    ensures
        n == byte_len(s@),
{
    s.len()
}

/// Byte offsets of character positions grow strictly with the position.
pub proof fn lemma_byte_len_prefix_strict(s: Seq<char>, i: int, j: int)
    requires
        0 <= i < j <= s.len(),
    ensures
        byte_len(s.take(i)) < byte_len(s.take(j)),
    decreases j - i,
{
    lemma_byte_len_take_step(s, j - 1);
    if i < j - 1 {
        lemma_byte_len_prefix_strict(s, i, j - 1);
    }
}

pub proof fn lemma_trim_len(s: Seq<char>)
    ensures
        trim(s).len() <= trim_end(s).len() <= s.len(),
        trim_start(s).len() <= s.len(),
{
    lemma_trim_ws_end_bounds(s, s.len() as int);
    lemma_skip_ws_bounds(s, 0);
    lemma_skip_ws_bounds(trim_end(s), 0);
}

/// `str::len` of a text: the length in bytes of its UTF-8 encoding.
pub fn utf8_len(s: &[char]) -> (n: u128)
    ensures
        n == byte_len(s@),
        n <= 4 * (usize::MAX as int),
{
    let mut n: u128 = 0;
    let mut i: usize = 0;
    while i < s.len()
        invariant
            0 <= i <= s.len(),
            n == byte_len(s@.take(i as int)),
            n <= 4 * i,
        decreases s.len() - i,
    {
        proof {
            lemma_byte_len_take_step(s@, i as int);
        }
        n = n + char_byte_width(s[i]) as u128;
        i = i + 1;
    }
    assert(s@.take(s@.len() as int) =~= s@);
    n
}

/// Appends a text to a growing text.
pub fn push_chars(out: &mut Vec<char>, s: &[char])
    ensures
        final(out)@ == old(out)@ + s@,
{
    let mut i: usize = 0;
    while i < s.len()
        invariant
            0 <= i <= s.len(),
            out@ == old(out)@ + s@.take(i as int),
        decreases s.len() - i,
    {
        out.push(s[i]);
        proof {
            assert(s@.take(i + 1) =~= s@.take(i as int).push(s@[i as int]));
        }
        i = i + 1;
    }
    assert(s@.take(s@.len() as int) =~= s@);
}

/// `n` spaces, as `" ".repeat(n)` gives them.
pub open spec fn spaces(n: nat) -> Seq<char> {
    Seq::new(n, |k: int| ' ')
}

/// Appends `n` spaces to a growing text.
pub fn push_spaces(out: &mut Vec<char>, n: usize)
    ensures
        final(out)@ == old(out)@ + spaces(n as nat),
{
    let mut i: usize = 0;
    while i < n
        invariant
            0 <= i <= n,
            out@ == old(out)@ + spaces(i as nat),
        decreases n - i,
    {
        out.push(' ');
        proof {
            assert(spaces((i + 1) as nat) =~= spaces(i as nat).push(' '));
        }
        i = i + 1;
    }
}

/// Appends a character to a `String`: `String::push`, which std documents as
/// adding the character to the end of the string.
#[verifier::external_body]
fn push_to_string(s: &mut String, c: char)
    ensures
        final(s)@ == old(s)@.push(c),
{
    s.push(c);
}

/// The `String` holding the given characters.
pub fn string_of(chars: &[char]) -> (res: String)
    ensures
        res@ == chars@,
{
    let mut res = String::new();
    let mut i: usize = 0;
    while i < chars.len()
        invariant
            0 <= i <= chars.len(),
            res@ == chars@.take(i as int),
        decreases chars.len() - i,
    {
        push_to_string(&mut res, chars[i]);
        proof {
            assert(chars@.take(i + 1) =~= chars@.take(i as int).push(chars@[i as int]));
        }
        i = i + 1;
    }
    assert(chars@.take(chars@.len() as int) =~= chars@);
    res
}

/// Collects the characters of a string slice.
pub fn chars_of(s: &str) -> (res: Vec<char>)
    ensures
        res@ == s@,
{
    let mut res: Vec<char> = Vec::new();
    for c in it: s.chars()
        invariant
            res@ == it.seq().take(it.index() as int),
            it.seq() == s@,
    {
        res.push(c);
    }
    res
}

} // verus!
