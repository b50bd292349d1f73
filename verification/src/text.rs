//! Character and byte classification used by the filters.

use vstd::prelude::*;

verus! {

/// A byte that the scanner keeps: an ASCII graphic character or a space.
pub open spec fn is_printable_byte(b: u8) -> bool {
    0x20 <= b && b <= 0x7e
}

pub fn printable_byte(b: u8) -> (r: bool)
    ensures
        r == is_printable_byte(b),
{
    b >= 0x20 && b <= 0x7e
}

pub open spec fn is_ascii_digit_char(c: char) -> bool {
    '0' <= c && c <= '9'
}

pub fn ascii_digit(c: char) -> (r: bool)
    ensures
        r == is_ascii_digit_char(c),
{
    c >= '0' && c <= '9'
}

pub open spec fn is_ascii_alpha_char(c: char) -> bool {
    ('a' <= c && c <= 'z') || ('A' <= c && c <= 'Z')
}

pub fn ascii_alpha(c: char) -> (r: bool)
    ensures
        r == is_ascii_alpha_char(c),
{
    (c >= 'a' && c <= 'z') || (c >= 'A' && c <= 'Z')
}

pub open spec fn is_ascii_hex_char(c: char) -> bool {
    is_ascii_digit_char(c) || ('a' <= c && c <= 'f') || ('A' <= c && c <= 'F')
}

pub fn ascii_hex(c: char) -> (r: bool)
    ensures
        r == is_ascii_hex_char(c),
{
    (c >= '0' && c <= '9') || (c >= 'a' && c <= 'f') || (c >= 'A' && c <= 'F')
}

/// A vowel, in either case (`y` counts as a vowel).
pub open spec fn is_vowel_char(c: char) -> bool {
    c == 'a' || c == 'e' || c == 'i' || c == 'o' || c == 'u' || c == 'y'
    || c == 'A' || c == 'E' || c == 'I' || c == 'O' || c == 'U' || c == 'Y'
}

pub fn is_vowel(c: char) -> (r: bool)
    ensures
        r == is_vowel_char(c),
{
    c == 'a' || c == 'e' || c == 'i' || c == 'o' || c == 'u' || c == 'y'
    || c == 'A' || c == 'E' || c == 'I' || c == 'O' || c == 'U' || c == 'Y'
}


/// Whether `needle` occurs as a contiguous run of `hay`.
pub open spec fn contains_bytes(hay: Seq<u8>, needle: Seq<u8>) -> bool {
    exists|i: int| 0 <= i && i + needle.len() <= hay.len() && #[trigger] hay.subrange(i, i + needle.len()) == needle
}

/// Whether `needle` occurs in `hay` starting at byte `i`.
pub open spec fn occurs_at(hay: Seq<u8>, needle: Seq<u8>, i: int) -> bool {
    0 <= i && i + needle.len() <= hay.len() && hay.subrange(i, i + needle.len()) == needle
}

fn occurs_at_exec(hay: &[u8], needle: &[u8], i: usize) -> (r: bool)
    requires
        i + needle.len() <= hay.len(),
    ensures
        r == occurs_at(hay@, needle@, i as int),
{
    let mut k: usize = 0;
    while k < needle.len()
        invariant
            i + needle.len() <= hay.len(),
            k <= needle@.len(),
            forall|j: int| 0 <= j < k ==> hay@[i + j] == needle@[j],
        decreases needle.len() - k,
    {
        if hay[i + k] != needle[k] {
            assert(hay@.subrange(i as int, i + needle@.len())[k as int] != needle@[k as int]);
            return false;
        }
        k = k + 1;
    }
    assert(hay@.subrange(i as int, i + needle@.len()) =~= needle@);
    true
}

/// Substring search on bytes (what `str::contains` does on the UTF-8 encoding).
pub fn bytes_contain(hay: &[u8], needle: &[u8]) -> (r: bool)
    ensures
        r == contains_bytes(hay@, needle@),
{
    if needle.len() == 0 {
        assert(hay@.subrange(0int, 0int + needle@.len()) =~= needle@);
        return true;
    }
    if needle.len() > hay.len() {
        return false;
    }
    let positions = hay.len() - needle.len() + 1;
    let mut i: usize = 0;
    while i < positions
        invariant
            positions == hay@.len() - needle@.len() + 1,
            1 <= needle@.len() <= hay@.len(),
            i <= positions,
            forall|j: int| 0 <= j < i ==> !occurs_at(hay@, needle@, j),
        decreases positions - i,
    {
        if occurs_at_exec(hay, needle, i) {
            return true;
        }
        i = i + 1;
    }
    assert forall|j: int| 0 <= j && j + needle@.len() <= hay@.len()
        implies #[trigger] hay@.subrange(j, j + needle@.len()) != needle@ by {
        assert(!occurs_at(hay@, needle@, j));
    }
    false
}

// ---- Unicode classification, as std defines it ----

/// What `char::is_alphanumeric` returns for `c` (Unicode Alphabetic or Numeric).
pub uninterp spec fn unicode_alphanumeric(c: char) -> bool;

/// What `char::is_lowercase` returns for `c` (Unicode Lowercase property).
pub uninterp spec fn unicode_lowercase(c: char) -> bool;

/// What `char::is_uppercase` returns for `c` (Unicode Uppercase property).
pub uninterp spec fn unicode_uppercase(c: char) -> bool;

/// What `str::to_lowercase` returns for a string (Unicode lowercase mapping).
pub uninterp spec fn lowercase(s: Seq<char>) -> Seq<char>;

/// A character of the ASCII range.
pub open spec fn is_ascii_char(c: char) -> bool {
    (c as u32) < 0x80
}

/// Every character of the string is ASCII.
pub open spec fn all_ascii(s: Seq<char>) -> bool {
    forall|i: int| 0 <= i < s.len() ==> #[trigger] is_ascii_char(s[i])
}

/// The string with `A`..`Z` turned into `a`..`z`, every other character kept.
pub open spec fn ascii_lower(s: Seq<char>) -> Seq<char> {
    Seq::new(s.len(), |i: int| if 'A' <= s[i] && s[i] <= 'Z' { ((s[i] as u32) + 32) as char } else { s[i] })
}

/// The string with `a`..`z` turned into `A`..`Z`, every other character kept.
pub open spec fn ascii_upper(s: Seq<char>) -> Seq<char> {
    Seq::new(s.len(), |i: int| if 'a' <= s[i] && s[i] <= 'z' { ((s[i] as u32) - 32) as char } else { s[i] })
}

/// Calls `char::is_alphanumeric`; the result is named `unicode_alphanumeric`.
/// On ASCII the Alphabetic and Numeric properties hold of the letters and
/// digits alone, and the contract says so.
#[verifier::external_body]
pub fn char_is_alphanumeric(c: char) -> (r: bool)
    ensures
        r == unicode_alphanumeric(c),
        is_ascii_char(c) ==> (r == (is_ascii_alpha_char(c) || is_ascii_digit_char(c))),
{
    c.is_alphanumeric()
}

/// Calls `char::is_lowercase`; the result is named `unicode_lowercase`.
/// On ASCII it holds of `a`..`z` alone.
#[verifier::external_body]
pub fn char_is_lowercase(c: char) -> (r: bool)
    ensures
        r == unicode_lowercase(c),
        is_ascii_char(c) ==> (r == ('a' <= c && c <= 'z')),
{
    c.is_lowercase()
}

/// Calls `char::is_uppercase`; the result is named `unicode_uppercase`.
/// On ASCII it holds of `A`..`Z` alone.
#[verifier::external_body]
pub fn char_is_uppercase(c: char) -> (r: bool)
    ensures
        r == unicode_uppercase(c),
        is_ascii_char(c) ==> (r == ('A' <= c && c <= 'Z')),
{
    c.is_uppercase()
}

/// Calls `str::to_lowercase`; the result is named `lowercase`. On a string of
/// ASCII characters it lowercases the letters and keeps the rest (std's
/// `to_ascii_lowercase` documents this as the ASCII part of `to_lowercase`).
#[verifier::external_body]
pub fn to_lowercase(s: &str) -> (r: String)
    ensures
        r@ == lowercase(s@),
        all_ascii(s@) ==> r@ == ascii_lower(s@),
{
    s.to_lowercase()
}

/// A character of the Unicode White_Space property: what `char::is_whitespace`
/// and `str::trim` take for white space.
pub open spec fn is_white_space(c: char) -> bool {
    ('\u{9}' <= c && c <= '\u{d}') || c == ' ' || c == '\u{85}' || c == '\u{a0}' || c == '\u{1680}'
    || ('\u{2000}' <= c && c <= '\u{200a}') || c == '\u{2028}' || c == '\u{2029}' || c == '\u{202f}'
    || c == '\u{205f}' || c == '\u{3000}'
}

pub fn white_space(c: char) -> (r: bool)
    ensures
        r == is_white_space(c),
{
    (c >= '\u{9}' && c <= '\u{d}') || c == ' ' || c == '\u{85}' || c == '\u{a0}' || c == '\u{1680}'
    || (c >= '\u{2000}' && c <= '\u{200a}') || c == '\u{2028}' || c == '\u{2029}' || c == '\u{202f}'
    || c == '\u{205f}' || c == '\u{3000}'
}

/// The string without its leading white space.
pub open spec fn trim_start(s: Seq<char>) -> Seq<char>
    decreases s.len(),
{
    if s.len() > 0 && is_white_space(s[0]) {
        trim_start(s.drop_first())
    } else {
        s
    }
}

/// The string without its trailing white space.
pub open spec fn trim_end(s: Seq<char>) -> Seq<char>
    decreases s.len(),
{
    if s.len() > 0 && is_white_space(s.last()) {
        trim_end(s.drop_last())
    } else {
        s
    }
}

/// The string without white space at either end, as `str::trim` gives it.
pub open spec fn trimmed(s: Seq<char>) -> Seq<char> {
    trim_end(trim_start(s))
}

/// What `str::trim` does: the string without white space at either end.
pub fn trim(s: &str) -> (r: &str)
    ensures
        r@ == trimmed(s@),
{
    let cs = chars_of(s);
    let n = cs.len();
    let mut a: usize = 0;
    assert(s@.subrange(0, n as int) =~= s@);
    while a < n && white_space(cs[a])
        invariant
            cs@ == s@,
            n == s@.len(),
            a <= n,
            trim_start(s@) == trim_start(s@.subrange(a as int, n as int)),
        decreases n - a,
    {
        assert(s@.subrange(a as int, n as int).drop_first() =~= s@.subrange(a + 1, n as int));
        a = a + 1;
    }
    assert(trim_start(s@) == s@.subrange(a as int, n as int));
    let mut b: usize = n;
    while b > a && white_space(cs[b - 1])
        invariant
            cs@ == s@,
            n == s@.len(),
            a <= b <= n,
            trimmed(s@) == trim_end(s@.subrange(a as int, b as int)),
        decreases b - a,
    {
        assert(s@.subrange(a as int, b as int).drop_last() =~= s@.subrange(a as int, b - 1));
        b = b - 1;
    }
    assert(trimmed(s@) == s@.subrange(a as int, b as int));
    s.substring_char(a, b)
}

/// The characters of `s`, in order (`str::chars`, collected).
pub fn chars_of(s: &str) -> (r: Vec<char>)
    ensures
        r@ == s@,
{
    broadcast use vstd::string::axiom_spec_iter;
    let mut r: Vec<char> = Vec::new();
    for c in it: s.chars()
        invariant
            r@.len() == it.index(),
            forall|i: int| 0 <= i < r@.len() ==> r@[i] == it.seq()[i],
    {
        r.push(c);
    }
    assert(r@ =~= s@);
    r
}

/// The length in bytes of the UTF-8 encoding of a string.
pub open spec fn byte_len(s: Seq<char>) -> nat {
    vstd::utf8::encode_utf8(s).len()
}

proof fn lemma_trim_start(s: Seq<char>) -> (a: int)
    ensures
        0 <= a <= s.len(),
        trim_start(s) == s.subrange(a, s.len() as int),
        forall|i: int| 0 <= i < a ==> is_white_space(#[trigger] s[i]),
        a < s.len() ==> !is_white_space(s[a]),
    decreases s.len(),
{
    if s.len() > 0 && is_white_space(s[0]) {
        let a = lemma_trim_start(s.drop_first());
        assert(s.drop_first().subrange(a, s.drop_first().len() as int) =~= s.subrange(a + 1, s.len() as int));
        assert forall|i: int| 0 <= i < a + 1 implies is_white_space(#[trigger] s[i]) by {
            if i > 0 {
                assert(s[i] == s.drop_first()[i - 1]);
            }
        }
        a + 1
    } else {
        assert(s.subrange(0, s.len() as int) =~= s);
        0
    }
}

proof fn lemma_trim_end(s: Seq<char>) -> (b: int)
    ensures
        0 <= b <= s.len(),
        trim_end(s) == s.subrange(0, b),
        forall|i: int| b <= i < s.len() ==> is_white_space(#[trigger] s[i]),
        b > 0 ==> !is_white_space(s[b - 1]),
    decreases s.len(),
{
    if s.len() > 0 && is_white_space(s.last()) {
        let b = lemma_trim_end(s.drop_last());
        assert(s.drop_last().subrange(0, b) =~= s.subrange(0, b));
        assert forall|i: int| b <= i < s.len() implies is_white_space(#[trigger] s[i]) by {
            if i < s.len() - 1 {
                assert(s[i] == s.drop_last()[i]);
            }
        }
        b
    } else {
        assert(s.subrange(0, s.len() as int) =~= s);
        s.len() as int
    }
}

/// `trim` cuts white space at both ends and nothing else: the result is a
/// contiguous part of the string, everything cut before and after it is
/// white space (tab to carriage return, space, U+0085, U+00A0, U+1680,
/// U+2000 to U+200A, U+2028, U+2029, U+202F, U+205F, U+3000), and a result
/// that is not empty starts and ends with a character that is not.
pub proof fn law_trim_cuts_white_space_at_the_ends(s: Seq<char>) -> (a: int)
    ensures
        0 <= a && a + trimmed(s).len() <= s.len(),
        trimmed(s) == s.subrange(a, a + trimmed(s).len()),
        forall|i: int| 0 <= i < s.len() && !(a <= i < a + trimmed(s).len()) ==> {
            let c = #[trigger] s[i];
            ('\u{9}' <= c && c <= '\u{d}') || c == ' ' || c == '\u{85}' || c == '\u{a0}' || c == '\u{1680}'
            || ('\u{2000}' <= c && c <= '\u{200a}') || c == '\u{2028}' || c == '\u{2029}' || c == '\u{202f}'
            || c == '\u{205f}' || c == '\u{3000}'
        },
        forall|i: int| (i == 0 || i == trimmed(s).len() - 1) && 0 <= i < trimmed(s).len() ==> {
            let c = #[trigger] trimmed(s)[i];
            !(('\u{9}' <= c && c <= '\u{d}') || c == ' ' || c == '\u{85}' || c == '\u{a0}' || c == '\u{1680}'
            || ('\u{2000}' <= c && c <= '\u{200a}') || c == '\u{2028}' || c == '\u{2029}' || c == '\u{202f}'
            || c == '\u{205f}' || c == '\u{3000}')
        },
{
    let a = lemma_trim_start(s);
    let u = s.subrange(a, s.len() as int);
    let b = lemma_trim_end(u);
    let t = trimmed(s);
    assert(t == u.subrange(0, b));
    assert(u.subrange(0, b) =~= s.subrange(a, a + b));
    assert forall|i: int| 0 <= i < s.len() && !(a <= i < a + t.len()) implies is_white_space(#[trigger] s[i]) by {
        if i >= a + t.len() {
            assert(s[i] == u[i - a]);
        }
    }
    assert forall|i: int| (i == 0 || i == t.len() - 1) && 0 <= i < t.len() implies !is_white_space(#[trigger] t[i]) by {
        assert(t[i] == u[i]);
        if i == 0 {
            assert(u[0] == s[a]);
        }
    }
    a
}

} // verus!
