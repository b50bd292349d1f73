//! The junk filter: does a string look like text rather than binary noise?

use vstd::prelude::*;
use crate::config::Config;
use crate::digram::{Digrams, is_likely_meaningful, likely_meaningful, lower_has_digram};
use crate::text::{
    all_ascii, ascii_alpha, ascii_digit, ascii_lower, byte_len, char_is_alphanumeric, chars_of,
    is_ascii_alpha_char, is_ascii_char, is_ascii_digit_char, is_vowel, is_vowel_char, unicode_alphanumeric,
};

verus! {

/// Every character is an ASCII digit.
pub open spec fn all_digits(s: Seq<char>) -> bool {
    forall|i: int| 0 <= i < s.len() ==> #[trigger] is_ascii_digit_char(s[i])
}

/// Some character is a vowel.
pub open spec fn has_vowel(s: Seq<char>) -> bool {
    exists|i: int| 0 <= i < s.len() && #[trigger] is_vowel_char(s[i])
}

/// A symbol: neither alphanumeric nor a space.
pub open spec fn is_symbol(c: char) -> bool {
    !unicode_alphanumeric(c) && c != ' '
}

pub open spec fn has_symbol(s: Seq<char>) -> bool {
    exists|i: int| 0 <= i < s.len() && #[trigger] is_symbol(s[i])
}

/// The number of symbols in `s`.
pub open spec fn count_symbols(s: Seq<char>) -> nat
    decreases s.len(),
{
    if s.len() == 0 {
        0
    } else {
        count_symbols(s.drop_last()) + if is_symbol(s.last()) { 1nat } else { 0nat }
    }
}

/// An ASCII character that is neither a letter, a digit nor a space: on ASCII
/// this is what `is_symbol` holds of.
pub open spec fn is_ascii_symbol(c: char) -> bool {
    !(is_ascii_alpha_char(c) || is_ascii_digit_char(c)) && c != ' '
}

/// The number of characters of `s` that are not ASCII letters, digits or spaces.
pub open spec fn count_ascii_symbols(s: Seq<char>) -> nat
    decreases s.len(),
{
    if s.len() == 0 {
        0
    } else {
        count_ascii_symbols(s.drop_last()) + if is_ascii_symbol(s.last()) { 1nat } else { 0nat }
    }
}

/// The number of ASCII letters in `s`.
pub open spec fn count_ascii_alpha(s: Seq<char>) -> nat
    decreases s.len(),
{
    if s.len() == 0 {
        0
    } else {
        count_ascii_alpha(s.drop_last()) + if is_ascii_alpha_char(s.last()) { 1nat } else { 0nat }
    }
}

/// The junk rules, given what they read of the string besides its
/// characters: whether it looks like natural language, whether it holds a
/// symbol and how many:
/// - with `no_number`, it is not made only of ASCII digits;
/// - with `mix_cons_voy`, it has a vowel;
/// - with `english_filter`, a string shorter than `rx_effective_length` bytes
///   looks like natural language;
/// - without `rx_symbole`, such a short string holds no symbol;
/// - a short string that holds symbols has at least as many ASCII letters as
///   its symbols plus a quarter of its length.
pub open spec fn passes_rules(s: Seq<char>, c: Config, meaningful: bool, symbol: bool, symbols: nat) -> bool {
    let len = byte_len(s);
    let short = len < c.rx_effective_length;
    &&& !(c.no_number && all_digits(s))
    &&& !(c.mix_cons_voy && !has_vowel(s))
    &&& !(c.english_filter && short && !meaningful)
    &&& !(!c.rx_symbole && short && symbol)
    &&& !(short && symbols > 0 && count_ascii_alpha(s) < symbols + len / 4)
}

/// Whether the string passes every enabled junk rule (see `passes_rules`).
pub open spec fn not_junk(s: Seq<char>, c: Config, d: Digrams) -> bool {
    passes_rules(s, c, likely_meaningful(s, d), has_symbol(s), count_symbols(s))
}

/// The same rules on a string of ASCII characters, with each class read the
/// ASCII way.
pub open spec fn not_junk_ascii(s: Seq<char>, c: Config, d: Digrams) -> bool {
    passes_rules(s, c, lower_has_digram(ascii_lower(s), d), count_ascii_symbols(s) > 0, count_ascii_symbols(s))
}

/// Counts of the character classes the filter reads.
pub struct CharCounts {
    pub all_digits: bool,
    pub has_vowel: bool,
    pub symbols: usize,
    pub ascii_alpha: usize,
}

/// Reads the character classes of `s` in one pass.
pub fn char_counts(s: &str) -> (r: CharCounts)
    ensures
        r.all_digits == all_digits(s@),
        r.has_vowel == has_vowel(s@),
        r.symbols == count_symbols(s@),
        r.ascii_alpha == count_ascii_alpha(s@),
        r.symbols > 0 <==> has_symbol(s@),
        all_ascii(s@) ==> r.symbols == count_ascii_symbols(s@),
{
    let cs = chars_of(s);
    let mut digits = true;
    let mut vowel = false;
    let mut symbols: usize = 0;
    let mut alpha: usize = 0;
    let mut i: usize = 0;
    while i < cs.len()
        invariant
            cs@ == s@,
            i <= cs@.len(),
            digits == all_digits(cs@.take(i as int)),
            vowel == has_vowel(cs@.take(i as int)),
            symbols == count_symbols(cs@.take(i as int)),
            alpha == count_ascii_alpha(cs@.take(i as int)),
            symbols <= i,
            alpha <= i,
            symbols > 0 <==> has_symbol(cs@.take(i as int)),
            all_ascii(s@) ==> symbols == count_ascii_symbols(cs@.take(i as int)),
        decreases cs@.len() - i,
    {
        let c = cs[i];
        let ghost pre = cs@.take(i as int);
        let ghost next = cs@.take(i + 1);
        assert(next.drop_last() =~= pre);
        assert(next.last() == c);
        let d = ascii_digit(c);
        let v = is_vowel(c);
        let a = char_is_alphanumeric(c);
        let al = ascii_alpha(c);
        proof {
            if all_ascii(s@) {
                assert(is_ascii_char(s@[i as int]));
            }
            assert(all_digits(next) == (all_digits(pre) && is_ascii_digit_char(c))) by {
                if all_digits(pre) && is_ascii_digit_char(c) {
                    assert forall|j: int| 0 <= j < next.len() implies #[trigger] is_ascii_digit_char(next[j]) by {
                        if j < pre.len() {
                            assert(next[j] == pre[j]);
                        }
                    }
                }
                if all_digits(next) {
                    assert forall|j: int| 0 <= j < pre.len() implies #[trigger] is_ascii_digit_char(pre[j]) by {
                        assert(next[j] == pre[j]);
                        assert(is_ascii_digit_char(next[j]));
                    }
                    assert(is_ascii_digit_char(next[i as int]));
                }
            }
            assert(has_vowel(next) == (has_vowel(pre) || is_vowel_char(c))) by {
                if has_vowel(pre) {
                    let j = choose|j: int| 0 <= j < pre.len() && #[trigger] is_vowel_char(pre[j]);
                    assert(next[j] == pre[j]);
                }
                if is_vowel_char(c) {
                    assert(is_vowel_char(next[i as int]));
                }
                if has_vowel(next) {
                    let j = choose|j: int| 0 <= j < next.len() && #[trigger] is_vowel_char(next[j]);
                    if j < pre.len() {
                        assert(pre[j] == next[j]);
                    }
                }
            }
            assert(has_symbol(next) == (has_symbol(pre) || is_symbol(c))) by {
                if has_symbol(pre) {
                    let j = choose|j: int| 0 <= j < pre.len() && #[trigger] is_symbol(pre[j]);
                    assert(next[j] == pre[j]);
                }
                if is_symbol(c) {
                    assert(is_symbol(next[i as int]));
                }
                if has_symbol(next) {
                    let j = choose|j: int| 0 <= j < next.len() && #[trigger] is_symbol(next[j]);
                    if j < pre.len() {
                        assert(pre[j] == next[j]);
                    }
                }
            }
        }
        digits = digits && d;
        vowel = vowel || v;
        if !a && c != ' ' {
            symbols = symbols + 1;
        }
        if al {
            alpha = alpha + 1;
        }
        i = i + 1;
    }
    assert(cs@.take(cs@.len() as int) =~= cs@);
    CharCounts { all_digits: digits, has_vowel: vowel, symbols, ascii_alpha: alpha }
}

/// Decides whether `s` is kept as text (see `not_junk`).
pub fn is_not_junk(s: &str, config: &Config, digrams: &Digrams) -> (r: bool)
    ensures
        r == not_junk(s@, *config, *digrams),
        all_ascii(s@) ==> r == not_junk_ascii(s@, *config, *digrams),
{
    let len = s.as_bytes().len();
    let counts = char_counts(s);
    if config.no_number && counts.all_digits {
        return false;
    }
    if config.mix_cons_voy && !counts.has_vowel {
        return false;
    }
    let short = len < config.rx_effective_length;
    if config.english_filter && short && !is_likely_meaningful(s, digrams) {
        return false;
    }
    if !config.rx_symbole && short && counts.symbols > 0 {
        return false;
    }
    if short && counts.symbols > 0
        && (counts.ascii_alpha < counts.symbols || counts.ascii_alpha - counts.symbols < len / 4) {
        return false;
    }
    true
}

/// With its rules switched off (no digit, vowel or language rule, symbols
/// allowed, no string counted as short), the filter keeps every string.
pub proof fn law_filter_off_keeps_every_string(s: Seq<char>, c: Config, d: Digrams)
    requires
        !c.no_number,
        !c.mix_cons_voy,
        c.rx_effective_length == 0,
    ensures
        not_junk(s, c, d),
{
}

proof fn lemma_symbol_counted(s: Seq<char>, i: int)
    requires
        0 <= i < s.len(),
        is_symbol(s[i]),
    ensures
        count_symbols(s) > 0,
    decreases s.len(),
{
    if i < s.len() - 1 {
        assert(s.drop_last()[i] == s[i]);
        lemma_symbol_counted(s.drop_last(), i);
    }
}

proof fn lemma_no_ascii_letter(s: Seq<char>)
    requires
        forall|i: int| 0 <= i < s.len() ==> !is_ascii_alpha_char(#[trigger] s[i]),
    ensures
        count_ascii_alpha(s) == 0,
    decreases s.len(),
{
    if s.len() > 0 {
        assert forall|i: int| 0 <= i < s.drop_last().len() implies !is_ascii_alpha_char(#[trigger] s.drop_last()[i]) by {
            assert(s.drop_last()[i] == s[i]);
        }
        lemma_no_ascii_letter(s.drop_last());
        assert(!is_ascii_alpha_char(s[s.len() - 1]));
    }
}

/// The junk rules, each on the characters of the string. A string is dropped:
/// - with `no_number`, when every character is `0`..`9`;
/// - with `mix_cons_voy`, when no character is `a e i o u y` in either case;
/// - with `english_filter`, when it is shorter than `rx_effective_length`
///   bytes and does not look like natural language;
/// - without `rx_symbole`, when it is that short and holds a character that
///   is neither alphanumeric nor a space;
/// - when it is that short, holds such a character and has no ASCII letter.
pub proof fn law_junk_rules(s: Seq<char>, c: Config, d: Digrams)
    ensures
        c.no_number && (forall|i: int| 0 <= i < s.len() ==> '0' <= #[trigger] s[i] && s[i] <= '9')
            ==> !not_junk(s, c, d),
        c.mix_cons_voy && (forall|i: int| 0 <= i < s.len() ==> !(#[trigger] s[i] == 'a' || s[i] == 'e'
            || s[i] == 'i' || s[i] == 'o' || s[i] == 'u' || s[i] == 'y' || s[i] == 'A' || s[i] == 'E'
            || s[i] == 'I' || s[i] == 'O' || s[i] == 'U' || s[i] == 'Y'))
            ==> !not_junk(s, c, d),
        c.english_filter && byte_len(s) < c.rx_effective_length && !likely_meaningful(s, d)
            ==> !not_junk(s, c, d),
        !c.rx_symbole && byte_len(s) < c.rx_effective_length
            && (exists|i: int| 0 <= i < s.len() && !unicode_alphanumeric(#[trigger] s[i]) && s[i] != ' ')
            ==> !not_junk(s, c, d),
        byte_len(s) < c.rx_effective_length
            && (exists|i: int| 0 <= i < s.len() && !unicode_alphanumeric(#[trigger] s[i]) && s[i] != ' ')
            && (forall|i: int| 0 <= i < s.len() ==> !('a' <= #[trigger] s[i] && s[i] <= 'z') && !('A' <= s[i] && s[i] <= 'Z'))
            ==> !not_junk(s, c, d),
{
    if c.no_number && (forall|i: int| 0 <= i < s.len() ==> '0' <= #[trigger] s[i] && s[i] <= '9') {
        assert(all_digits(s));
    }
    if c.mix_cons_voy && (forall|i: int| 0 <= i < s.len() ==> !(#[trigger] s[i] == 'a' || s[i] == 'e'
            || s[i] == 'i' || s[i] == 'o' || s[i] == 'u' || s[i] == 'y' || s[i] == 'A' || s[i] == 'E'
            || s[i] == 'I' || s[i] == 'O' || s[i] == 'U' || s[i] == 'Y')) {
        assert(!has_vowel(s));
    }
    if exists|i: int| 0 <= i < s.len() && !unicode_alphanumeric(#[trigger] s[i]) && s[i] != ' ' {
        let i = choose|i: int| 0 <= i < s.len() && !unicode_alphanumeric(#[trigger] s[i]) && s[i] != ' ';
        assert(is_symbol(s[i]));
        assert(has_symbol(s));
        lemma_symbol_counted(s, i);
        if forall|i: int| 0 <= i < s.len() ==> !('a' <= #[trigger] s[i] && s[i] <= 'z') && !('A' <= s[i] && s[i] <= 'Z') {
            lemma_no_ascii_letter(s);
        }
    }
}

/// A string that no rule drops is kept: one of at least
/// `rx_effective_length` bytes, not made only of `0`..`9` when `no_number`
/// is on, and holding one of `a e i o u y` (either case) when `mix_cons_voy`
/// is on.
pub proof fn law_long_text_is_kept(s: Seq<char>, c: Config, d: Digrams)
    requires
        byte_len(s) >= c.rx_effective_length,
        c.no_number ==> exists|i: int| 0 <= i < s.len() && !('0' <= #[trigger] s[i] && s[i] <= '9'),
        c.mix_cons_voy ==> exists|i: int| 0 <= i < s.len() && (#[trigger] s[i] == 'a' || s[i] == 'e'
            || s[i] == 'i' || s[i] == 'o' || s[i] == 'u' || s[i] == 'y' || s[i] == 'A' || s[i] == 'E'
            || s[i] == 'I' || s[i] == 'O' || s[i] == 'U' || s[i] == 'Y'),
    ensures
        not_junk(s, c, d),
{
    if c.no_number {
        let i = choose|i: int| 0 <= i < s.len() && !('0' <= #[trigger] s[i] && s[i] <= '9');
        assert(!is_ascii_digit_char(s[i]));
    }
    if c.mix_cons_voy {
        let i = choose|i: int| 0 <= i < s.len() && (#[trigger] s[i] == 'a' || s[i] == 'e'
            || s[i] == 'i' || s[i] == 'o' || s[i] == 'u' || s[i] == 'y' || s[i] == 'A' || s[i] == 'E'
            || s[i] == 'I' || s[i] == 'O' || s[i] == 'U' || s[i] == 'Y');
        assert(is_vowel_char(s[i]));
    }
}

} // verus!
