//! Detection of strings that look like credentials.

use vstd::prelude::*;
use vstd::utf8::encode_utf8;
use crate::pattern::{Pattern, regex_compiles, regex_finds};
use crate::text::{ascii_hex, byte_len, bytes_contain, chars_of, contains_bytes, is_ascii_hex_char, trim, trimmed};

verus! {

/// An AWS access key id: `AKIA` and at least twelve upper-case letters or digits.
pub open spec fn aws_key_pattern() -> Seq<char> {
    "AKIA[0-9A-Z]{12,20}"@
}

/// A credential keyword followed by up to three spaces, colons or equal signs.
pub open spec fn secret_word_pattern() -> Seq<char> {
    "(?i)(key|secret|token|password|passwd)[\\s:=]{1,3}"@
}

/// The bytes of `AKIA`.
pub open spec fn akia() -> Seq<u8> {
    seq![65u8, 75u8, 73u8, 65u8]
}

pub open spec fn all_hex(s: Seq<char>) -> bool {
    forall|i: int| 0 <= i < s.len() ==> #[trigger] is_ascii_hex_char(s[i])
}

/// Whether a string looks like a secret. With `clean` the string trimmed of
/// white space, `clean` must have at least 16 bytes, and then: `clean` holds
/// `AKIA` and matches the access-key pattern; or it has at least 32 bytes, all
/// hexadecimal digits; or the untrimmed string matches the keyword pattern.
pub open spec fn looks_secret(s: Seq<char>) -> bool {
    let clean = trimmed(s);
    let n = byte_len(clean);
    &&& n >= 16
    &&& {
        ||| contains_bytes(encode_utf8(clean), akia()) && regex_finds(aws_key_pattern(), clean)
        ||| n >= 32 && all_hex(clean)
        ||| regex_finds(secret_word_pattern(), s)
    }
}

/// The two compiled patterns that secret detection uses.
pub struct SecretPatterns {
    aws: Pattern,
    word: Pattern,
}

impl SecretPatterns {
    pub closed spec fn wf(self) -> bool {
        &&& self.aws@ == aws_key_pattern()
        &&& self.word@ == secret_word_pattern()
    }

    /// Compiles both patterns; `None` exactly when the regex engine refuses one of them.
    pub fn new() -> (r: Option<SecretPatterns>)
        ensures
            r is Some <==> regex_compiles(aws_key_pattern()) && regex_compiles(secret_word_pattern()),
            r matches Some(p) ==> p.wf(),
    {
        let aws = Pattern::new("AKIA[0-9A-Z]{12,20}");
        let word = Pattern::new("(?i)(key|secret|token|password|passwd)[\\s:=]{1,3}");
        match (aws, word) {
            (Some(aws), Some(word)) => Some(SecretPatterns { aws, word }),
            _ => None,
        }
    }
}

fn all_hex_exec(s: &str) -> (r: bool)
    ensures
        r == all_hex(s@),
{
    let cs = chars_of(s);
    let mut i: usize = 0;
    while i < cs.len()
        invariant
            cs@ == s@,
            i <= cs@.len(),
            forall|j: int| 0 <= j < i ==> #[trigger] is_ascii_hex_char(cs@[j]),
        decreases cs@.len() - i,
    {
        if !ascii_hex(cs[i]) {
            return false;
        }
        i = i + 1;
    }
    true
}

/// Detects strings that look like credentials (see `looks_secret`).
pub fn is_secret(s: &str, patterns: &SecretPatterns) -> (r: bool)
    requires
        patterns.wf(),
    ensures
        r == looks_secret(s@),
{
    let clean = trim(s);
    let n = clean.as_bytes().len();
    if n < 16 {
        return false;
    }
    let marker = vec![65u8, 75u8, 73u8, 65u8];
    assert(marker@ =~= akia());
    if bytes_contain(clean.as_bytes(), marker.as_slice()) && patterns.aws.is_match(clean) {
        return true;
    }
    if n >= 32 && all_hex_exec(clean) {
        return true;
    }
    if patterns.word.is_match(s) {
        return true;
    }
    false
}

/// Nothing shorter than 16 bytes, once trimmed, is taken for a secret.
pub proof fn law_secrets_have_16_bytes(s: Seq<char>)
    ensures
        looks_secret(s) ==> byte_len(trimmed(s)) >= 16,
{
}

/// What is taken for a secret, on the trimmed string `t` (white space cut at
/// both ends): a string whose `t` has at least 32 bytes, all of them
/// `0`..`9`, `a`..`f` or `A`..`F`, is a secret; so is one whose `t` has at
/// least 16 bytes and holds `AKIA` where the access-key pattern matches it, or
/// whose `t` has at least 16 bytes and which matches the keyword pattern. And
/// nothing else is.
pub proof fn law_what_is_a_secret(s: Seq<char>)
    ensures
        byte_len(trimmed(s)) >= 32
            && (forall|i: int| 0 <= i < trimmed(s).len() ==> {
                let c = #[trigger] trimmed(s)[i];
                ('0' <= c && c <= '9') || ('a' <= c && c <= 'f') || ('A' <= c && c <= 'F')
            })
            ==> looks_secret(s),
        byte_len(trimmed(s)) >= 16
            && (exists|i: int| 0 <= i && i + 4 <= encode_utf8(trimmed(s)).len()
                && #[trigger] encode_utf8(trimmed(s)).subrange(i, i + 4) == seq![65u8, 75u8, 73u8, 65u8])
            && regex_finds("AKIA[0-9A-Z]{12,20}"@, trimmed(s))
            ==> looks_secret(s),
        byte_len(trimmed(s)) >= 16 && regex_finds("(?i)(key|secret|token|password|passwd)[\\s:=]{1,3}"@, s)
            ==> looks_secret(s),
        looks_secret(s) ==> byte_len(trimmed(s)) >= 16 && {
            ||| regex_finds("AKIA[0-9A-Z]{12,20}"@, trimmed(s))
            ||| byte_len(trimmed(s)) >= 32 && (forall|i: int| 0 <= i < trimmed(s).len() ==> {
                let c = #[trigger] trimmed(s)[i];
                ('0' <= c && c <= '9') || ('a' <= c && c <= 'f') || ('A' <= c && c <= 'F')
            })
            ||| regex_finds("(?i)(key|secret|token|password|passwd)[\\s:=]{1,3}"@, s)
        },
{
    let t = trimmed(s);
    let b = encode_utf8(t);
    if exists|i: int| 0 <= i && i + 4 <= b.len() && #[trigger] b.subrange(i, i + 4) == seq![65u8, 75u8, 73u8, 65u8] {
        let i = choose|i: int| 0 <= i && i + 4 <= b.len() && #[trigger] b.subrange(i, i + 4) == seq![65u8, 75u8, 73u8, 65u8];
        assert(akia().len() == 4);
        assert(b.subrange(i, i + akia().len()) == akia());
        assert(contains_bytes(b, akia()));
    }
    if forall|i: int| 0 <= i < t.len() ==> {
        let c = #[trigger] t[i];
        ('0' <= c && c <= '9') || ('a' <= c && c <= 'f') || ('A' <= c && c <= 'F')
    } {
        assert forall|i: int| 0 <= i < t.len() implies #[trigger] is_ascii_hex_char(t[i]) by {
            let c = t[i];
            assert(('0' <= c && c <= '9') || ('a' <= c && c <= 'f') || ('A' <= c && c <= 'F'));
        }
    }
    if all_hex(t) {
        assert forall|i: int| 0 <= i < t.len() implies {
            let c = #[trigger] t[i];
            ('0' <= c && c <= '9') || ('a' <= c && c <= 'f') || ('A' <= c && c <= 'F')
        } by {
            assert(is_ascii_hex_char(t[i]));
        }
    }
}

} // verus!
