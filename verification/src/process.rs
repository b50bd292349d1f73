//! What is done with each extracted string: the match and junk filters, the
//! bytes of context around it, and the decoding of Base64 payloads.

use base64::Engine;
use vstd::prelude::*;
use vstd::string::StringExecFns;
use vstd::utf8::{decode_utf8, encode_utf8, valid_utf8};
use crate::config::Config;
use crate::digram::Digrams;
use crate::filter::{is_not_junk, not_junk};
use crate::pattern::{Pattern, regex_finds};
use crate::scan::{Encoding, string_from_utf8};
use crate::text::{byte_len, char_is_alphanumeric, chars_of, trim, trimmed, unicode_alphanumeric};

verus! {

/// Whether a string is kept for scoring: it matches the user's pattern (when
/// there is one), and it passes the junk filter unless `all` is set.
pub open spec fn accepted(s: Seq<char>, all: bool, c: Config, pattern: Option<Seq<char>>, d: Digrams) -> bool {
    &&& match pattern {
        Some(p) => regex_finds(p, s),
        None => true,
    }
    &&& (all || not_junk(s, c, d))
}

pub fn accepts(s: &str, all: bool, config: &Config, pattern: &Option<Pattern>, digrams: &Digrams) -> (r: bool)
    ensures
        r == accepted(s@, all, *config, match *pattern { Some(p) => Some(p@), None => None }, *digrams),
{
    let matches = match pattern {
        Some(p) => p.is_match(s),
        None => true,
    };
    matches && (all || is_not_junk(s, config, digrams))
}

/// The bytes around a string that starts `start` bytes into `data` and takes
/// `len` bytes there: up to `context` bytes before it, when it starts inside
/// `data`, and up to `context` bytes after it.
pub open spec fn context_before(data: Seq<u8>, start: int, context: nat) -> Seq<u8> {
    if context > 0 && start <= data.len() {
        data.subrange(if start >= context { start - context } else { 0 }, start)
    } else {
        seq![]
    }
}

pub open spec fn context_after(data: Seq<u8>, end: int, context: nat) -> Seq<u8> {
    let stop = if end + context < data.len() { end + context } else { data.len() as int };
    if context > 0 && stop > end {
        data.subrange(end, stop)
    } else {
        seq![]
    }
}

fn copy_range(data: &[u8], from: usize, to: usize) -> (r: Vec<u8>)
    requires
        from <= to <= data@.len(),
    ensures
        r@ == data@.subrange(from as int, to as int),
{
    let mut r: Vec<u8> = Vec::new();
    let mut i = from;
    while i < to
        invariant
            from <= i <= to <= data@.len(),
            r@ == data@.subrange(from as int, i as int),
        decreases to - i,
    {
        r.push(data[i]);
        i = i + 1;
        assert(r@ =~= data@.subrange(from as int, i as int));
    }
    r
}

/// `a - b` in unsigned 64-bit arithmetic that wraps around.
pub open spec fn sub64(a: int, b: int) -> int {
    if a >= b { a - b } else { a - b + 0x1_0000_0000_0000_0000 }
}

/// `a + b` in unsigned 64-bit arithmetic that wraps around.
pub open spec fn add64(a: int, b: int) -> int {
    if a + b > u64::MAX { a + b - 0x1_0000_0000_0000_0000 } else { a + b }
}

/// The context bytes of a string found at `start_offset` in `data` (whose first
/// byte is at `base_offset`): `text_len` is the string's length in bytes, and
/// it takes `encoding.width()` bytes per character in `data`. Positions are
/// taken relative to `data` in wrapping 64-bit arithmetic, so a string that an
/// `Other` scan reports before `base_offset` gets no bytes before it (its
/// relative start lies far past the end of `data`).
pub fn context_window(
    data: &[u8],
    base_offset: u64,
    start_offset: u64,
    text_len: usize,
    encoding: Encoding,
    context: usize,
) -> (r: (Vec<u8>, Vec<u8>))
    requires
        text_len * encoding.width() <= u64::MAX,
        sub64(start_offset as int, base_offset as int) <= usize::MAX,
        sub64(add64(start_offset as int, text_len * encoding.width()), base_offset as int) + context <= usize::MAX,
    ensures
        r.0@ == context_before(data@, sub64(start_offset as int, base_offset as int), context as nat),
        r.1@ == context_after(
            data@,
            sub64(add64(start_offset as int, text_len * encoding.width()), base_offset as int),
            context as nat,
        ),
{
    let p_end = start_offset.wrapping_sub(base_offset) as usize;
    let p_start = if p_end >= context { p_end - context } else { 0 };
    let prefix = if context > 0 && p_end <= data.len() {
        copy_range(data, p_start, p_end)
    } else {
        Vec::new()
    };
    let s_len: u64 = match encoding {
        Encoding::Single => text_len as u64,
        _ => 2 * text_len as u64,
    };
    let s_end = start_offset.wrapping_add(s_len).wrapping_sub(base_offset) as usize;
    let stop = if s_end + context < data.len() { s_end + context } else { data.len() };
    let suffix = if context > 0 && stop > s_end {
        copy_range(data, s_end, stop)
    } else {
        Vec::new()
    };
    (prefix, suffix)
}

/// What the `STANDARD` engine of the `base64` crate decodes the bytes to (the
/// standard alphabet, with padding), or `None` when it reports an error.
pub uninterp spec fn base64_standard_decode(input: Seq<u8>) -> Option<Seq<u8>>;

/// Calls `Engine::decode` on `base64::prelude::BASE64_STANDARD`.
#[verifier::external_body]
pub fn decode_base64(input: &[u8]) -> (r: Option<Vec<u8>>)
    ensures
        r matches Some(v) ==> base64_standard_decode(input@) == Some(v@),
        r is None ==> base64_standard_decode(input@) is None,
{
    base64::prelude::BASE64_STANDARD.decode(input).ok()
}

/// A character of the Base64 alphabet (or any other alphanumeric character), or `=`.
pub open spec fn base64_char(c: char) -> bool {
    unicode_alphanumeric(c) || c == '+' || c == '/' || c == '='
}

pub open spec fn all_base64_chars(s: Seq<char>) -> bool {
    forall|i: int| 0 <= i < s.len() ==> #[trigger] base64_char(s[i])
}

/// What decoded bytes give as a payload: the text they encode, when they are
/// valid UTF-8, that text has at least `min_len` bytes and it passes the junk
/// filter.
pub open spec fn decoded_payload(bytes: Seq<u8>, c: Config, min_len: nat, d: Digrams) -> Option<Seq<char>> {
    if valid_utf8(bytes) && byte_len(decode_utf8(bytes)) >= min_len && not_junk(decode_utf8(bytes), c, d) {
        Some(decode_utf8(bytes))
    } else {
        None
    }
}

/// The text hidden in `s` as Base64: when decoding is enabled and `s` has at
/// least 8 bytes, all of them Base64 characters, the trimmed string is decoded,
/// and the decoded bytes give the payload (see `decoded_payload`).
pub open spec fn base64_payload(s: Seq<char>, c: Config, min_len: nat, d: Digrams) -> Option<Seq<char>> {
    if c.base64 && byte_len(s) >= 8 && all_base64_chars(s) {
        match base64_standard_decode(encode_utf8(trimmed(s))) {
            Some(bytes) => decoded_payload(bytes, c, min_len, d),
            None => None,
        }
    } else {
        None
    }
}

/// The payload that decoded bytes give (see `decoded_payload`).
pub fn payload_from_decoded(bytes: Vec<u8>, config: &Config, min_len: usize, digrams: &Digrams) -> (r: Option<String>)
    ensures
        r matches Some(t) ==> decoded_payload(bytes@, *config, min_len as nat, *digrams) == Some(t@),
        r is None ==> decoded_payload(bytes@, *config, min_len as nat, *digrams) is None,
{
    match string_from_utf8(bytes) {
        Some(ds) => {
            if ds.as_str().as_bytes().len() >= min_len && is_not_junk(ds.as_str(), config, digrams) {
                Some(ds)
            } else {
                None
            }
        },
        None => None,
    }
}

fn all_base64_chars_exec(s: &str) -> (r: bool)
    ensures
        r == all_base64_chars(s@),
{
    let cs = chars_of(s);
    let mut i: usize = 0;
    while i < cs.len()
        invariant
            cs@ == s@,
            i <= cs@.len(),
            forall|j: int| 0 <= j < i ==> #[trigger] base64_char(cs@[j]),
        decreases cs@.len() - i,
    {
        let c = cs[i];
        if !(char_is_alphanumeric(c) || c == '+' || c == '/' || c == '=') {
            assert(!base64_char(s@[i as int]));
            return false;
        }
        i = i + 1;
    }
    true
}

/// Decodes the Base64 payload of `s`, if it has one (see `base64_payload`).
pub fn decode_payload(s: &str, config: &Config, min_len: usize, digrams: &Digrams) -> (r: Option<String>)
    ensures
        r matches Some(t) ==> base64_payload(s@, *config, min_len as nat, *digrams) == Some(t@),
        r is None ==> base64_payload(s@, *config, min_len as nat, *digrams) is None,
{
    if !(config.base64 && s.as_bytes().len() >= 8 && all_base64_chars_exec(s)) {
        return None;
    }
    let clean = trim(s);
    match decode_base64(clean.as_bytes()) {
        Some(bytes) => payload_from_decoded(bytes, config, min_len, digrams),
        None => None,
    }
}

/// The text shown for a decoded payload: `(B64: ` + payload + `)`.
pub open spec fn payload_label(payload: Seq<char>) -> Seq<char> {
    "(B64: "@ + payload + ")"@
}

pub fn label_payload(payload: &str) -> (r: String)
    ensures
        r@ == payload_label(payload@),
{
    let mut r = String::new();
    r.append("(B64: ");
    r.append(payload);
    r.append(")");
    proof {
        assert(Seq::<char>::empty() + "(B64: "@ =~= "(B64: "@);
    }
    r
}

/// With `all` set and no pattern, every string is kept, as standard `strings`
/// keeps it.
pub proof fn law_all_keeps_every_string(s: Seq<char>, c: Config, d: Digrams)
    ensures
        accepted(s, true, c, None, d),
{
}

/// A decoded payload is text: it has at least `min_len` bytes and passes the
/// junk filter.
pub proof fn law_payload_is_text(s: Seq<char>, c: Config, min_len: nat, d: Digrams)
    ensures
        base64_payload(s, c, min_len, d) matches Some(t) ==> byte_len(t) >= min_len && not_junk(t, c, d),
{
}

/// When Base64 decoding is on, a string of at least 8 bytes whose every
/// character is alphanumeric or one of `+`, `/`, `=` is decoded: its trimmed
/// form goes to the standard Base64 decoder, and decoded bytes that are valid
/// UTF-8, at least `min_len` bytes long once decoded and not junk come back as
/// the payload. Nothing else gives a payload: decoding off, fewer than 8
/// bytes, another character, a decoder error, bytes that are not UTF-8, too
/// short or junk give none.
pub proof fn law_base64_payload(s: Seq<char>, c: Config, min_len: nat, d: Digrams)
    ensures
        c.base64 && byte_len(s) >= 8
            && (forall|i: int| 0 <= i < s.len() ==> unicode_alphanumeric(#[trigger] s[i]) || s[i] == '+' || s[i] == '/' || s[i] == '=')
            ==> base64_payload(s, c, min_len, d) == match base64_standard_decode(encode_utf8(trimmed(s))) {
                Some(bytes) => if valid_utf8(bytes) && encode_utf8(decode_utf8(bytes)).len() >= min_len
                    && not_junk(decode_utf8(bytes), c, d) {
                    Some(decode_utf8(bytes))
                } else {
                    None
                },
                None => None,
            },
        base64_payload(s, c, min_len, d) matches Some(t) ==> {
            &&& c.base64
            &&& byte_len(s) >= 8
            &&& forall|i: int| 0 <= i < s.len() ==> unicode_alphanumeric(#[trigger] s[i]) || s[i] == '+' || s[i] == '/' || s[i] == '='
            &&& base64_standard_decode(encode_utf8(trimmed(s))) matches Some(bytes)
                && valid_utf8(bytes) && t == decode_utf8(bytes)
            &&& encode_utf8(t).len() >= min_len
            &&& not_junk(t, c, d)
        },
{
    if forall|i: int| 0 <= i < s.len() ==> unicode_alphanumeric(#[trigger] s[i]) || s[i] == '+' || s[i] == '/' || s[i] == '=' {
        assert(all_base64_chars(s));
    }
    if all_base64_chars(s) {
        assert forall|i: int| 0 <= i < s.len() implies unicode_alphanumeric(#[trigger] s[i]) || s[i] == '+' || s[i] == '/' || s[i] == '=' by {
            assert(base64_char(s[i]));
        }
    }
}

/// The context bytes, on the data: before a string that starts `start`
/// bytes into the data come the `context` bytes just before it (fewer at the
/// start of the data; none when it starts past the end, or when `context` is
/// 0); after a string that ends `end` bytes into the data come the `context`
/// bytes just after it (fewer at the end of the data; none when `context` is 0).
pub proof fn law_context_bytes(data: Seq<u8>, start: int, end: int, context: nat)
    requires
        0 <= start,
        0 <= end,
    ensures
        context_before(data, start, context).len()
            == (if context > 0 && start <= data.len() { if start < context { start } else { context as int } } else { 0 }),
        forall|i: int| 0 <= i < context_before(data, start, context).len() ==>
            #[trigger] context_before(data, start, context)[i] == data[start - context_before(data, start, context).len() + i],
        context_after(data, end, context).len()
            == (if context > 0 && end < data.len() { if data.len() - end < context { data.len() - end } else { context as int } } else { 0 }),
        forall|i: int| 0 <= i < context_after(data, end, context).len() ==>
            #[trigger] context_after(data, end, context)[i] == data[end + i],
{
}

} // verus!
