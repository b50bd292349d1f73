//! Where a result came from, and how smart mode highlights it.

use vstd::prelude::*;
use vstd::utf8::encode_utf8;
use crate::pattern::{Pattern, regex_compiles, regex_finds};
use crate::text::{byte_len, bytes_contain, contains_bytes};

verus! {

/// How a result was found.
#[derive(Clone, Copy, PartialEq, Eq, Debug, Structural)]
pub enum Origin {
    /// In the bytes as they are.
    Raw,
    /// In the bytes XOR-ed with this key.
    Xor(u8),
    /// By decoding a Base64 string.
    Base64,
}

impl Origin {
    pub open spec fn spec_of_key(key: u8) -> Origin {
        if key == 0 { Origin::Raw } else { Origin::Xor(key) }
    }

    /// The origin of a string found under an XOR key (0: the raw bytes).
    pub fn of_key(key: u8) -> (r: Origin)
        ensures
            r == Origin::spec_of_key(key),
    {
        if key == 0 { Origin::Raw } else { Origin::Xor(key) }
    }
}

/// How smart mode shows a result.
#[derive(Clone, Copy, PartialEq, Eq, Debug, Structural)]
pub enum Style {
    /// A likely secret.
    Secret,
    /// A URL, host, e-mail or IPv4 address.
    Link,
    /// A decoded Base64 payload.
    Decoded,
    /// Found under an XOR key.
    Xor,
    /// Highlighted according to its score.
    ByScore,
    /// Not highlighted.
    Plain,
}

/// An IPv4 address: four groups of one to three digits, separated by dots.
pub open spec fn ipv4_pattern() -> Seq<char> {
    "\\b(?:[0-9]{1,3}\\.){3}[0-9]{1,3}\\b"@
}

/// Compiles the IPv4 pattern; `None` exactly when the regex engine refuses it.
pub fn compile_ipv4_pattern() -> (r: Option<Pattern>)
    ensures
        r is Some <==> regex_compiles(ipv4_pattern()),
        r matches Some(p) ==> p@ == ipv4_pattern(),
{
    Pattern::new("\\b(?:[0-9]{1,3}\\.){3}[0-9]{1,3}\\b")
}

/// The bytes of `://`, `www.` and `@`.
pub open spec fn link_markers() -> Seq<Seq<u8>> {
    seq![seq![58u8, 47u8, 47u8], seq![119u8, 119u8, 119u8, 46u8], seq![64u8]]
}

/// The style of a result: secrets first, then text that holds `://`, `www.`
/// or `@` or an IPv4 address, then decoded and XOR results; other results of
/// at least 6 bytes are shown by score.
pub open spec fn style_of(content: Seq<char>, origin: Origin, secret: bool) -> Style {
    let b = encode_utf8(content);
    if secret {
        Style::Secret
    } else if contains_bytes(b, link_markers()[0]) || contains_bytes(b, link_markers()[1])
        || contains_bytes(b, link_markers()[2]) || regex_finds(ipv4_pattern(), content) {
        Style::Link
    } else if origin == Origin::Base64 {
        Style::Decoded
    } else if origin is Xor {
        Style::Xor
    } else if byte_len(content) >= 6 {
        Style::ByScore
    } else {
        Style::Plain
    }
}

/// Chooses the smart-mode style of a result (see `style_of`); `ipv4` is the
/// compiled IPv4 pattern.
pub fn smart_style(content: &str, origin: Origin, secret: bool, ipv4: &Pattern) -> (r: Style)
    requires
        ipv4@ == ipv4_pattern(),
    ensures
        r == style_of(content@, origin, secret),
{
    if secret {
        return Style::Secret;
    }
    let b = content.as_bytes();
    let scheme = vec![58u8, 47u8, 47u8];
    let www = vec![119u8, 119u8, 119u8, 46u8];
    let at = vec![64u8];
    assert(scheme@ =~= link_markers()[0]);
    assert(www@ =~= link_markers()[1]);
    assert(at@ =~= link_markers()[2]);
    if bytes_contain(b, scheme.as_slice()) || bytes_contain(b, www.as_slice()) || bytes_contain(b, at.as_slice())
        || ipv4.is_match(content) {
        Style::Link
    } else if origin == Origin::Base64 {
        Style::Decoded
    } else if let Origin::Xor(_) = origin {
        Style::Xor
    } else if b.len() >= 6 {
        Style::ByScore
    } else {
        Style::Plain
    }
}

/// Smart-mode styles, on the text: a secret is shown as a secret, whatever
/// else holds; otherwise text whose bytes hold `://`, `www.` or `@`, or in
/// which the IPv4 pattern matches, is a link; otherwise a decoded payload is
/// shown as decoded, a string found under an XOR key as XOR, and a raw string
/// by its score when it has at least 6 bytes, plainly when shorter.
pub proof fn law_smart_styles(content: Seq<char>, origin: Origin, secret: bool)
    ensures
        secret ==> style_of(content, origin, secret) == Style::Secret,
        !secret && (exists|i: int| 0 <= i && i + 3 <= encode_utf8(content).len()
            && #[trigger] encode_utf8(content).subrange(i, i + 3) == seq![58u8, 47u8, 47u8])
            ==> style_of(content, origin, secret) == Style::Link,
        !secret && (exists|i: int| 0 <= i && i + 4 <= encode_utf8(content).len()
            && #[trigger] encode_utf8(content).subrange(i, i + 4) == seq![119u8, 119u8, 119u8, 46u8])
            ==> style_of(content, origin, secret) == Style::Link,
        !secret && (exists|i: int| 0 <= i < encode_utf8(content).len() && #[trigger] encode_utf8(content)[i] == 64u8)
            ==> style_of(content, origin, secret) == Style::Link,
        !secret && regex_finds("\\b(?:[0-9]{1,3}\\.){3}[0-9]{1,3}\\b"@, content)
            ==> style_of(content, origin, secret) == Style::Link,
        !secret && style_of(content, origin, secret) != Style::Link ==> style_of(content, origin, secret) == match origin {
            Origin::Base64 => Style::Decoded,
            Origin::Xor(_) => Style::Xor,
            Origin::Raw => if encode_utf8(content).len() >= 6 { Style::ByScore } else { Style::Plain },
        },
{
    let b = encode_utf8(content);
    if exists|i: int| 0 <= i && i + 3 <= b.len() && #[trigger] b.subrange(i, i + 3) == seq![58u8, 47u8, 47u8] {
        let i = choose|i: int| 0 <= i && i + 3 <= b.len() && #[trigger] b.subrange(i, i + 3) == seq![58u8, 47u8, 47u8];
        assert(b.subrange(i, i + link_markers()[0].len()) == link_markers()[0]);
    }
    if exists|i: int| 0 <= i && i + 4 <= b.len() && #[trigger] b.subrange(i, i + 4) == seq![119u8, 119u8, 119u8, 46u8] {
        let i = choose|i: int| 0 <= i && i + 4 <= b.len() && #[trigger] b.subrange(i, i + 4) == seq![119u8, 119u8, 119u8, 46u8];
        assert(b.subrange(i, i + link_markers()[1].len()) == link_markers()[1]);
    }
    if exists|i: int| 0 <= i < b.len() && #[trigger] b[i] == 64u8 {
        let i = choose|i: int| 0 <= i < b.len() && #[trigger] b[i] == 64u8;
        assert(b.subrange(i, i + 1) =~= seq![64u8]);
        assert(b.subrange(i, i + link_markers()[2].len()) == link_markers()[2]);
    }
}

} // verus!
