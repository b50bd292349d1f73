//! Text of the output columns: offsets, context bytes and origin names.

use vstd::prelude::*;
use crate::config::OffsetFormat;
use crate::style::Origin;

verus! {

/// The digit of value `d` (below 16), with lowercase letters for 10 to 15.
pub open spec fn digit_char(d: nat) -> char {
    if d < 10 { (48 + d) as char } else { (87 + d) as char }
}

/// The digits of `n` in base `base` (2 to 16), most significant first.
pub open spec fn digits(n: nat, base: nat) -> Seq<char>
    decreases n,
{
    if base < 2 || n < base {
        seq![digit_char(n)]
    } else {
        proof {
            lemma_div_smaller(n, base);
        }
        digits(n / base, base) + seq![digit_char(n % base)]
    }
}

/// Dividing by a base of at least 2 makes a number at least that base smaller.
pub proof fn lemma_div_smaller(n: nat, base: nat)
    requires
        base >= 2,
        n >= base,
    ensures
        n / base < n,
{
    assert(n / base < n) by (nonlinear_arith)
        requires
            base >= 2,
            n >= base,
    ;
}

/// `s` with spaces in front, up to `width` characters.
pub open spec fn pad_left(s: Seq<char>, width: nat) -> Seq<char> {
    if s.len() >= width {
        s
    } else {
        Seq::new((width - s.len()) as nat, |i: int| ' ') + s
    }
}

/// The offset column: the offset in hexadecimal or decimal, right-aligned in
/// eight characters, then a space.
pub open spec fn offset_text(offset: u64, format: OffsetFormat) -> Seq<char> {
    let base: nat = match format {
        OffsetFormat::Hex => 16,
        OffsetFormat::Decimal => 10,
    };
    pad_left(digits(offset as nat, base), 8) + seq![' ']
}

/// Two lowercase hexadecimal digits for each byte.
pub open spec fn hex_text(bytes: Seq<u8>) -> Seq<char>
    decreases bytes.len(),
{
    if bytes.len() == 0 {
        seq![]
    } else {
        hex_text(bytes.drop_last()) + seq![digit_char(bytes.last() as nat / 16), digit_char(bytes.last() as nat % 16)]
    }
}

/// The context column: `[`, the bytes before in hex, `]...[`, the bytes after
/// in hex, `] `.
pub open spec fn context_text(before: Seq<u8>, after: Seq<u8>) -> Seq<char> {
    seq!['['] + hex_text(before) + seq![']', '.', '.', '.', '['] + hex_text(after) + seq![']', ' ']
}

/// The name of an origin: `raw`, `xor:0x` and the key as two hexadecimal
/// digits, or `base64`.
pub open spec fn origin_text(origin: Origin) -> Seq<char> {
    match origin {
        Origin::Raw => seq!['r', 'a', 'w'],
        Origin::Xor(k) => seq!['x', 'o', 'r', ':', '0', 'x', digit_char(k as nat / 16), digit_char(k as nat % 16)],
        Origin::Base64 => seq!['b', 'a', 's', 'e', '6', '4'],
    }
}

/// Calls `FromIterator<char> for String`: the string of the characters, in order.
#[verifier::external_body]
pub fn string_of_chars(chars: Vec<char>) -> (r: String)
    ensures
        r@ == chars@,
{
    chars.into_iter().collect()
}

fn digit(d: u64) -> (c: char)
    requires
        d < 16,
    ensures
        c == digit_char(d as nat),
{
    if d < 10 {
        (48 + d as u8) as char
    } else {
        (87 + d as u8) as char
    }
}

fn digits_exec(n: u64, base: u64) -> (r: Vec<char>)
    requires
        2 <= base <= 16,
    ensures
        r@ == digits(n as nat, base as nat),
    decreases n,
{
    if n < base {
        let mut r = Vec::new();
        r.push(digit(n));
        assert(r@ =~= seq![digit_char(n as nat)]);
        r
    } else {
        proof {
            lemma_div_smaller(n as nat, base as nat);
        }
        let mut r = digits_exec(n / base, base);
        r.push(digit(n % base));
        r
    }
}

/// The offset column (see `offset_text`).
pub fn format_offset(offset: u64, format: OffsetFormat) -> (r: String)
    ensures
        r@ == offset_text(offset, format),
{
    let base: u64 = match format {
        OffsetFormat::Hex => 16,
        OffsetFormat::Decimal => 10,
    };
    let ds = digits_exec(offset, base);
    let mut out: Vec<char> = Vec::new();
    let mut pad: usize = 0;
    let width: usize = if ds.len() < 8 { 8 - ds.len() } else { 0 };
    while pad < width
        invariant
            pad <= width,
            out@ == Seq::new(pad as nat, |i: int| ' '),
        decreases width - pad,
    {
        out.push(' ');
        pad = pad + 1;
        assert(out@ =~= Seq::new(pad as nat, |i: int| ' '));
    }
    let ghost padding = out@;
    let mut i: usize = 0;
    while i < ds.len()
        invariant
            i <= ds@.len(),
            out@ == padding + ds@.take(i as int),
        decreases ds@.len() - i,
    {
        out.push(ds[i]);
        i = i + 1;
        assert(out@ =~= padding + ds@.take(i as int));
    }
    out.push(' ');
    proof {
        assert(ds@.take(ds@.len() as int) =~= ds@);
        if ds@.len() >= 8 {
            assert(padding =~= Seq::<char>::empty());
        }
        assert(out@ =~= pad_left(ds@, 8) + seq![' ']);
    }
    string_of_chars(out)
}

fn push_hex(out: &mut Vec<char>, bytes: &Vec<u8>)
    ensures
        final(out)@ == old(out)@ + hex_text(bytes@),
{
    let mut i: usize = 0;
    while i < bytes.len()
        invariant
            i <= bytes@.len(),
            out@ == old(out)@ + hex_text(bytes@.take(i as int)),
        decreases bytes@.len() - i,
    {
        let b = bytes[i];
        let ghost before = out@;
        out.push(digit(b as u64 / 16));
        out.push(digit(b as u64 % 16));
        i = i + 1;
        assert(bytes@.take(i as int).drop_last() =~= bytes@.take(i - 1));
        assert(out@ =~= old(out)@ + hex_text(bytes@.take(i as int)));
    }
    assert(bytes@.take(bytes@.len() as int) =~= bytes@);
}

/// The context column (see `context_text`).
pub fn format_context(before: &Vec<u8>, after: &Vec<u8>) -> (r: String)
    ensures
        r@ == context_text(before@, after@),
{
    let mut out: Vec<char> = Vec::new();
    out.push('[');
    push_hex(&mut out, before);
    out.push(']');
    out.push('.');
    out.push('.');
    out.push('.');
    out.push('[');
    push_hex(&mut out, after);
    out.push(']');
    out.push(' ');
    assert(out@ =~= context_text(before@, after@));
    string_of_chars(out)
}

/// The name of an origin (see `origin_text`).
pub fn origin_name(origin: Origin) -> (r: String)
    ensures
        r@ == origin_text(origin),
{
    let chars: Vec<char> = match origin {
        Origin::Raw => vec!['r', 'a', 'w'],
        Origin::Xor(k) => vec!['x', 'o', 'r', ':', '0', 'x', digit(k as u64 / 16), digit(k as u64 % 16)],
        Origin::Base64 => vec!['b', 'a', 's', 'e', '6', '4'],
    };
    assert(chars@ =~= origin_text(origin));
    string_of_chars(chars)
}

/// The value of a digit character: `0`..`9` are 0 to 9, `a`..`f` are 10 to 15.
pub open spec fn digit_value(c: char) -> int {
    if '0' <= c && c <= '9' { c as int - 48 } else { c as int - 87 }
}

/// A digit character of `base` (10 or 16): `0`..`9`, and `a`..`f` in base 16.
pub open spec fn is_digit_of(c: char, base: int) -> bool {
    ('0' <= c && c <= '9') || (base == 16 && 'a' <= c && c <= 'f')
}

/// The number that digit characters write in `base`, most significant first.
pub open spec fn number_of(s: Seq<char>, base: int) -> int
    decreases s.len(),
{
    if s.len() == 0 { 0 } else { number_of(s.drop_last(), base) * base + digit_value(s.last()) }
}

proof fn lemma_digit_char(d: nat, base: int)
    requires
        base == 10 || base == 16,
        d < base,
    ensures
        is_digit_of(digit_char(d), base),
        digit_value(digit_char(d)) == d,
        digit_char(d) == '0' <==> d == 0,
{
    if d < 10 {
        assert((((48 + d) as char) as int) == 48 + d);
    } else {
        assert((((87 + d) as char) as int) == 87 + d);
    }
}

proof fn lemma_digits(n: nat, base: int)
    requires
        base == 10 || base == 16,
    ensures
        digits(n, base as nat).len() >= 1,
        forall|i: int| 0 <= i < digits(n, base as nat).len() ==> is_digit_of(#[trigger] digits(n, base as nat)[i], base),
        number_of(digits(n, base as nat), base) == n,
        digits(n, base as nat)[0] == '0' ==> n == 0,
    decreases n,
{
    let b = base as nat;
    if n < b {
        lemma_digit_char(n, base);
        let d = digits(n, b);
        assert(d == seq![digit_char(n)]);
        assert(d.drop_last() =~= Seq::<char>::empty());
        assert(number_of(d.drop_last(), base) == 0);
        assert(number_of(d, base) == 0 * base + digit_value(d.last()));
    } else {
        lemma_div_smaller(n, b);
        lemma_digits(n / b, base);
        let pre = digits(n / b, b);
        let d = digits(n, b);
        assert(d == pre + seq![digit_char(n % b)]);
        lemma_digit_char(n % b, base);
        assert(d.drop_last() =~= pre);
        assert(d.last() == digit_char(n % b));
        assert(number_of(d, base) == number_of(pre, base) * base + digit_value(d.last()));
        assert(number_of(pre, base) == n / b);
        assert forall|i: int| 0 <= i < d.len() implies is_digit_of(#[trigger] d[i], base) by {
            if i < pre.len() {
                assert(d[i] == pre[i]);
            }
        }
        assert(n == (n / b) * b + n % b) by (nonlinear_arith)
            requires
                b >= 2,
        ;
        assert(d[0] == pre[0]);
        assert(n / b >= 1) by (nonlinear_arith)
            requires
                n >= b,
                b >= 2,
        ;
    }
}

/// The offset column reads back as the offset: spaces, then the digits of the
/// offset in base 16 (`0`..`9`, `a`..`f`) or base 10, with no leading zero,
/// then one space; eight characters at least before that space, and no space
/// in front when the digits fill them. The result is where the digits start.
pub proof fn law_offset_column_reads_back(offset: u64, format: OffsetFormat) -> (k: int)
    ensures
        ({
            let t = offset_text(offset, format);
            let base: int = match format {
                OffsetFormat::Hex => 16,
                OffsetFormat::Decimal => 10,
            };
            &&& t.len() == (if t.len() - 1 > 8 { t.len() } else { 9 })
            &&& t.last() == ' '
            &&& 0 <= k < t.len() - 1
            &&& (t.len() > 9 ==> k == 0)
            &&& forall|i: int| 0 <= i < k ==> #[trigger] t[i] == ' '
            &&& forall|i: int| k <= i < t.len() - 1 ==> is_digit_of(#[trigger] t[i], base)
            &&& number_of(t.subrange(k, t.len() - 1), base) == offset
            &&& (t[k] == '0' ==> k == t.len() - 2)
        }),
{
    let base: int = match format {
        OffsetFormat::Hex => 16,
        OffsetFormat::Decimal => 10,
    };
    lemma_digits(offset as nat, base);
    let ds = digits(offset as nat, base as nat);
    let t = offset_text(offset, format);
    let padded = pad_left(ds, 8);
    assert(t == padded + seq![' ']);
    let k: int = if ds.len() >= 8 { 0 } else { 8 - ds.len() };
    assert(padded.subrange(k, padded.len() as int) =~= ds);
    assert(t.subrange(k, t.len() - 1) =~= ds);
    assert forall|i: int| k <= i < t.len() - 1 implies is_digit_of(#[trigger] t[i], base) by {
        assert(t[i] == ds[i - k]);
    }
    assert(t[k] == ds[0]);
    if ds[0] == '0' {
        assert(offset == 0);
        assert(digits(0, base as nat) == seq![digit_char(0)]);
    }
    k
}

/// Each byte of context is written as two lowercase hexadecimal digits, the
/// high half first: the column is `[`, then two digits per byte before,
/// then `]...[`, two digits per byte after, and `] `.
pub proof fn law_context_column_reads_back(before: Seq<u8>, after: Seq<u8>)
    ensures
        context_text(before, after).len() == 2 * before.len() + 2 * after.len() + 8,
        context_text(before, after)[0] == '[',
        context_text(before, after).subrange(2 * before.len() + 1int, 2 * before.len() + 6int) == seq![']', '.', '.', '.', '['],
        context_text(before, after).subrange(2 * before.len() + 2 * after.len() + 6int, 2 * before.len() + 2 * after.len() + 8int) == seq![']', ' '],
        forall|j: int| 0 <= j < before.len() ==> {
            &&& is_digit_of(#[trigger] context_text(before, after)[1 + 2 * j], 16)
            &&& is_digit_of(context_text(before, after)[2 + 2 * j], 16)
            &&& digit_value(context_text(before, after)[1 + 2 * j]) * 16 + digit_value(context_text(before, after)[2 + 2 * j]) == before[j]
        },
        forall|j: int| 0 <= j < after.len() ==> {
            &&& is_digit_of(#[trigger] context_text(before, after)[2 * before.len() + 6 + 2 * j], 16)
            &&& is_digit_of(context_text(before, after)[2 * before.len() + 7 + 2 * j], 16)
            &&& digit_value(context_text(before, after)[2 * before.len() + 6 + 2 * j]) * 16
                + digit_value(context_text(before, after)[2 * before.len() + 7 + 2 * j]) == after[j]
        },
{
    lemma_hex_text(before);
    lemma_hex_text(after);
    let t = context_text(before, after);
    let hb = hex_text(before);
    let ha = hex_text(after);
    assert(t == seq!['['] + hb + seq![']', '.', '.', '.', '['] + ha + seq![']', ' ']);
    assert(t.len() == 2 * before.len() + 2 * after.len() + 8);
    assert(t[2 * before.len() + 2 * after.len() + 6int] == ']');
    assert(t[2 * before.len() + 2 * after.len() + 7int] == ' ');
    assert(t.subrange(2 * before.len() + 1int, 2 * before.len() + 6int) =~= seq![']', '.', '.', '.', '[']);
    assert(t.subrange(2 * before.len() + 2 * after.len() + 6int, 2 * before.len() + 2 * after.len() + 8int) =~= seq![']', ' ']);
    assert forall|j: int| 0 <= j < before.len() implies {
        &&& is_digit_of(#[trigger] t[1 + 2 * j], 16)
        &&& is_digit_of(t[2 + 2 * j], 16)
        &&& digit_value(t[1 + 2 * j]) * 16 + digit_value(t[2 + 2 * j]) == before[j]
    } by {
        assert(t[1 + 2 * j] == hb[2 * j]);
        assert(t[2 + 2 * j] == hb[2 * j + 1]);
    }
    assert forall|j: int| 0 <= j < after.len() implies {
        &&& is_digit_of(#[trigger] t[2 * before.len() + 6 + 2 * j], 16)
        &&& is_digit_of(t[2 * before.len() + 7 + 2 * j], 16)
        &&& digit_value(t[2 * before.len() + 6 + 2 * j]) * 16 + digit_value(t[2 * before.len() + 7 + 2 * j]) == after[j]
    } by {
        assert(t[2 * before.len() + 6 + 2 * j] == ha[2 * j]);
        assert(t[2 * before.len() + 7 + 2 * j] == ha[2 * j + 1]);
    }
}

proof fn lemma_hex_text(bytes: Seq<u8>)
    ensures
        hex_text(bytes).len() == 2 * bytes.len(),
        forall|j: int| 0 <= j < bytes.len() ==> {
            &&& is_digit_of(#[trigger] hex_text(bytes)[2 * j], 16)
            &&& is_digit_of(hex_text(bytes)[2 * j + 1], 16)
            &&& digit_value(hex_text(bytes)[2 * j]) * 16 + digit_value(hex_text(bytes)[2 * j + 1]) == bytes[j]
        },
    decreases bytes.len(),
{
    if bytes.len() > 0 {
        let pre = bytes.drop_last();
        lemma_hex_text(pre);
        let v = bytes.last() as nat;
        lemma_digit_char(v / 16, 16);
        lemma_digit_char(v % 16, 16);
        let h = hex_text(bytes);
        assert(h == hex_text(pre) + seq![digit_char(v / 16), digit_char(v % 16)]);
        assert forall|j: int| 0 <= j < bytes.len() implies {
            &&& is_digit_of(#[trigger] h[2 * j], 16)
            &&& is_digit_of(h[2 * j + 1], 16)
            &&& digit_value(h[2 * j]) * 16 + digit_value(h[2 * j + 1]) == bytes[j]
        } by {
            if j < pre.len() {
                assert(h[2 * j] == hex_text(pre)[2 * j]);
                assert(h[2 * j + 1] == hex_text(pre)[2 * j + 1]);
                assert(pre[j] == bytes[j]);
            }
        }
    }
}

} // verus!
