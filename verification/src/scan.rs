//! Extraction of printable strings from raw bytes.

use vstd::prelude::*;
use vstd::utf8::{decode_utf8, valid_utf8};
use crate::text::{chars_of, is_printable_byte, printable_byte};

verus! {

/// How characters are laid out in the scanned bytes.
#[derive(Clone, Copy, PartialEq, Eq, Debug, Structural)]
pub enum Encoding {
    /// One byte per character.
    Single,
    /// Two bytes per character: the character, then a zero byte.
    Utf16Le,
    /// Two bytes per character: a zero byte, then the character.
    Utf16Be,
    /// Any other name: bytes are read one per character, as for `Single`, but
    /// offsets and context count two bytes per character, as for UTF-16.
    Other,
}

impl Encoding {
    /// The encoding selected by a name: `s` is single-byte, `l` is UTF-16
    /// little-endian, `b` is UTF-16 big-endian, and every other name is `Other`.
    pub open spec fn named(name: Seq<char>) -> Encoding {
        if name == seq!['s'] {
            Encoding::Single
        } else if name == seq!['l'] {
            Encoding::Utf16Le
        } else if name == seq!['b'] {
            Encoding::Utf16Be
        } else {
            Encoding::Other
        }
    }

    pub fn from_name(name: &str) -> (r: Encoding)
        ensures
            r == Encoding::named(name@),
    {
        let cs = chars_of(name);
        if cs.len() == 1 && cs[0] == 's' {
            assert(name@ =~= seq!['s']);
            Encoding::Single
        } else if cs.len() == 1 && cs[0] == 'l' {
            assert(name@ =~= seq!['l']);
            Encoding::Utf16Le
        } else if cs.len() == 1 && cs[0] == 'b' {
            assert(name@ =~= seq!['b']);
            Encoding::Utf16Be
        } else {
            assert(name@ != seq!['s'] && name@ != seq!['l'] && name@ != seq!['b']) by {
                if name@ == seq!['s'] || name@ == seq!['l'] || name@ == seq!['b'] {
                    assert(cs@.len() == 1);
                }
            }
            Encoding::Other
        }
    }

    /// Whether bytes are read one per character (all but the UTF-16 encodings).
    pub open spec fn one_byte(self) -> bool {
        self is Single || self is Other
    }

    /// Bytes that offsets and context count per character.
    pub open spec fn width(self) -> nat {
        match self {
            Encoding::Single => 1,
            _ => 2,
        }
    }
}

/// The bytes of `data`, each XOR-ed with `key`.
pub open spec fn xor_all(data: Seq<u8>, key: u8) -> Seq<u8> {
    Seq::new(data.len(), |i: int| data[i] ^ key)
}

/// The state of the scanner after some prefix of the bytes.
pub struct ScanState {
    /// Characters of the string being collected.
    pub run: Seq<u8>,
    /// In a two-byte encoding: the first byte of a pair not yet completed.
    pub pending: Option<u8>,
    /// Strings found so far, with the position of their first byte.
    pub found: Seq<(Seq<u8>, int)>,
}

pub open spec fn initial_state() -> ScanState {
    ScanState { run: seq![], pending: None, found: seq![] }
}

/// Ends the current run: it is kept when it has at least `min_len` characters.
pub open spec fn end_run(st: ScanState, min_len: nat, start: int) -> ScanState {
    ScanState {
        run: seq![],
        pending: st.pending,
        found: if st.run.len() >= min_len { st.found.push((st.run, start)) } else { st.found },
    }
}

/// One byte `b`, at position `i`, fed to the scanner.
///
/// Single-byte (and `Other`): a printable byte extends the run; any other byte
/// ends it. The run's start is counted back `width` bytes per character.
/// Two-byte: bytes are taken in pairs; a pair made of a printable byte and a
/// zero byte (in the encoding's order) extends the run; any other pair ends the
/// run, and its second byte becomes the first byte of the next pair.
pub open spec fn scan_step(enc: Encoding, min_len: nat, st: ScanState, b: u8, i: int) -> ScanState {
    match enc {
        Encoding::Single | Encoding::Other => if is_printable_byte(b) {
            ScanState { run: st.run.push(b), pending: st.pending, found: st.found }
        } else {
            end_run(st, min_len, i - enc.width() * st.run.len())
        },
        Encoding::Utf16Le => match st.pending {
            None => ScanState { run: st.run, pending: Some(b), found: st.found },
            Some(p) => if b == 0 && is_printable_byte(p) {
                ScanState { run: st.run.push(p), pending: None, found: st.found }
            } else {
                end_run(
                    ScanState { run: st.run, pending: Some(b), found: st.found },
                    min_len,
                    i - 1 - 2 * st.run.len(),
                )
            },
        },
        Encoding::Utf16Be => match st.pending {
            None => ScanState { run: st.run, pending: Some(b), found: st.found },
            Some(p) => if p == 0 && is_printable_byte(b) {
                ScanState { run: st.run.push(b), pending: None, found: st.found }
            } else {
                end_run(
                    ScanState { run: st.run, pending: Some(b), found: st.found },
                    min_len,
                    i - 1 - 2 * st.run.len(),
                )
            },
        },
    }
}

/// The scanner's state after the first `n` bytes.
pub open spec fn scan_upto(bytes: Seq<u8>, enc: Encoding, min_len: nat, n: nat) -> ScanState
    decreases n,
{
    if n == 0 {
        initial_state()
    } else {
        scan_step(enc, min_len, scan_upto(bytes, enc, min_len, (n - 1) as nat), bytes[n - 1], n - 1)
    }
}

/// Where the open run starts once `n` bytes are read: its characters stand
/// just before the byte still waiting for its pair, if there is one.
pub open spec fn run_start(enc: Encoding, st: ScanState, n: int) -> int {
    match st.pending {
        None => n - enc.width() * st.run.len(),
        Some(_) => n - 1 - 2 * st.run.len(),
    }
}

/// Every string the scanner finds in `bytes`, with its start position.
///
/// When `at_end` is set, `bytes` run to the end of the input, and a run still
/// open there is reported like one that a non-printable byte ends. Otherwise
/// more input follows (the next window reads that run again from its start),
/// and the open run is not reported.
pub open spec fn scan_runs(bytes: Seq<u8>, enc: Encoding, min_len: nat, at_end: bool) -> Seq<(Seq<u8>, int)> {
    let st = scan_upto(bytes, enc, min_len, bytes.len());
    if at_end {
        end_run(st, min_len, run_start(enc, st, bytes.len() as int)).found
    } else {
        st.found
    }
}

/// The found runs that are valid UTF-8, decoded to characters.
pub open spec fn as_strings(found: Seq<(Seq<u8>, int)>) -> Seq<(Seq<char>, int)>
    decreases found.len(),
{
    if found.len() == 0 {
        seq![]
    } else {
        let last = found.last();
        as_strings(found.drop_last()) + if valid_utf8(last.0) {
            seq![(decode_utf8(last.0), last.1)]
        } else {
            seq![]
        }
    }
}

proof fn lemma_as_strings_push(found: Seq<(Seq<u8>, int)>, x: (Seq<u8>, int))
    ensures
        as_strings(found.push(x)) == as_strings(found) + if valid_utf8(x.0) {
            seq![(decode_utf8(x.0), x.1)]
        } else {
            seq![]
        },
{
    assert(found.push(x).drop_last() =~= found);
}

/// Every byte of `run` is printable.
pub open spec fn all_printable(run: Seq<u8>) -> bool {
    forall|k: int| 0 <= k < run.len() ==> #[trigger] is_printable_byte(run[k])
}

/// `run` stands in `bytes` at `start`, laid out as the encoding lays out
/// characters; with `Other`, whose offsets count two bytes per character read
/// one byte each, the run stands `run.len()` bytes after `start`.
pub open spec fn laid_out(bytes: Seq<u8>, enc: Encoding, run: Seq<u8>, start: int) -> bool {
    match enc {
        Encoding::Other => 0 <= start + run.len() && start + 2 * run.len() <= bytes.len()
            && bytes.subrange(start + run.len(), start + 2 * run.len()) == run,
        Encoding::Single => 0 <= start && start + run.len() <= bytes.len()
            && bytes.subrange(start, start + run.len()) == run,
        Encoding::Utf16Le => 0 <= start && start + 2 * run.len() <= bytes.len()
            && forall|k: int| 0 <= k < run.len() ==> {
                &&& #[trigger] bytes[start + 2 * k] == run[k]
                &&& bytes[start + 2 * k + 1] == 0
            },
        Encoding::Utf16Be => 0 <= start && start + 2 * run.len() <= bytes.len()
            && forall|k: int| 0 <= k < run.len() ==> {
                &&& #[trigger] bytes[start + 2 * k] == 0
                &&& bytes[start + 2 * k + 1] == run[k]
            },
    }
}

/// A found run is long enough, printable, and stands at its position.
pub open spec fn sound_find(bytes: Seq<u8>, enc: Encoding, min_len: nat, x: (Seq<u8>, int)) -> bool {
    &&& x.0.len() >= min_len
    &&& all_printable(x.0)
    &&& laid_out(bytes, enc, x.0, x.1)
}

/// What holds of the scanner after `n` bytes: what it found is sound, and the
/// open run stands just before the bytes not yet paired.
pub open spec fn scan_invariant(bytes: Seq<u8>, enc: Encoding, min_len: nat, n: int, st: ScanState) -> bool {
    &&& forall|k: int| 0 <= k < st.found.len() ==> #[trigger] sound_find(bytes, enc, min_len, st.found[k])
    &&& all_printable(st.run)
    &&& (enc.one_byte() ==> (n - st.run.len() == 0 || !is_printable_byte(bytes[n - st.run.len() - 1])))
    &&& (!enc.one_byte() && st.pending is None ==> n == 0 || st.run.len() > 0)
    &&& match st.pending {
        None => laid_out(bytes, enc, st.run, n - enc.width() * st.run.len()),
        Some(p) => !enc.one_byte() && 1 <= n && bytes[n - 1] == p
            && laid_out(bytes, enc, st.run, n - 1 - 2 * st.run.len()),
    }
}

proof fn lemma_scan_invariant(bytes: Seq<u8>, enc: Encoding, min_len: nat, n: nat)
    requires
        n <= bytes.len(),
    ensures
        scan_invariant(bytes, enc, min_len, n as int, scan_upto(bytes, enc, min_len, n)),
    decreases n,
{
    if n == 0 {
        assert(bytes.subrange(0, 0) =~= Seq::<u8>::empty());
    } else {
        let i = (n - 1) as int;
        lemma_scan_invariant(bytes, enc, min_len, (n - 1) as nat);
        let st = scan_upto(bytes, enc, min_len, (n - 1) as nat);
        let st2 = scan_upto(bytes, enc, min_len, n);
        let b = bytes[i];
        assert(st2 == scan_step(enc, min_len, st, b, i));
        let len = st.run.len() as int;
        match enc {
            Encoding::Single | Encoding::Other => {
                if is_printable_byte(b) {
                    assert(bytes.subrange(i - len, i + 1) =~= st.run.push(b));
                    assert(all_printable(st2.run)) by {
                        assert forall|k: int| 0 <= k < st2.run.len() implies #[trigger] is_printable_byte(st2.run[k]) by {
                            if k < len {
                                assert(st2.run[k] == st.run[k]);
                            }
                        }
                    }
                } else {
                    assert(bytes.subrange(n as int, n as int) =~= Seq::<u8>::empty());
                    assert forall|k: int| 0 <= k < st2.found.len() implies #[trigger] sound_find(bytes, enc, min_len, st2.found[k]) by {
                        if k < st.found.len() {
                            assert(st2.found[k] == st.found[k]);
                        }
                    }
                }
            },
            Encoding::Utf16Le | Encoding::Utf16Be => {
                match st.pending {
                    None => {},
                    Some(p) => {
                        let start = i - 1 - 2 * len;
                        let ok = if enc == Encoding::Utf16Le { b == 0 && is_printable_byte(p) } else { p == 0 && is_printable_byte(b) };
                        if ok {
                            let c = if enc == Encoding::Utf16Le { p } else { b };
                            assert(st2.run == st.run.push(c));
                            assert(laid_out(bytes, enc, st2.run, start)) by {
                                assert forall|k: int| 0 <= k < st2.run.len() implies
                                    if enc == Encoding::Utf16Le {
                                        #[trigger] bytes[start + 2 * k] == st2.run[k] && bytes[start + 2 * k + 1] == 0
                                    } else {
                                        bytes[start + 2 * k] == 0 && bytes[start + 2 * k + 1] == st2.run[k]
                                    } by {
                                    if k < len {
                                        assert(st2.run[k] == st.run[k]);
                                    } else {
                                        assert(start + 2 * k == i - 1);
                                    }
                                }
                            }
                            assert(n - 2 * st2.run.len() == start);
                            assert(all_printable(st2.run)) by {
                                assert forall|k: int| 0 <= k < st2.run.len() implies #[trigger] is_printable_byte(st2.run[k]) by {
                                    if k < len {
                                        assert(st2.run[k] == st.run[k]);
                                    }
                                }
                            }
                        } else {
                            assert forall|k: int| 0 <= k < st2.found.len() implies #[trigger] sound_find(bytes, enc, min_len, st2.found[k]) by {
                                if k < st.found.len() {
                                    assert(st2.found[k] == st.found[k]);
                                }
                            }
                        }
                    },
                }
            },
        }
    }
}

/// Soundness of the scanner: each string it finds has at least `min_len`
/// characters, all printable, and stands in the scanned bytes at the position
/// reported, laid out as the encoding lays out characters.
pub proof fn law_found_strings_are_in_the_data(bytes: Seq<u8>, enc: Encoding, min_len: nat, at_end: bool)
    ensures
        forall|k: int| 0 <= k < scan_runs(bytes, enc, min_len, at_end).len() ==>
            #[trigger] sound_find(bytes, enc, min_len, scan_runs(bytes, enc, min_len, at_end)[k]),
{
    let n = bytes.len();
    lemma_scan_invariant(bytes, enc, min_len, n);
    let st = scan_upto(bytes, enc, min_len, n);
    let found = scan_runs(bytes, enc, min_len, at_end);
    if at_end && st.run.len() >= min_len {
        assert(found == st.found.push((st.run, run_start(enc, st, n as int))));
        assert forall|k: int| 0 <= k < found.len() implies #[trigger] sound_find(bytes, enc, min_len, found[k]) by {
            if k < st.found.len() {
                assert(found[k] == st.found[k]);
            }
        }
    }
}

proof fn lemma_end_run_keeps(st: ScanState, min_len: nat, start: int, x: (Seq<u8>, int))
    requires
        st.found.contains(x),
    ensures
        end_run(st, min_len, start).found.contains(x),
{
    let k = choose|k: int| 0 <= k < st.found.len() && st.found[k] == x;
    assert(end_run(st, min_len, start).found[k] == x);
}

proof fn lemma_found_grows(bytes: Seq<u8>, enc: Encoding, min_len: nat, n: nat, m: nat, x: (Seq<u8>, int))
    requires
        n <= m,
        scan_upto(bytes, enc, min_len, n).found.contains(x),
    ensures
        scan_upto(bytes, enc, min_len, m).found.contains(x),
    decreases m - n,
{
    if n < m {
        lemma_found_grows(bytes, enc, min_len, n, (m - 1) as nat, x);
        let st = scan_upto(bytes, enc, min_len, (m - 1) as nat);
        let st2 = scan_upto(bytes, enc, min_len, m);
        assert(st2 == scan_step(enc, min_len, st, bytes[m - 1], m - 1));
        let k = choose|k: int| 0 <= k < st.found.len() && st.found[k] == x;
        assert(st2.found[k] == x);
    }
}

/// A run of printable bytes that cannot be extended either way: it starts the
/// bytes or follows a byte that is not printable, and a byte that is not
/// printable follows it, or it reaches the end of the input.
pub open spec fn maximal_run(bytes: Seq<u8>, s: int, e: int, at_end: bool) -> bool {
    &&& 0 <= s <= e <= bytes.len()
    &&& (s == 0 || !is_printable_byte(bytes[s - 1]))
    &&& forall|k: int| s <= k < e ==> #[trigger] is_printable_byte(bytes[k])
    &&& if e < bytes.len() { !is_printable_byte(bytes[e]) } else { at_end }
}

/// Where a one-byte scan reports a run of `len` characters that starts at `s`:
/// at `s`, or, with `Other`, `len` bytes earlier (two bytes counted per character).
pub open spec fn reported_start(enc: Encoding, s: int, len: int) -> int {
    if enc is Other { s - len } else { s }
}

/// Completeness of the one-byte scanners: every run of printable bytes that
/// cannot be extended and has at least `min_len` bytes is found, at its start
/// as `reported_start` counts it.
pub proof fn law_single_byte_scan_finds_every_run(bytes: Seq<u8>, enc: Encoding, min_len: nat, s: int, e: int, at_end: bool)
    requires
        enc.one_byte(),
        maximal_run(bytes, s, e, at_end),
        e - s >= min_len,
    ensures
        scan_runs(bytes, enc, min_len, at_end).contains((bytes.subrange(s, e), reported_start(enc, s, e - s))),
{
    let x = (bytes.subrange(s, e), reported_start(enc, s, e - s));
    lemma_scan_invariant(bytes, enc, min_len, e as nat);
    let st = scan_upto(bytes, enc, min_len, e as nat);
    let len = st.run.len() as int;
    assert(bytes.subrange(e - len, e) == st.run);
    if e - len > s {
        assert(is_printable_byte(bytes[e - len - 1]));
    }
    if e - len < s {
        assert(bytes.subrange(e - len, e)[s - 1 - (e - len)] == bytes[s - 1]);
        assert(is_printable_byte(st.run[s - 1 - (e - len)]));
    }
    assert(e - len == s);
    let fin = scan_upto(bytes, enc, min_len, bytes.len());
    if e < bytes.len() {
        let st2 = scan_upto(bytes, enc, min_len, (e + 1) as nat);
        assert(st2 == scan_step(enc, min_len, st, bytes[e], e));
        assert(st2.found.last() == x);
        assert(st2.found.contains(x));
        lemma_found_grows(bytes, enc, min_len, (e + 1) as nat, bytes.len(), x);
        if at_end {
            lemma_end_run_keeps(fin, min_len, run_start(enc, fin, bytes.len() as int), x);
        }
    } else {
        assert(st.pending is None);
        assert(run_start(enc, st, e) == x.1);
        let found = end_run(st, min_len, x.1).found;
        assert(found.last() == x);
        assert(found.contains(x));
    }
}

/// Bytes `a`, `b` make one character in a two-byte encoding: a printable
/// byte and a zero byte, in the encoding's order.
pub open spec fn char_pair(enc: Encoding, a: u8, b: u8) -> bool {
    match enc {
        Encoding::Utf16Be => a == 0 && is_printable_byte(b),
        _ => b == 0 && is_printable_byte(a),
    }
}

/// The character that such a pair stands for.
pub open spec fn pair_char(enc: Encoding, a: u8, b: u8) -> u8 {
    match enc {
        Encoding::Utf16Be => b,
        _ => a,
    }
}

/// The `len` characters laid out two bytes each from position `s`.
pub open spec fn wide_chars(bytes: Seq<u8>, enc: Encoding, s: int, len: int) -> Seq<u8> {
    Seq::new(len as nat, |k: int| pair_char(enc, bytes[s + 2 * k], bytes[s + 2 * k + 1]))
}

/// A run of `len >= 1` characters in a two-byte encoding, from position `s`,
/// that cannot be extended either way: the two bytes before it are not a
/// character, and the two bytes after it are not one either, or the input
/// ends before they are whole.
pub open spec fn maximal_wide_run(bytes: Seq<u8>, enc: Encoding, s: int, len: int, at_end: bool) -> bool {
    &&& !enc.one_byte()
    &&& 0 <= s && 1 <= len && s + 2 * len <= bytes.len()
    &&& forall|k: int| 0 <= k < len ==> #[trigger] char_pair(enc, bytes[s + 2 * k], bytes[s + 2 * k + 1])
    &&& (s < 2 || !char_pair(enc, bytes[s - 2], bytes[s - 1]))
    &&& if s + 2 * len + 1 < bytes.len() {
        !char_pair(enc, bytes[s + 2 * len], bytes[s + 2 * len + 1])
    } else {
        at_end
    }
}

proof fn lemma_wide_start(bytes: Seq<u8>, enc: Encoding, min_len: nat, s: int, len: int, at_end: bool)
    requires
        maximal_wide_run(bytes, enc, s, len, at_end),
    ensures
        scan_upto(bytes, enc, min_len, (s + 1) as nat).run == Seq::<u8>::empty(),
        scan_upto(bytes, enc, min_len, (s + 1) as nat).pending == Some(bytes[s]),
{
    lemma_scan_invariant(bytes, enc, min_len, s as nat);
    let st = scan_upto(bytes, enc, min_len, s as nat);
    let st2 = scan_upto(bytes, enc, min_len, (s + 1) as nat);
    assert(st2 == scan_step(enc, min_len, st, bytes[s], s));
    assert(char_pair(enc, bytes[s + 2 * 0], bytes[s + 2 * 0 + 1]));
    match st.pending {
        None => {
            if s > 0 {
                let l = st.run.len() as int;
                let start = s - 2 * l;
                assert(laid_out(bytes, enc, st.run, start));
                assert(start + 2 * (l - 1) == s - 2);
                assert(is_printable_byte(st.run[l - 1]));
                if enc == Encoding::Utf16Le {
                    assert(bytes[start + 2 * (l - 1)] == st.run[l - 1]);
                } else {
                    assert(bytes[start + 2 * (l - 1)] == 0);
                }
                assert(char_pair(enc, bytes[s - 2], bytes[s - 1]));
            }
            assert(s == 0);
        },
        Some(p) => {},
    }
}

proof fn lemma_wide_prefix(bytes: Seq<u8>, enc: Encoding, min_len: nat, s: int, len: int, at_end: bool, k: int)
    requires
        maximal_wide_run(bytes, enc, s, len, at_end),
        1 <= k <= len,
    ensures
        scan_upto(bytes, enc, min_len, (s + 2 * k) as nat).run == wide_chars(bytes, enc, s, k),
        scan_upto(bytes, enc, min_len, (s + 2 * k) as nat).pending is None,
    decreases k,
{
    let j = k - 1;
    let odd = scan_upto(bytes, enc, min_len, (s + 2 * j + 1) as nat);
    if k == 1 {
        lemma_wide_start(bytes, enc, min_len, s, len, at_end);
    } else {
        lemma_wide_prefix(bytes, enc, min_len, s, len, at_end, j);
        let even = scan_upto(bytes, enc, min_len, (s + 2 * j) as nat);
        assert(odd == scan_step(enc, min_len, even, bytes[s + 2 * j], s + 2 * j));
    }
    assert(odd.run == wide_chars(bytes, enc, s, j));
    assert(odd.pending == Some(bytes[s + 2 * j]));
    let st2 = scan_upto(bytes, enc, min_len, (s + 2 * k) as nat);
    assert(st2 == scan_step(enc, min_len, odd, bytes[s + 2 * j + 1], s + 2 * j + 1));
    assert(char_pair(enc, bytes[s + 2 * j], bytes[s + 2 * j + 1]));
    assert(wide_chars(bytes, enc, s, j).push(pair_char(enc, bytes[s + 2 * j], bytes[s + 2 * j + 1]))
        =~= wide_chars(bytes, enc, s, k));
}

/// Completeness of the two-byte scanners: every run of at least `min_len`
/// characters that cannot be extended is found, at its start.
pub proof fn law_wide_scan_finds_every_run(bytes: Seq<u8>, enc: Encoding, min_len: nat, s: int, len: int, at_end: bool)
    requires
        maximal_wide_run(bytes, enc, s, len, at_end),
        len >= min_len,
    ensures
        scan_runs(bytes, enc, min_len, at_end).contains((wide_chars(bytes, enc, s, len), s)),
{
    let x = (wide_chars(bytes, enc, s, len), s);
    let n = s + 2 * len;
    lemma_wide_prefix(bytes, enc, min_len, s, len, at_end, len);
    let st = scan_upto(bytes, enc, min_len, n as nat);
    let fin = scan_upto(bytes, enc, min_len, bytes.len());
    if n == bytes.len() {
        assert(run_start(enc, st, n) == s);
        assert(end_run(st, min_len, s).found.last() == x);
    } else {
        let st1 = scan_upto(bytes, enc, min_len, (n + 1) as nat);
        assert(st1 == scan_step(enc, min_len, st, bytes[n], n));
        if n + 1 == bytes.len() {
            assert(run_start(enc, st1, n + 1) == s);
            assert(end_run(st1, min_len, s).found.last() == x);
        } else {
            let st2 = scan_upto(bytes, enc, min_len, (n + 2) as nat);
            assert(st2 == scan_step(enc, min_len, st1, bytes[n + 1], n + 1));
            assert(st2.found.last() == x);
            lemma_found_grows(bytes, enc, min_len, (n + 2) as nat, bytes.len(), x);
            if at_end {
                lemma_end_run_keeps(fin, min_len, run_start(enc, fin, bytes.len() as int), x);
            }
        }
    }
}

/// The positions of found strings strictly increase.
pub open spec fn starts_increase(found: Seq<(Seq<u8>, int)>) -> bool {
    forall|j: int, k: int| 0 <= j < k < found.len() ==> #[trigger] found[j].1 < #[trigger] found[k].1
}

proof fn lemma_starts_increase(bytes: Seq<u8>, enc: Encoding, min_len: nat, n: nat)
    requires
        n <= bytes.len(),
        enc != Encoding::Other,
    ensures
        starts_increase(scan_upto(bytes, enc, min_len, n).found),
        scan_upto(bytes, enc, min_len, n).found.len() > 0 ==>
            scan_upto(bytes, enc, min_len, n).found.last().1
                < run_start(enc, scan_upto(bytes, enc, min_len, n), n as int),
    decreases n,
{
    if n > 0 {
        let i = (n - 1) as int;
        lemma_starts_increase(bytes, enc, min_len, (n - 1) as nat);
        lemma_scan_invariant(bytes, enc, min_len, (n - 1) as nat);
        let st = scan_upto(bytes, enc, min_len, (n - 1) as nat);
        let st2 = scan_upto(bytes, enc, min_len, n);
        assert(st2 == scan_step(enc, min_len, st, bytes[i], i));
        if st2.found.len() > st.found.len() {
            assert(st2.found == st.found.push(st2.found.last()));
            assert(st2.found.last().1 == run_start(enc, st, i));
            assert forall|j: int, k: int| 0 <= j < k < st2.found.len() implies #[trigger] st2.found[j].1 < #[trigger] st2.found[k].1 by {
                if k < st.found.len() {
                    assert(st2.found[j] == st.found[j]);
                    assert(st2.found[k] == st.found[k]);
                } else {
                    assert(st2.found[j] == st.found[j]);
                    if j < st.found.len() - 1 {
                        assert(st.found[j].1 < st.found[st.found.len() - 1].1);
                    }
                }
            }
        } else {
            assert(st2.found == st.found);
        }
    }
}

/// The strings the scanner finds come in the order of their positions, each
/// strictly after the one before. (Not with `Other`, whose positions are
/// counted back two bytes per character read one byte each.)
pub proof fn law_found_offsets_increase(bytes: Seq<u8>, enc: Encoding, min_len: nat, at_end: bool)
    requires
        enc != Encoding::Other,
    ensures
        starts_increase(scan_runs(bytes, enc, min_len, at_end)),
{
    let n = bytes.len();
    lemma_starts_increase(bytes, enc, min_len, n);
    let st = scan_upto(bytes, enc, min_len, n);
    let found = scan_runs(bytes, enc, min_len, at_end);
    if at_end && st.run.len() >= min_len {
        assert(found == st.found.push((st.run, run_start(enc, st, n as int))));
        assert forall|j: int, k: int| 0 <= j < k < found.len() implies #[trigger] found[j].1 < #[trigger] found[k].1 by {
            assert(found[j] == st.found[j]);
            if k < st.found.len() {
                assert(found[k] == st.found[k]);
            } else if j < st.found.len() - 1 {
                assert(st.found[j].1 < st.found[st.found.len() - 1].1);
            }
        }
    }
}

/// The characters that ASCII bytes stand for.
pub open spec fn ascii_chars(b: Seq<u8>) -> Seq<char> {
    Seq::new(b.len(), |i: int| b[i] as char)
}

proof fn lemma_ascii_is_utf8(b: Seq<u8>)
    requires
        forall|i: int| 0 <= i < b.len() ==> #[trigger] b[i] <= 0x7f,
    ensures
        valid_utf8(b),
        decode_utf8(b) == ascii_chars(b),
    decreases b.len(),
{
    if b.len() > 0 {
        let rest = b.subrange(1, b.len() as int);
        lemma_ascii_is_utf8(rest);
        let b0 = b[0];
        assert(b0 <= 0x7f);
        assert(b0 & 0x7f == b0) by (bit_vector)
            requires
                b0 <= 0x7f,
        ;
        assert(vstd::utf8::pop_first_scalar(b) == rest);
        assert(ascii_chars(b) =~= seq![b0 as char] + ascii_chars(rest));
    }
}

/// Each string the scanner finds is reported: its printable bytes are valid
/// UTF-8, standing for the characters of the same codes.
pub proof fn law_found_runs_are_reported(bytes: Seq<u8>, enc: Encoding, min_len: nat, at_end: bool)
    ensures
        as_strings(scan_runs(bytes, enc, min_len, at_end)).len() == scan_runs(bytes, enc, min_len, at_end).len(),
        forall|k: int| 0 <= k < scan_runs(bytes, enc, min_len, at_end).len() ==>
            #[trigger] as_strings(scan_runs(bytes, enc, min_len, at_end))[k]
                == (ascii_chars(scan_runs(bytes, enc, min_len, at_end)[k].0), scan_runs(bytes, enc, min_len, at_end)[k].1),
{
    let found = scan_runs(bytes, enc, min_len, at_end);
    law_found_strings_are_in_the_data(bytes, enc, min_len, at_end);
    lemma_printable_runs_reported(bytes, enc, min_len, found);
}

proof fn lemma_printable_runs_reported(bytes: Seq<u8>, enc: Encoding, min_len: nat, found: Seq<(Seq<u8>, int)>)
    requires
        forall|k: int| 0 <= k < found.len() ==> #[trigger] sound_find(bytes, enc, min_len, found[k]),
    ensures
        as_strings(found).len() == found.len(),
        forall|k: int| 0 <= k < found.len() ==> #[trigger] as_strings(found)[k] == (ascii_chars(found[k].0), found[k].1),
    decreases found.len(),
{
    if found.len() > 0 {
        let pre = found.drop_last();
        assert forall|k: int| 0 <= k < pre.len() implies #[trigger] sound_find(bytes, enc, min_len, pre[k]) by {
            assert(pre[k] == found[k]);
        }
        lemma_printable_runs_reported(bytes, enc, min_len, pre);
        let last = found.last();
        assert(sound_find(bytes, enc, min_len, found[found.len() - 1]));
        assert forall|i: int| 0 <= i < last.0.len() implies #[trigger] last.0[i] <= 0x7f by {
            assert(is_printable_byte(last.0[i]));
        }
        lemma_ascii_is_utf8(last.0);
        assert forall|k: int| 0 <= k < found.len() implies #[trigger] as_strings(found)[k] == (ascii_chars(found[k].0), found[k].1) by {
            if k < pre.len() {
                assert(as_strings(found)[k] == as_strings(pre)[k]);
                assert(pre[k] == found[k]);
            }
        }
    }
}

/// The strings of a result with their positions, without the key.
pub open spec fn untagged(r: Seq<(Seq<char>, int, u8)>) -> Seq<(Seq<char>, int)> {
    r.map_values(|x: (Seq<char>, int, u8)| (x.0, x.1))
}

/// XOR with a key applied twice gives the bytes back, and a scan under key
/// `key` reports the strings, at the positions, that a scan of the raw bytes
/// XOR-ed with `key` reports; only the key it is tagged with differs.
pub proof fn law_xor_scan(data: Seq<u8>, enc: Encoding, min_len: nat, key: u8, at_end: bool)
    ensures
        xor_all(xor_all(data, key), key) == data,
        untagged(scan_result(data, enc, min_len, key, at_end))
            == untagged(scan_result(xor_all(data, key), enc, min_len, 0, at_end)),
        forall|k: int| 0 <= k < scan_result(data, enc, min_len, key, at_end).len() ==>
            (#[trigger] scan_result(data, enc, min_len, key, at_end)[k]).2 == key,
{
    assert forall|i: int| 0 <= i < data.len() implies (data[i] ^ key) ^ key == data[i] by {
        let x = data[i];
        assert((x ^ key) ^ key == x) by (bit_vector);
    }
    assert(xor_all(xor_all(data, key), key) =~= data);
    let once = xor_all(data, key);
    assert forall|i: int| 0 <= i < once.len() implies once[i] ^ 0 == once[i] by {
        let x = once[i];
        assert(x ^ 0 == x) by (bit_vector);
    }
    assert(xor_all(once, 0) =~= once);
    let found = as_strings(scan_runs(once, enc, min_len, at_end));
    assert(untagged(tagged(found, key)) =~= found);
    assert(untagged(tagged(found, 0)) =~= found);
}

/// The strings a scan reports come in the order of their positions, each
/// strictly after the one before (not with `Other`, as above).
pub proof fn law_reported_offsets_increase(data: Seq<u8>, enc: Encoding, min_len: nat, key: u8, at_end: bool)
    requires
        enc != Encoding::Other,
    ensures
        forall|j: int, k: int| 0 <= j < k < scan_result(data, enc, min_len, key, at_end).len() ==>
            (#[trigger] scan_result(data, enc, min_len, key, at_end)[j]).1
                < (#[trigger] scan_result(data, enc, min_len, key, at_end)[k]).1,
{
    let bytes = xor_all(data, key);
    let found = scan_runs(bytes, enc, min_len, at_end);
    let r = scan_result(data, enc, min_len, key, at_end);
    law_found_offsets_increase(bytes, enc, min_len, at_end);
    law_found_runs_are_reported(bytes, enc, min_len, at_end);
    assert forall|j: int, k: int| 0 <= j < k < r.len() implies (#[trigger] r[j]).1 < (#[trigger] r[k]).1 by {
        assert(r[j].1 == as_strings(found)[j].1);
        assert(r[k].1 == as_strings(found)[k].1);
        assert(found[j].1 < found[k].1);
    }
}

/// A string extracted from the data, with the absolute offset of its first byte
/// and the XOR key under which it was found (0: the raw bytes).
pub struct Extracted {
    pub content: String,
    pub offset: u64,
    pub xor_key: u8,
}

/// `items` holds exactly `expected`, with offsets shifted by `base`.
pub open spec fn extracted_as(items: Seq<Extracted>, base: u64, expected: Seq<(Seq<char>, int, u8)>) -> bool {
    &&& items.len() == expected.len()
    &&& forall|k: int| 0 <= k < items.len() ==> #[trigger] items[k].is(base, expected[k])
}

/// A position as an unsigned 64-bit offset: one below 0 wraps around, as
/// unsigned subtraction does. Only `Other`, whose offsets count two bytes per
/// character read one byte each, can report a position before the input.
pub open spec fn wrap64(v: int) -> int {
    if v < 0 { v + 0x1_0000_0000_0000_0000 } else { v }
}

impl Extracted {
    /// This item is the string `x.0` found `x.1` bytes after `base` (wrapped
    /// as `wrap64` says) under key `x.2`.
    pub open spec fn is(self, base: u64, x: (Seq<char>, int, u8)) -> bool {
        &&& self.content@ == x.0
        &&& self.offset == wrap64(base + x.1)
        &&& self.xor_key == x.2
    }
}

/// Tags each found string with the XOR key it was found under.
pub open spec fn tagged(found: Seq<(Seq<char>, int)>, key: u8) -> Seq<(Seq<char>, int, u8)> {
    found.map_values(|x: (Seq<char>, int)| (x.0, x.1, key))
}

/// The strings that a scan of `data` XOR-ed with `key` reports.
pub open spec fn scan_result(data: Seq<u8>, enc: Encoding, min_len: nat, key: u8, at_end: bool) -> Seq<(Seq<char>, int, u8)> {
    tagged(as_strings(scan_runs(xor_all(data, key), enc, min_len, at_end)), key)
}

/// The scans under keys `1 .. n` (in this order), one after the other.
pub open spec fn xor_sweep(data: Seq<u8>, enc: Encoding, min_len: nat, n: nat, at_end: bool) -> Seq<(Seq<char>, int, u8)>
    decreases n,
{
    if n <= 1 {
        seq![]
    } else {
        xor_sweep(data, enc, min_len, (n - 1) as nat, at_end) + scan_result(data, enc, min_len, (n - 1) as u8, at_end)
    }
}

/// What a batch reports: the raw scan, then, when `xor` is set, the scans under
/// every key from 1 to 255.
pub open spec fn batch_result(data: Seq<u8>, enc: Encoding, min_len: nat, xor: bool, at_end: bool) -> Seq<(Seq<char>, int, u8)> {
    scan_result(data, enc, min_len, 0, at_end) + if xor { xor_sweep(data, enc, min_len, 256, at_end) } else { seq![] }
}

proof fn lemma_extracted_concat(a: Seq<Extracted>, b: Seq<Extracted>, base: u64, x: Seq<(Seq<char>, int, u8)>, y: Seq<(Seq<char>, int, u8)>)
    requires
        extracted_as(a, base, x),
        extracted_as(b, base, y),
    ensures
        extracted_as(a + b, base, x + y),
{
    assert forall|k: int| 0 <= k < (a + b).len() implies #[trigger] (a + b)[k].is(base, (x + y)[k]) by {
        if k < a.len() {
            assert(a[k].is(base, x[k]));
        } else {
            assert(b[k - a.len()].is(base, y[k - a.len()]));
        }
    }
}

/// Calls `String::from_utf8`: a string exactly when the bytes are valid UTF-8,
/// holding the characters they encode.
#[verifier::external_body]
pub fn string_from_utf8(bytes: Vec<u8>) -> (r: Option<String>)
    ensures
        r is Some <==> valid_utf8(bytes@),
        r matches Some(s) ==> s@ == decode_utf8(bytes@),
{
    String::from_utf8(bytes).ok()
}

fn end_run_exec(run: &mut Vec<u8>, results: &mut Vec<Extracted>, min_len: usize, offset: u64, xor_key: u8)
    ensures
        final(run)@ == Seq::<u8>::empty(),
        old(run)@.len() >= min_len ==> {
            if valid_utf8(old(run)@) {
                &&& final(results)@.len() == old(results)@.len() + 1
                &&& final(results)@.take(old(results)@.len() as int) == old(results)@
                &&& final(results)@.last().content@ == decode_utf8(old(run)@)
                &&& final(results)@.last().offset == offset
                &&& final(results)@.last().xor_key == xor_key
            } else {
                final(results)@ == old(results)@
            }
        },
        old(run)@.len() < min_len ==> final(results)@ == old(results)@,
{
    let mut taken: Vec<u8> = Vec::new();
    std::mem::swap(&mut taken, run);
    if taken.len() >= min_len {
        match string_from_utf8(taken) {
            Some(s) => {
                results.push(Extracted { content: s, offset, xor_key });
                assert(results@.take(old(results)@.len() as int) =~= old(results)@);
            },
            None => {},
        }
    }
}

/// Scans `data` (each byte XOR-ed with `xor_key`) for printable strings of at
/// least `min_len` characters; `base_offset` is the absolute offset of `data[0]`.
/// `at_end` tells whether `data` runs to the end of the input: then a string
/// that reaches the end of `data` is reported too.
pub fn perform_scan(data: &[u8], base_offset: u64, min_len: usize, encoding: Encoding, xor_key: u8, at_end: bool) -> (r: Vec<Extracted>)
    requires
        base_offset + data@.len() <= u64::MAX,
    ensures
        extracted_as(r@, base_offset, scan_result(data@, encoding, min_len as nat, xor_key, at_end)),
{
    let ghost bytes = xor_all(data@, xor_key);
    let mut results: Vec<Extracted> = Vec::new();
    let mut run: Vec<u8> = Vec::new();
    let mut pending: Option<u8> = None;
    let mut i: usize = 0;
    while i < data.len()
        invariant
            i <= data@.len(),
            bytes == xor_all(data@, xor_key),
            base_offset + data@.len() <= u64::MAX,
            scan_upto(bytes, encoding, min_len as nat, i as nat).run == run@,
            scan_upto(bytes, encoding, min_len as nat, i as nat).pending == pending,
            extracted_as(results@, base_offset, tagged(as_strings(scan_upto(bytes, encoding, min_len as nat, i as nat).found), xor_key)),
            encoding.one_byte() ==> run@.len() <= i,
            !encoding.one_byte() ==> 2 * run@.len() + (if pending is Some { 1int } else { 0int }) <= i,
            encoding.one_byte() ==> pending is None,
        decreases data@.len() - i,
    {
        let b = data[i] ^ xor_key;
        assert(bytes[i as int] == b);
        let ghost st = scan_upto(bytes, encoding, min_len as nat, i as nat);
        let ghost old_results = results@;
        let abs = base_offset + i as u64;
        match encoding {
            Encoding::Single | Encoding::Other => {
                if printable_byte(b) {
                    run.push(b);
                } else {
                    let n = run.len() as u64;
                    let start = if encoding == Encoding::Single { abs - n } else { (abs - n).wrapping_sub(n) };
                    assert(start == wrap64(base_offset + i - encoding.width() * run@.len()));
                    end_run_exec(&mut run, &mut results, min_len, start, xor_key);
                }
            },
            Encoding::Utf16Le => {
                match pending {
                    None => {
                        pending = Some(b);
                    },
                    Some(p) => {
                        if b == 0 && printable_byte(p) {
                            run.push(p);
                            pending = None;
                        } else {
                            pending = Some(b);
                            let start = abs - 1 - 2 * run.len() as u64;
                            end_run_exec(&mut run, &mut results, min_len, start, xor_key);
                        }
                    },
                }
            },
            Encoding::Utf16Be => {
                match pending {
                    None => {
                        pending = Some(b);
                    },
                    Some(p) => {
                        if p == 0 && printable_byte(b) {
                            run.push(b);
                            pending = None;
                        } else {
                            pending = Some(b);
                            let start = abs - 1 - 2 * run.len() as u64;
                            end_run_exec(&mut run, &mut results, min_len, start, xor_key);
                        }
                    },
                }
            },
        }
        i = i + 1;
        proof {
            let st2 = scan_upto(bytes, encoding, min_len as nat, i as nat);
            assert(st2 == scan_step(encoding, min_len as nat, st, b, i - 1));
            let e = tagged(as_strings(st.found), xor_key);
            if st2.found.len() > st.found.len() {
                lemma_as_strings_push(st.found, st2.found.last());
                assert(st2.found =~= st.found.push(st2.found.last()));
                if !valid_utf8(st2.found.last().0) {
                    assert(as_strings(st2.found) =~= as_strings(st.found));
                } else {
                    let e2 = tagged(as_strings(st2.found), xor_key);
                    assert(e2.len() == e.len() + 1);
                    assert forall|k: int| 0 <= k < results@.len()
                        implies #[trigger] results@[k].is(base_offset, e2[k]) by {
                        if k < old_results.len() {
                            assert(results@[k] == results@.take(old_results.len() as int)[k]);
                            assert(old_results[k].is(base_offset, e[k]));
                        }
                    }
                }
            } else {
                assert(st2.found =~= st.found);
            }
        }
    }
    if at_end {
        let ghost st = scan_upto(bytes, encoding, min_len as nat, i as nat);
        let ghost old_results = results@;
        let end = base_offset + data.len() as u64;
        let n = run.len() as u64;
        let start = match encoding {
            Encoding::Single => end - n,
            Encoding::Other => (end - n).wrapping_sub(n),
            _ => match pending {
                None => end - 2 * n,
                Some(_) => end - 1 - 2 * n,
            },
        };
        assert(start == wrap64(base_offset + run_start(encoding, st, i as int)));
        end_run_exec(&mut run, &mut results, min_len, start, xor_key);
        proof {
            let f2 = end_run(st, min_len as nat, run_start(encoding, st, i as int)).found;
            let e = tagged(as_strings(st.found), xor_key);
            if f2.len() > st.found.len() {
                lemma_as_strings_push(st.found, f2.last());
                assert(f2 =~= st.found.push(f2.last()));
                if !valid_utf8(f2.last().0) {
                    assert(as_strings(f2) =~= as_strings(st.found));
                } else {
                    let e2 = tagged(as_strings(f2), xor_key);
                    assert(e2.len() == e.len() + 1);
                    assert forall|k: int| 0 <= k < results@.len()
                        implies #[trigger] results@[k].is(base_offset, e2[k]) by {
                        if k < old_results.len() {
                            assert(results@[k] == results@.take(old_results.len() as int)[k]);
                            assert(old_results[k].is(base_offset, e[k]));
                        }
                    }
                }
            } else {
                assert(f2 =~= st.found);
            }
        }
    }
    results
}

/// Scans `data` as it is, then, when `xor` is set, under every single-byte XOR
/// key from 1 to 255; `at_end` as for `perform_scan`.
pub fn scan_batch(data: &[u8], base_offset: u64, min_len: usize, encoding: Encoding, xor: bool, at_end: bool) -> (r: Vec<Extracted>)
    requires
        base_offset + data@.len() <= u64::MAX,
    ensures
        extracted_as(r@, base_offset, batch_result(data@, encoding, min_len as nat, xor, at_end)),
{
    let mut results = perform_scan(data, base_offset, min_len, encoding, 0, at_end);
    if xor {
        let mut key: u16 = 1;
        while key < 256
            invariant
                1 <= key <= 256,
                base_offset + data@.len() <= u64::MAX,
                extracted_as(results@, base_offset,
                    scan_result(data@, encoding, min_len as nat, 0, at_end) + xor_sweep(data@, encoding, min_len as nat, key as nat, at_end)),
            decreases 256 - key,
        {
            let mut part = perform_scan(data, base_offset, min_len, encoding, key as u8, at_end);
            let ghost before = results@;
            let ghost added = part@;
            results.append(&mut part);
            proof {
                let x = scan_result(data@, encoding, min_len as nat, 0, at_end) + xor_sweep(data@, encoding, min_len as nat, key as nat, at_end);
                let y = scan_result(data@, encoding, min_len as nat, key as u8, at_end);
                lemma_extracted_concat(before, added, base_offset, x, y);
                assert(xor_sweep(data@, encoding, min_len as nat, (key + 1) as nat, at_end) == xor_sweep(data@, encoding, min_len as nat, key as nat, at_end) + y);
                assert(x + y =~= scan_result(data@, encoding, min_len as nat, 0, at_end) + xor_sweep(data@, encoding, min_len as nat, (key + 1) as nat, at_end));
            }
            key = key + 1;
        }
    } else {
        assert(scan_result(data@, encoding, min_len as nat, 0, at_end) + seq![] =~= scan_result(data@, encoding, min_len as nat, 0, at_end));
    }
    results
}

// ---- The scan stated on the bytes themselves ----

proof fn lemma_xor_byte(data: Seq<u8>, key: u8, i: int)
    requires
        0 <= i < data.len(),
    ensures
        xor_all(data, key)[i] == data[i] ^ key,
        is_printable_byte(xor_all(data, key)[i]) == (0x20 <= data[i] ^ key && data[i] ^ key <= 0x7e),
{
}

/// Single-byte completeness, on the bytes: every run of bytes in 0x20..=0x7e
/// (after XOR with `key`) that cannot be extended either way (it ends at a
/// byte outside that range, or at the end of the input when `at_end` is set)
/// and has at least `min_len` bytes is reported, at its first byte, as the
/// characters of those bytes, tagged with `key`. No byte in 0x20..=0x7e ever
/// ends a run.
pub proof fn law_single_byte_scan_reports_every_graphic_run(
    data: Seq<u8>,
    min_len: nat,
    key: u8,
    at_end: bool,
    s: int,
    e: int,
)
    requires
        0 <= s <= e <= data.len(),
        e - s >= min_len,
        forall|k: int| s <= k < e ==> 0x20 <= #[trigger] data[k] ^ key && data[k] ^ key <= 0x7e,
        s == 0 || !(0x20 <= data[s - 1] ^ key && data[s - 1] ^ key <= 0x7e),
        if e < data.len() { !(0x20 <= data[e] ^ key && data[e] ^ key <= 0x7e) } else { at_end },
    ensures
        scan_result(data, Encoding::Single, min_len, key, at_end).contains(
            (Seq::new((e - s) as nat, |k: int| (data[s + k] ^ key) as char), s, key),
        ),
{
    let bytes = xor_all(data, key);
    let enc = Encoding::Single;
    assert forall|k: int| s <= k < e implies #[trigger] is_printable_byte(bytes[k]) by {
        lemma_xor_byte(data, key, k);
    }
    if s > 0 {
        lemma_xor_byte(data, key, s - 1);
    }
    if e < data.len() {
        lemma_xor_byte(data, key, e);
    }
    assert(maximal_run(bytes, s, e, at_end));
    law_single_byte_scan_finds_every_run(bytes, enc, min_len, s, e, at_end);
    let found = scan_runs(bytes, enc, min_len, at_end);
    let x = (bytes.subrange(s, e), s);
    assert(reported_start(enc, s, e - s) == s);
    let j = choose|j: int| 0 <= j < found.len() && found[j] == x;
    law_found_runs_are_reported(bytes, enc, min_len, at_end);
    let r = scan_result(data, enc, min_len, key, at_end);
    assert(as_strings(found)[j] == (ascii_chars(found[j].0), found[j].1));
    let want = (Seq::new((e - s) as nat, |k: int| (data[s + k] ^ key) as char), s, key);
    assert(ascii_chars(bytes.subrange(s, e)) =~= want.0);
    assert(r[j] == want);
}

proof fn lemma_single_found_maximal(bytes: Seq<u8>, min_len: nat, n: nat)
    requires
        n <= bytes.len(),
    ensures
        forall|k: int| 0 <= k < scan_upto(bytes, Encoding::Single, min_len, n).found.len() ==> {
            let x = #[trigger] scan_upto(bytes, Encoding::Single, min_len, n).found[k];
            &&& x.1 == 0 || !is_printable_byte(bytes[x.1 - 1])
            &&& x.1 + x.0.len() < n
            &&& !is_printable_byte(bytes[x.1 + x.0.len()])
        },
    decreases n,
{
    let enc = Encoding::Single;
    if n > 0 {
        let i = (n - 1) as int;
        lemma_single_found_maximal(bytes, min_len, (n - 1) as nat);
        lemma_scan_invariant(bytes, enc, min_len, (n - 1) as nat);
        let st = scan_upto(bytes, enc, min_len, (n - 1) as nat);
        let st2 = scan_upto(bytes, enc, min_len, n);
        assert(st2 == scan_step(enc, min_len, st, bytes[i], i));
        assert forall|k: int| 0 <= k < st2.found.len() implies {
            let x = #[trigger] st2.found[k];
            &&& x.1 == 0 || !is_printable_byte(bytes[x.1 - 1])
            &&& x.1 + x.0.len() < n
            &&& !is_printable_byte(bytes[x.1 + x.0.len()])
        } by {
            if k < st.found.len() {
                assert(st2.found[k] == st.found[k]);
            } else {
                assert(st2.found[k] == (st.run, i - st.run.len()));
            }
        }
    }
}

/// Single-byte soundness, on the bytes: every reported string is tagged with
/// `key`, has at least `min_len` characters, and is the characters of a run of
/// bytes in 0x20..=0x7e (after XOR with `key`) that starts at the reported
/// offset and cannot be extended either way: a byte outside that range, or
/// the start of the data, comes before it, and a byte outside that range comes
/// after it, or, only when `at_end` is set, the end of the data.
pub proof fn law_single_byte_scan_reports_only_graphic_runs(data: Seq<u8>, min_len: nat, key: u8, at_end: bool)
    ensures
        forall|j: int| 0 <= j < scan_result(data, Encoding::Single, min_len, key, at_end).len() ==> {
            let x = #[trigger] scan_result(data, Encoding::Single, min_len, key, at_end)[j];
            &&& x.2 == key
            &&& x.0.len() >= min_len
            &&& 0 <= x.1 && x.1 + x.0.len() <= data.len()
            &&& forall|k: int| 0 <= k < x.0.len() ==> {
                &&& 0x20 <= #[trigger] data[x.1 + k] ^ key && data[x.1 + k] ^ key <= 0x7e
                &&& x.0[k] == (data[x.1 + k] ^ key) as char
            }
            &&& x.1 == 0 || !(0x20 <= data[x.1 - 1] ^ key && data[x.1 - 1] ^ key <= 0x7e)
            &&& if x.1 + x.0.len() < data.len() {
                !(0x20 <= data[x.1 + x.0.len()] ^ key && data[x.1 + x.0.len()] ^ key <= 0x7e)
            } else {
                at_end
            }
        },
{
    let enc = Encoding::Single;
    let bytes = xor_all(data, key);
    let n = bytes.len();
    let found = scan_runs(bytes, enc, min_len, at_end);
    let r = scan_result(data, enc, min_len, key, at_end);
    law_found_strings_are_in_the_data(bytes, enc, min_len, at_end);
    law_found_runs_are_reported(bytes, enc, min_len, at_end);
    lemma_single_found_maximal(bytes, min_len, n);
    lemma_scan_invariant(bytes, enc, min_len, n);
    let st = scan_upto(bytes, enc, min_len, n);
    assert forall|j: int| 0 <= j < r.len() implies {
        let x = #[trigger] r[j];
        &&& x.2 == key
        &&& x.0.len() >= min_len
        &&& 0 <= x.1 && x.1 + x.0.len() <= data.len()
        &&& forall|k: int| 0 <= k < x.0.len() ==> {
            &&& 0x20 <= #[trigger] data[x.1 + k] ^ key && data[x.1 + k] ^ key <= 0x7e
            &&& x.0[k] == (data[x.1 + k] ^ key) as char
        }
        &&& x.1 == 0 || !(0x20 <= data[x.1 - 1] ^ key && data[x.1 - 1] ^ key <= 0x7e)
        &&& if x.1 + x.0.len() < data.len() {
            !(0x20 <= data[x.1 + x.0.len()] ^ key && data[x.1 + x.0.len()] ^ key <= 0x7e)
        } else {
            at_end
        }
    } by {
        let f = found[j];
        assert(sound_find(bytes, enc, min_len, f));
        assert(r[j] == (ascii_chars(f.0), f.1, key));
        assert(bytes.subrange(f.1, f.1 + f.0.len()) == f.0);
        assert forall|k: int| 0 <= k < f.0.len() implies {
            &&& 0x20 <= #[trigger] data[f.1 + k] ^ key && data[f.1 + k] ^ key <= 0x7e
            &&& ascii_chars(f.0)[k] == (data[f.1 + k] ^ key) as char
        } by {
            assert(f.0[k] == bytes[f.1 + k]);
            lemma_xor_byte(data, key, f.1 + k);
            assert(is_printable_byte(f.0[k]));
        }
        if j < st.found.len() {
            assert(found[j] == st.found[j]);
            lemma_xor_byte(data, key, f.1 + f.0.len());
            if f.1 > 0 {
                lemma_xor_byte(data, key, f.1 - 1);
            }
        } else {
            assert(at_end);
            assert(f == (st.run, n - st.run.len()));
            if f.1 > 0 {
                lemma_xor_byte(data, key, f.1 - 1);
            }
        }
    }
}

/// UTF-16 little-endian completeness, on the bytes: every run of `len >= 1`
/// characters from `s`, each a byte in 0x20..=0x7e followed by a zero byte
/// (after XOR with `key`), that cannot be extended either way (the pair
/// before it is no such character, and the pair after it is none either, or,
/// when `at_end` is set, the data ends before it is whole) and has at least
/// `min_len` characters is reported at `s`, tagged with `key`.
pub proof fn law_utf16_le_scan_reports_every_run(
    data: Seq<u8>,
    min_len: nat,
    key: u8,
    at_end: bool,
    s: int,
    len: int,
)
    requires
        0 <= s && 1 <= len && s + 2 * len <= data.len(),
        len >= min_len,
        forall|k: int| 0 <= k < len ==> {
            &&& 0x20 <= #[trigger] data[s + 2 * k] ^ key && data[s + 2 * k] ^ key <= 0x7e
            &&& data[s + 2 * k + 1] ^ key == 0
        },
        s < 2 || !(0x20 <= data[s - 2] ^ key && data[s - 2] ^ key <= 0x7e && data[s - 1] ^ key == 0),
        if s + 2 * len + 1 < data.len() {
            !(0x20 <= data[s + 2 * len] ^ key && data[s + 2 * len] ^ key <= 0x7e
                && data[s + 2 * len + 1] ^ key == 0)
        } else {
            at_end
        },
    ensures
        scan_result(data, Encoding::Utf16Le, min_len, key, at_end).contains(
            (Seq::new(len as nat, |k: int| (data[s + 2 * k] ^ key) as char), s, key),
        ),
{
    let enc = Encoding::Utf16Le;
    let bytes = xor_all(data, key);
    assert forall|k: int| 0 <= k < len implies #[trigger] char_pair(enc, bytes[s + 2 * k], bytes[s + 2 * k + 1]) by {
        lemma_xor_byte(data, key, s + 2 * k);
        lemma_xor_byte(data, key, s + 2 * k + 1);
    }
    if s >= 2 {
        lemma_xor_byte(data, key, s - 2);
        lemma_xor_byte(data, key, s - 1);
    }
    if s + 2 * len + 1 < data.len() {
        lemma_xor_byte(data, key, s + 2 * len);
        lemma_xor_byte(data, key, s + 2 * len + 1);
    }
    assert(maximal_wide_run(bytes, enc, s, len, at_end));
    law_wide_scan_finds_every_run(bytes, enc, min_len, s, len, at_end);
    let found = scan_runs(bytes, enc, min_len, at_end);
    let x = (wide_chars(bytes, enc, s, len), s);
    let j = choose|j: int| 0 <= j < found.len() && found[j] == x;
    law_found_runs_are_reported(bytes, enc, min_len, at_end);
    let r = scan_result(data, enc, min_len, key, at_end);
    assert(as_strings(found)[j] == (ascii_chars(found[j].0), found[j].1));
    let want = (Seq::new(len as nat, |k: int| (data[s + 2 * k] ^ key) as char), s, key);
    assert forall|k: int| 0 <= k < len implies #[trigger] ascii_chars(x.0)[k] == want.0[k] by {
        lemma_xor_byte(data, key, s + 2 * k);
    }
    assert(ascii_chars(x.0) =~= want.0);
    assert(r[j] == want);
}

/// UTF-16 big-endian completeness, on the bytes: every run of `len >= 1`
/// characters from `s`, each a zero byte followed by a byte in 0x20..=0x7e
/// (after XOR with `key`), that cannot be extended either way (the pair
/// before it is no such character, and the pair after it is none either, or,
/// when `at_end` is set, the data ends before it is whole) and has at least
/// `min_len` characters is reported at `s`, tagged with `key`.
pub proof fn law_utf16_be_scan_reports_every_run(
    data: Seq<u8>,
    min_len: nat,
    key: u8,
    at_end: bool,
    s: int,
    len: int,
)
    requires
        0 <= s && 1 <= len && s + 2 * len <= data.len(),
        len >= min_len,
        forall|k: int| 0 <= k < len ==> {
            &&& 0x20 <= #[trigger] data[s + 2 * k + 1] ^ key && data[s + 2 * k + 1] ^ key <= 0x7e
            &&& data[s + 2 * k] ^ key == 0
        },
        s < 2 || !(0x20 <= data[s - 1] ^ key && data[s - 1] ^ key <= 0x7e && data[s - 2] ^ key == 0),
        if s + 2 * len + 1 < data.len() {
            !(0x20 <= data[s + 2 * len + 1] ^ key && data[s + 2 * len + 1] ^ key <= 0x7e
                && data[s + 2 * len] ^ key == 0)
        } else {
            at_end
        },
    ensures
        scan_result(data, Encoding::Utf16Be, min_len, key, at_end).contains(
            (Seq::new(len as nat, |k: int| (data[s + 2 * k + 1] ^ key) as char), s, key),
        ),
{
    let enc = Encoding::Utf16Be;
    let bytes = xor_all(data, key);
    assert forall|k: int| 0 <= k < len implies #[trigger] char_pair(enc, bytes[s + 2 * k], bytes[s + 2 * k + 1]) by {
        lemma_xor_byte(data, key, s + 2 * k);
        lemma_xor_byte(data, key, s + 2 * k + 1);
    }
    if s >= 2 {
        lemma_xor_byte(data, key, s - 2);
        lemma_xor_byte(data, key, s - 1);
    }
    if s + 2 * len + 1 < data.len() {
        lemma_xor_byte(data, key, s + 2 * len);
        lemma_xor_byte(data, key, s + 2 * len + 1);
    }
    assert(maximal_wide_run(bytes, enc, s, len, at_end));
    law_wide_scan_finds_every_run(bytes, enc, min_len, s, len, at_end);
    let found = scan_runs(bytes, enc, min_len, at_end);
    let x = (wide_chars(bytes, enc, s, len), s);
    let j = choose|j: int| 0 <= j < found.len() && found[j] == x;
    law_found_runs_are_reported(bytes, enc, min_len, at_end);
    let r = scan_result(data, enc, min_len, key, at_end);
    assert(as_strings(found)[j] == (ascii_chars(found[j].0), found[j].1));
    let want = (Seq::new(len as nat, |k: int| (data[s + 2 * k + 1] ^ key) as char), s, key);
    assert forall|k: int| 0 <= k < len implies #[trigger] ascii_chars(x.0)[k] == want.0[k] by {
        lemma_xor_byte(data, key, s + 2 * k + 1);
    }
    assert(ascii_chars(x.0) =~= want.0);
    assert(r[j] == want);
}

proof fn lemma_sweep(data: Seq<u8>, enc: Encoding, min_len: nat, n: nat, at_end: bool)
    requires
        n <= 256,
    ensures
        forall|k: int, j: int| 1 <= k < n && 0 <= j < scan_result(data, enc, min_len, k as u8, at_end).len() ==>
            xor_sweep(data, enc, min_len, n, at_end).contains(
                #[trigger] scan_result(data, enc, min_len, k as u8, at_end)[j]),
        forall|j: int| 0 <= j < xor_sweep(data, enc, min_len, n, at_end).len() ==>
            scan_result(data, enc, min_len, (#[trigger] xor_sweep(data, enc, min_len, n, at_end)[j]).2, at_end)
                .contains(xor_sweep(data, enc, min_len, n, at_end)[j]),
    decreases n,
{
    if n > 1 {
        lemma_sweep(data, enc, min_len, (n - 1) as nat, at_end);
        let pre = xor_sweep(data, enc, min_len, (n - 1) as nat, at_end);
        let last = scan_result(data, enc, min_len, (n - 1) as u8, at_end);
        let all = xor_sweep(data, enc, min_len, n, at_end);
        assert(all == pre + last);
        assert forall|k: int, j: int| 1 <= k < n && 0 <= j < scan_result(data, enc, min_len, k as u8, at_end).len()
            implies all.contains(#[trigger] scan_result(data, enc, min_len, k as u8, at_end)[j]) by {
            let x = scan_result(data, enc, min_len, k as u8, at_end)[j];
            if k < n - 1 {
                let i = choose|i: int| 0 <= i < pre.len() && pre[i] == x;
                assert(all[i] == x);
            } else {
                assert(all[pre.len() + j] == x);
            }
        }
        assert forall|j: int| 0 <= j < all.len() implies
            scan_result(data, enc, min_len, (#[trigger] all[j]).2, at_end).contains(all[j]) by {
            if j < pre.len() {
                assert(all[j] == pre[j]);
            } else {
                let i = j - pre.len();
                assert(all[j] == last[i]);
                assert(last[i].2 == (n - 1) as u8);
            }
        }
    }
}

/// The XOR sweep of a batch. Without `xor` the batch is the raw scan. With
/// it, the batch starts with the raw scan, holds every string that the scan
/// under any key from 1 to 255 reports (tagged with that key), and holds
/// nothing that the scan under its own key does not report.
pub proof fn law_batch_tries_every_key(data: Seq<u8>, enc: Encoding, min_len: nat, at_end: bool)
    ensures
        batch_result(data, enc, min_len, false, at_end) == scan_result(data, enc, min_len, 0, at_end),
        batch_result(data, enc, min_len, true, at_end).take(scan_result(data, enc, min_len, 0, at_end).len() as int)
            == scan_result(data, enc, min_len, 0, at_end),
        forall|k: int, j: int| 1 <= k <= 255 && 0 <= j < scan_result(data, enc, min_len, k as u8, at_end).len() ==> {
            &&& (#[trigger] scan_result(data, enc, min_len, k as u8, at_end)[j]).2 == k
            &&& batch_result(data, enc, min_len, true, at_end).contains(scan_result(data, enc, min_len, k as u8, at_end)[j])
        },
        forall|j: int| 0 <= j < batch_result(data, enc, min_len, true, at_end).len() ==>
            scan_result(data, enc, min_len, (#[trigger] batch_result(data, enc, min_len, true, at_end)[j]).2, at_end)
                .contains(batch_result(data, enc, min_len, true, at_end)[j]),
{
    let raw = scan_result(data, enc, min_len, 0, at_end);
    let sweep = xor_sweep(data, enc, min_len, 256, at_end);
    let all = batch_result(data, enc, min_len, true, at_end);
    assert(raw + seq![] =~= raw);
    assert(all == raw + sweep);
    assert(all.take(raw.len() as int) =~= raw);
    lemma_sweep(data, enc, min_len, 256, at_end);
    assert forall|k: int, j: int| 1 <= k <= 255 && 0 <= j < scan_result(data, enc, min_len, k as u8, at_end).len() implies {
        &&& (#[trigger] scan_result(data, enc, min_len, k as u8, at_end)[j]).2 == k
        &&& all.contains(scan_result(data, enc, min_len, k as u8, at_end)[j])
    } by {
        let x = scan_result(data, enc, min_len, k as u8, at_end)[j];
        let i = choose|i: int| 0 <= i < sweep.len() && sweep[i] == x;
        assert(all[raw.len() + i] == x);
    }
    assert forall|j: int| 0 <= j < all.len() implies
        scan_result(data, enc, min_len, (#[trigger] all[j]).2, at_end).contains(all[j]) by {
        if j < raw.len() {
            assert(all[j] == raw[j]);
            assert(raw[j].2 == 0);
        } else {
            assert(all[j] == sweep[j - raw.len()]);
        }
    }
}

/// UTF-16 little-endian soundness, on the bytes: every reported string is tagged
/// with `key`, has at least `min_len` characters, and its characters stand
/// from the reported offset two bytes each, a byte in 0x20..=0x7e then a zero byte (after XOR with `key`).
pub proof fn law_utf16_le_scan_reports_only_runs(data: Seq<u8>, min_len: nat, key: u8, at_end: bool)
    ensures
        forall|j: int| 0 <= j < scan_result(data, Encoding::Utf16Le, min_len, key, at_end).len() ==> {
            let x = #[trigger] scan_result(data, Encoding::Utf16Le, min_len, key, at_end)[j];
            &&& x.2 == key
            &&& x.0.len() >= min_len
            &&& 0 <= x.1 && x.1 + 2 * x.0.len() <= data.len()
            &&& forall|k: int| 0 <= k < x.0.len() ==> {
                &&& 0x20 <= #[trigger] data[x.1 + 2 * k] ^ key && data[x.1 + 2 * k] ^ key <= 0x7e
                &&& data[x.1 + 2 * k + 1] ^ key == 0
                &&& x.0[k] == (data[x.1 + 2 * k] ^ key) as char
            }
        },
{
    let enc = Encoding::Utf16Le;
    let bytes = xor_all(data, key);
    let found = scan_runs(bytes, enc, min_len, at_end);
    let r = scan_result(data, enc, min_len, key, at_end);
    law_found_strings_are_in_the_data(bytes, enc, min_len, at_end);
    law_found_runs_are_reported(bytes, enc, min_len, at_end);
    assert forall|j: int| 0 <= j < r.len() implies {
        let x = #[trigger] r[j];
        &&& x.2 == key
        &&& x.0.len() >= min_len
        &&& 0 <= x.1 && x.1 + 2 * x.0.len() <= data.len()
        &&& forall|k: int| 0 <= k < x.0.len() ==> {
            &&& 0x20 <= #[trigger] data[x.1 + 2 * k] ^ key && data[x.1 + 2 * k] ^ key <= 0x7e
            &&& data[x.1 + 2 * k + 1] ^ key == 0
            &&& x.0[k] == (data[x.1 + 2 * k] ^ key) as char
        }
    } by {
        let f = found[j];
        assert(sound_find(bytes, enc, min_len, f));
        assert(r[j] == (ascii_chars(f.0), f.1, key));
        assert forall|k: int| 0 <= k < f.0.len() implies {
            &&& 0x20 <= #[trigger] data[f.1 + 2 * k] ^ key && data[f.1 + 2 * k] ^ key <= 0x7e
            &&& data[f.1 + 2 * k + 1] ^ key == 0
            &&& ascii_chars(f.0)[k] == (data[f.1 + 2 * k] ^ key) as char
        } by {
            assert(bytes[f.1 + 2 * k] == f.0[k]);
            assert(bytes[f.1 + 2 * k + 1] == 0);
            assert(is_printable_byte(f.0[k]));
            lemma_xor_byte(data, key, f.1 + 2 * k);
            lemma_xor_byte(data, key, f.1 + 2 * k + 1);
        }
    }
}

/// UTF-16 big-endian soundness, on the bytes: every reported string is tagged
/// with `key`, has at least `min_len` characters, and its characters stand
/// from the reported offset two bytes each, a zero byte then a byte in 0x20..=0x7e (after XOR with `key`).
pub proof fn law_utf16_be_scan_reports_only_runs(data: Seq<u8>, min_len: nat, key: u8, at_end: bool)
    ensures
        forall|j: int| 0 <= j < scan_result(data, Encoding::Utf16Be, min_len, key, at_end).len() ==> {
            let x = #[trigger] scan_result(data, Encoding::Utf16Be, min_len, key, at_end)[j];
            &&& x.2 == key
            &&& x.0.len() >= min_len
            &&& 0 <= x.1 && x.1 + 2 * x.0.len() <= data.len()
            &&& forall|k: int| 0 <= k < x.0.len() ==> {
                &&& 0x20 <= #[trigger] data[x.1 + 2 * k + 1] ^ key && data[x.1 + 2 * k + 1] ^ key <= 0x7e
                &&& data[x.1 + 2 * k] ^ key == 0
                &&& x.0[k] == (data[x.1 + 2 * k + 1] ^ key) as char
            }
        },
{
    let enc = Encoding::Utf16Be;
    let bytes = xor_all(data, key);
    let found = scan_runs(bytes, enc, min_len, at_end);
    let r = scan_result(data, enc, min_len, key, at_end);
    law_found_strings_are_in_the_data(bytes, enc, min_len, at_end);
    law_found_runs_are_reported(bytes, enc, min_len, at_end);
    assert forall|j: int| 0 <= j < r.len() implies {
        let x = #[trigger] r[j];
        &&& x.2 == key
        &&& x.0.len() >= min_len
        &&& 0 <= x.1 && x.1 + 2 * x.0.len() <= data.len()
        &&& forall|k: int| 0 <= k < x.0.len() ==> {
            &&& 0x20 <= #[trigger] data[x.1 + 2 * k + 1] ^ key && data[x.1 + 2 * k + 1] ^ key <= 0x7e
            &&& data[x.1 + 2 * k] ^ key == 0
            &&& x.0[k] == (data[x.1 + 2 * k + 1] ^ key) as char
        }
    } by {
        let f = found[j];
        assert(sound_find(bytes, enc, min_len, f));
        assert(r[j] == (ascii_chars(f.0), f.1, key));
        assert forall|k: int| 0 <= k < f.0.len() implies {
            &&& 0x20 <= #[trigger] data[f.1 + 2 * k + 1] ^ key && data[f.1 + 2 * k + 1] ^ key <= 0x7e
            &&& data[f.1 + 2 * k] ^ key == 0
            &&& ascii_chars(f.0)[k] == (data[f.1 + 2 * k + 1] ^ key) as char
        } by {
            assert(bytes[f.1 + 2 * k] == 0);
            assert(bytes[f.1 + 2 * k + 1] == f.0[k]);
            assert(is_printable_byte(f.0[k]));
            lemma_xor_byte(data, key, f.1 + 2 * k);
            lemma_xor_byte(data, key, f.1 + 2 * k + 1);
        }
    }
}

} // verus!
