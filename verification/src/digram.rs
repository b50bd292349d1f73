//! Letter-pair (digram) tables and the checks made with them.

use vstd::prelude::*;
use vstd::utf8::{encode_utf8, is_char_boundary};
use crate::text::{all_ascii, ascii_lower, ascii_upper, lowercase, to_lowercase};

verus! {

/// A table of letter pairs, each held as the UTF-8 bytes of the pair.
pub struct DigramTable {
    pub pairs: Vec<Vec<u8>>,
}

impl View for DigramTable {
    type V = Seq<Seq<u8>>;

    open spec fn view(&self) -> Seq<Seq<u8>> {
        self.pairs.deep_view()
    }
}

/// The pair tables of the languages that the filter knows.
pub struct Digrams {
    pub english: DigramTable,
    pub spanish: DigramTable,
    pub french: DigramTable,
}

/// Bytes `i .. i + 2` of `b` form a whole string slice (`str::get(i..i + 2)` is `Some`).
pub open spec fn pair_at(b: Seq<u8>, i: int) -> bool {
    0 <= i && i + 2 <= b.len() && is_char_boundary(b, i) && is_char_boundary(b, i + 2)
}

/// The string has fewer than two bytes, or some two-byte slice of it is in the table.
pub open spec fn has_digram(s: Seq<char>, table: Seq<Seq<u8>>) -> bool {
    let b = encode_utf8(s);
    b.len() < 2 || exists|i: int| pair_at(b, i) && table.contains(#[trigger] b.subrange(i, i + 2))
}

/// The position of the first entry of the table equal to `pair`.
pub open spec fn first_index(table: Seq<Seq<u8>>, pair: Seq<u8>) -> Option<nat>
    decreases table.len(),
{
    if table.len() == 0 {
        None
    } else {
        match first_index(table.drop_last(), pair) {
            Some(k) => Some(k),
            None => if table.last() == pair { Some((table.len() - 1) as nat) } else { None },
        }
    }
}

/// For the two-byte slices of `b` that start before `n`, in order: the table
/// position of each one that the table holds.
pub open spec fn hits_upto(b: Seq<u8>, table: Seq<Seq<u8>>, n: int) -> Seq<nat>
    decreases n,
{
    if n <= 0 {
        seq![]
    } else {
        let i = n - 1;
        hits_upto(b, table, i) + if pair_at(b, i) && first_index(table, b.subrange(i, i + 2)) is Some {
            seq![first_index(table, b.subrange(i, i + 2))->0]
        } else {
            seq![]
        }
    }
}

/// The table positions of all the two-byte slices of a string that the table holds.
pub open spec fn digram_hits(s: Seq<char>, table: Seq<Seq<u8>>) -> Seq<nat> {
    hits_upto(encode_utf8(s), table, encode_utf8(s).len() - 1)
}

/// A lowercased string passes `has_digram` for one of the three tables.
pub open spec fn lower_has_digram(lower: Seq<char>, d: Digrams) -> bool {
    has_digram(lower, d.english@) || has_digram(lower, d.spanish@) || has_digram(lower, d.french@)
}

/// The string looks like English, Spanish or French text: its lowercase form
/// passes `has_digram` for one of the three tables.
pub open spec fn likely_meaningful(s: Seq<char>, d: Digrams) -> bool {
    lower_has_digram(lowercase(s), d)
}

proof fn lemma_first_index(table: Seq<Seq<u8>>, pair: Seq<u8>)
    ensures
        first_index(table, pair) is Some <==> table.contains(pair),
        first_index(table, pair) matches Some(k) ==> k < table.len() && table[k as int] == pair
            && forall|j: int| 0 <= j < k ==> table[j] != pair,
    decreases table.len(),
{
    if table.len() > 0 {
        lemma_first_index(table.drop_last(), pair);
        if table.drop_last().contains(pair) {
            let j = choose|j: int| 0 <= j < table.drop_last().len() && table.drop_last()[j] == pair;
            assert(table[j] == pair);
        }
        if table.contains(pair) && first_index(table.drop_last(), pair) is None {
            let j = choose|j: int| 0 <= j < table.len() && table[j] == pair;
            if j < table.len() - 1 {
                assert(table.drop_last()[j] == pair);
            }
        }
        if let Some(k) = first_index(table.drop_last(), pair) {
            assert forall|j: int| 0 <= j < k implies table[j] != pair by {
                assert(table.drop_last()[j] == table[j]);
            }
            assert(table.drop_last()[k as int] == table[k as int]);
        }
        if first_index(table.drop_last(), pair) is None {
            assert forall|j: int| 0 <= j < table.len() - 1 implies table[j] != pair by {
                if table[j] == pair {
                    assert(table.drop_last()[j] == pair);
                }
            }
        }
    }
}

impl DigramTable {
    /// The position of the first entry equal to the pair `(b0, b1)`.
    pub fn find(&self, b0: u8, b1: u8) -> (r: Option<usize>)
        ensures
            r matches Some(k) ==> first_index(self@, seq![b0, b1]) == Some(k as nat),
            r is None ==> first_index(self@, seq![b0, b1]) is None,
    {
        let ghost pair = seq![b0, b1];
        proof {
            lemma_first_index(self@, pair);
        }
        let mut k: usize = 0;
        while k < self.pairs.len()
            invariant
                k <= self.pairs@.len(),
                pair == seq![b0, b1],
                forall|j: int| 0 <= j < k ==> self@[j] != pair,
            decreases self.pairs@.len() - k,
        {
            let entry = &self.pairs[k];
            assert(self@[k as int] == entry@);
            if entry.len() == 2 && entry[0] == b0 && entry[1] == b1 {
                assert(entry@ =~= pair);
                proof {
                    lemma_first_index(self@, pair);
                    if let Some(f) = first_index(self@, pair) {
                        assert(f == k);
                    }
                }
                return Some(k);
            }
            proof {
                if entry@.len() == 2 {
                    assert(entry@ != pair) by {
                        if entry@ == pair {
                            assert(entry@[0] == b0 && entry@[1] == b1);
                        }
                    }
                }
            }
            k = k + 1;
        }
        proof {
            lemma_first_index(self@, pair);
            if let Some(f) = first_index(self@, pair) {
                assert(self@[f as int] == pair);
            }
        }
        None
    }
}

/// Whether a (lowercased) string contains a pair of the table; a string shorter
/// than two bytes always does.
pub fn check_digram(s_lower: &str, table: &DigramTable) -> (r: bool)
    ensures
        r == has_digram(s_lower@, table@),
{
    let b = s_lower.as_bytes();
    proof {
        vstd::utf8::encode_utf8_valid_utf8(s_lower@);
    }
    if b.len() < 2 {
        return true;
    }
    let mut i: usize = 0;
    while i < b.len() - 1
        invariant
            b@ == encode_utf8(s_lower@),
            b@.len() >= 2,
            i + 1 <= b@.len(),
            forall|j: int| 0 <= j < i ==> !(pair_at(b@, j) && table@.contains(#[trigger] b@.subrange(j, j + 2))),
        decreases b@.len() - i,
    {
        if s_lower.is_char_boundary(i) && s_lower.is_char_boundary(i + 2) {
            let found = table.find(b[i], b[i + 1]);
            proof {
                lemma_first_index(table@, seq![b@[i as int], b@[i + 1]]);
                assert(b@.subrange(i as int, i + 2) =~= seq![b@[i as int], b@[i + 1]]);
            }
            if found.is_some() {
                return true;
            }
        }
        i = i + 1;
    }
    assert forall|j: int| pair_at(b@, j) implies !table@.contains(#[trigger] b@.subrange(j, j + 2)) by {
        assert(j < i);
    }
    false
}

/// The table positions of the pairs found in a (lowercased) string, in the
/// order the pairs occur.
pub fn find_digram_hits(s_lower: &str, table: &DigramTable) -> (r: Vec<usize>)
    ensures
        r@.map_values(|k: usize| k as nat) == digram_hits(s_lower@, table@),
{
    let b = s_lower.as_bytes();
    let mut hits: Vec<usize> = Vec::new();
    if b.len() < 2 {
        proof {
            if b@.len() == 1 {
                assert(hits_upto(b@, table@, 0) == Seq::<nat>::empty());
            } else {
                assert(hits_upto(b@, table@, -1) == Seq::<nat>::empty());
            }
        }
        assert(hits@.map_values(|k: usize| k as nat) =~= Seq::<nat>::empty());
        return hits;
    }
    let mut i: usize = 0;
    while i < b.len() - 1
        invariant
            b@ == encode_utf8(s_lower@),
            b@.len() >= 2,
            i + 1 <= b@.len(),
            hits@.map_values(|k: usize| k as nat) == hits_upto(b@, table@, i as int),
        decreases b@.len() - i,
    {
        let ghost before = hits@;
        if s_lower.is_char_boundary(i) && s_lower.is_char_boundary(i + 2) {
            let found = table.find(b[i], b[i + 1]);
            assert(b@.subrange(i as int, i + 2) =~= seq![b@[i as int], b@[i + 1]]);
            match found {
                Some(k) => {
                    hits.push(k);
                    assert(hits@.map_values(|k: usize| k as nat) =~= before.map_values(|k: usize| k as nat).push(k as nat));
                },
                None => {},
            }
        }
        i = i + 1;
        assert(hits@.map_values(|k: usize| k as nat) =~= hits_upto(b@, table@, i as int));
    }
    hits
}

/// Whether a string looks like natural language: its lowercase form contains
/// an English, Spanish or French letter pair.
pub fn is_likely_meaningful(s: &str, d: &Digrams) -> (r: bool)
    ensures
        r == likely_meaningful(s@, *d),
        all_ascii(s@) ==> r == lower_has_digram(ascii_lower(s@), *d),
{
    let lower = to_lowercase(s);
    check_digram(lower.as_str(), &d.english) || check_digram(lower.as_str(), &d.spanish)
        || check_digram(lower.as_str(), &d.french)
}

/// Letter case does not matter to the check: an ASCII string and its
/// upper-case form are both ASCII and have the same lowercase form, so
/// `is_likely_meaningful` gives the same answer for both.
pub proof fn law_case_does_not_matter(s: Seq<char>, d: Digrams)
    requires
        all_ascii(s),
    ensures
        all_ascii(ascii_upper(s)),
        ascii_lower(ascii_upper(s)) == ascii_lower(s),
        lower_has_digram(ascii_lower(ascii_upper(s)), d) == lower_has_digram(ascii_lower(s), d),
{
    let u = ascii_upper(s);
    assert forall|i: int| 0 <= i < u.len() implies #[trigger] crate::text::is_ascii_char(u[i]) by {
        assert(crate::text::is_ascii_char(s[i]));
    }
    assert forall|i: int| 0 <= i < s.len() implies #[trigger] ascii_lower(u)[i] == ascii_lower(s)[i] by {
        let c = s[i];
        if 'a' <= c && c <= 'z' {
            assert('A' <= u[i] && u[i] <= 'Z');
            assert(((((c as u32) - 32) as char) as u32) == (c as u32) - 32);
        }
    }
    assert(ascii_lower(u) =~= ascii_lower(s));
}

/// A string of fewer than two bytes counts as containing a pair of any table.
pub proof fn law_short_strings_pass(s: Seq<char>, table: Seq<Seq<u8>>)
    requires
        encode_utf8(s).len() < 2,
    ensures
        has_digram(s, table),
{
}

/// The language check on the bytes of the lowercase form: a string looks like
/// text exactly when that form has fewer than two bytes, or some two bytes of
/// it that form whole characters are a pair of the English, the Spanish or the
/// French table.
pub proof fn law_language_check(s: Seq<char>, d: Digrams)
    ensures
        likely_meaningful(s, d) <==> {
            let b = encode_utf8(lowercase(s));
            ||| b.len() < 2
            ||| exists|i: int| 0 <= i && i + 2 <= b.len() && is_char_boundary(b, i) && is_char_boundary(b, i + 2)
                && (d.english@.contains(#[trigger] b.subrange(i, i + 2)) || d.spanish@.contains(b.subrange(i, i + 2))
                    || d.french@.contains(b.subrange(i, i + 2)))
        },
{
    let b = encode_utf8(lowercase(s));
    if exists|i: int| 0 <= i && i + 2 <= b.len() && is_char_boundary(b, i) && is_char_boundary(b, i + 2)
        && (d.english@.contains(#[trigger] b.subrange(i, i + 2)) || d.spanish@.contains(b.subrange(i, i + 2))
            || d.french@.contains(b.subrange(i, i + 2))) {
        let i = choose|i: int| 0 <= i && i + 2 <= b.len() && is_char_boundary(b, i) && is_char_boundary(b, i + 2)
            && (d.english@.contains(#[trigger] b.subrange(i, i + 2)) || d.spanish@.contains(b.subrange(i, i + 2))
                || d.french@.contains(b.subrange(i, i + 2)));
        assert(pair_at(b, i));
    }
}

} // verus!
