//! The whole-number features from which a string's significance score is made.

use vstd::prelude::*;
use vstd::utf8::encode_utf8;
use crate::digram::{DigramTable, digram_hits, find_digram_hits};
use crate::filter::{CharCounts, char_counts, count_symbols};
use crate::text::{
    byte_len, bytes_contain, char_is_lowercase, char_is_uppercase, chars_of, contains_bytes,
    lowercase, to_lowercase, unicode_lowercase, unicode_uppercase,
};

verus! {

/// The keywords that raise a string's score: `the`, `and`, `ing`, `tion`,
/// `http`, `www`, `com`, `net`, `org` (as bytes).
pub open spec fn common_words() -> Seq<Seq<u8>> {
    seq![
        seq![116u8, 104u8, 101u8],
        seq![97u8, 110u8, 100u8],
        seq![105u8, 110u8, 103u8],
        seq![116u8, 105u8, 111u8, 110u8],
        seq![104u8, 116u8, 116u8, 112u8],
        seq![119u8, 119u8, 119u8],
        seq![99u8, 111u8, 109u8],
        seq![110u8, 101u8, 116u8],
        seq![111u8, 114u8, 103u8],
    ]
}

/// Some keyword occurs in the bytes.
pub open spec fn has_common_word(b: Seq<u8>) -> bool {
    exists|k: int| 0 <= k < common_words().len() && contains_bytes(b, #[trigger] common_words()[k])
}

pub open spec fn has_lowercase(s: Seq<char>) -> bool {
    exists|i: int| 0 <= i < s.len() && #[trigger] unicode_lowercase(s[i])
}

pub open spec fn has_uppercase(s: Seq<char>) -> bool {
    exists|i: int| 0 <= i < s.len() && #[trigger] unicode_uppercase(s[i])
}

pub open spec fn has_space(s: Seq<char>) -> bool {
    exists|i: int| 0 <= i < s.len() && s[i] == ' '
}

/// What the score of a string is computed from.
pub struct ScoreFeatures {
    /// Length in bytes.
    pub byte_len: usize,
    /// At least 6 bytes long, with both lower- and upper-case letters.
    pub mixed_case: bool,
    /// At least 6 bytes long, with a space.
    pub spaced: bool,
    /// The lowercase form contains a keyword (see `common_words`).
    pub common_word: bool,
    /// Table positions of the letter pairs found in the lowercase form, in order.
    pub digram_hits: Vec<usize>,
    /// Characters that are neither alphanumeric nor a space.
    pub symbols: usize,
}

impl ScoreFeatures {
    /// The features are those of the string `s`, with pairs looked up in `table`.
    pub open spec fn of(self, s: Seq<char>, table: Seq<Seq<u8>>) -> bool {
        &&& self.byte_len == byte_len(s)
        &&& self.mixed_case == (byte_len(s) >= 6 && has_lowercase(s) && has_uppercase(s))
        &&& self.spaced == (byte_len(s) >= 6 && has_space(s))
        &&& self.common_word == has_common_word(encode_utf8(lowercase(s)))
        &&& self.digram_hits@.map_values(|k: usize| k as nat) == digram_hits(lowercase(s), table)
        &&& self.symbols == count_symbols(s)
    }
}

struct CaseSpace {
    lower: bool,
    upper: bool,
    space: bool,
}

fn case_and_space(s: &str) -> (r: CaseSpace)
    ensures
        r.lower == has_lowercase(s@),
        r.upper == has_uppercase(s@),
        r.space == has_space(s@),
{
    let cs = chars_of(s);
    let mut lower = false;
    let mut upper = false;
    let mut space = false;
    let mut i: usize = 0;
    while i < cs.len()
        invariant
            cs@ == s@,
            i <= cs@.len(),
            lower <==> exists|j: int| 0 <= j < i && #[trigger] unicode_lowercase(cs@[j]),
            upper <==> exists|j: int| 0 <= j < i && #[trigger] unicode_uppercase(cs@[j]),
            space <==> exists|j: int| 0 <= j < i && cs@[j] == ' ',
        decreases cs@.len() - i,
    {
        let c = cs[i];
        if char_is_lowercase(c) {
            lower = true;
        }
        if char_is_uppercase(c) {
            upper = true;
        }
        if c == ' ' {
            space = true;
        }
        i = i + 1;
    }
    CaseSpace { lower, upper, space }
}

fn contains_common_word(b: &[u8]) -> (r: bool)
    ensures
        r == has_common_word(b@),
{
    let words: Vec<Vec<u8>> = vec![
        vec![116u8, 104u8, 101u8],
        vec![97u8, 110u8, 100u8],
        vec![105u8, 110u8, 103u8],
        vec![116u8, 105u8, 111u8, 110u8],
        vec![104u8, 116u8, 116u8, 112u8],
        vec![119u8, 119u8, 119u8],
        vec![99u8, 111u8, 109u8],
        vec![110u8, 101u8, 116u8],
        vec![111u8, 114u8, 103u8],
    ];
    assert(words@[0].deep_view() =~= common_words()[0]);
    assert(words@[1].deep_view() =~= common_words()[1]);
    assert(words@[2].deep_view() =~= common_words()[2]);
    assert(words@[3].deep_view() =~= common_words()[3]);
    assert(words@[4].deep_view() =~= common_words()[4]);
    assert(words@[5].deep_view() =~= common_words()[5]);
    assert(words@[6].deep_view() =~= common_words()[6]);
    assert(words@[7].deep_view() =~= common_words()[7]);
    assert(words@[8].deep_view() =~= common_words()[8]);
    assert(words.deep_view() =~= common_words());
    let mut k: usize = 0;
    while k < words.len()
        invariant
            words.deep_view() == common_words(),
            k <= words@.len(),
            forall|j: int| 0 <= j < k ==> !contains_bytes(b@, #[trigger] common_words()[j]),
        decreases words@.len() - k,
    {
        assert(words[k as int]@ == common_words()[k as int]);
        if bytes_contain(b, words[k].as_slice()) {
            return true;
        }
        k = k + 1;
    }
    false
}

/// Reads the score features of `s`, looking up letter pairs in `table`.
pub fn score_features(s: &str, table: &DigramTable) -> (r: ScoreFeatures)
    ensures
        r.of(s@, table@),
{
    let len = s.as_bytes().len();
    let lower = to_lowercase(s);
    let cs = case_and_space(s);
    let counts: CharCounts = char_counts(s);
    let common_word = contains_common_word(lower.as_str().as_bytes());
    let digram_hits = find_digram_hits(lower.as_str(), table);
    ScoreFeatures {
        byte_len: len,
        mixed_case: len >= 6 && cs.lower && cs.upper,
        spaced: len >= 6 && cs.space,
        common_word,
        digram_hits,
        symbols: counts.symbols,
    }
}

} // verus!
