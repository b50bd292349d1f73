//! Which parts of a file are scanned: fixed-size windows that overlap a
//! little, or the named sections of an object file.

use vstd::prelude::*;
use object::{Object, ObjectSection};

verus! {

/// Bytes in each scan window, before the overlap.
pub const SCAN_CHUNK: usize = 1048576;
/// Extra bytes at the end of each scan window, so that strings crossing a
/// window boundary are found whole.
pub const SCAN_OVERLAP: usize = 1024;
/// Bytes in each entropy window.
pub const ENTROPY_CHUNK: usize = 4096;

/// Windows `[start, end)` that begin at `start`, `start + chunk`, ... and span
/// `chunk + overlap` bytes (cut at `len`), up to the first that reaches `len`.
pub open spec fn windows_from(start: int, len: int, chunk: int, overlap: int) -> Seq<(int, int)>
    decreases len - start,
{
    if start >= len || chunk <= 0 || overlap < 0 {
        seq![]
    } else {
        let end = if start + chunk + overlap < len { start + chunk + overlap } else { len };
        seq![(start, end)] + if end == len { seq![] } else { windows_from(start + chunk, len, chunk, overlap) }
    }
}

/// The windows start at `start`, each within `[start, len)` and not empty,
/// each next one `chunk` bytes after the one before and no later than its end,
/// the last ends at `len`, and together they cover every byte from `start` on.
pub open spec fn tiles(w: Seq<(int, int)>, start: int, len: int, chunk: int) -> bool {
    &&& start < len ==> w.len() > 0 && w[0].0 == start && w.last().1 == len
    &&& forall|k: int| 0 <= k < w.len() ==> start <= #[trigger] w[k].0 < w[k].1 <= len
    &&& forall|k: int| 0 <= k < w.len() - 1 ==> #[trigger] w[k + 1].0 == w[k].0 + chunk && w[k + 1].0 <= w[k].1
    &&& forall|p: int| start <= p < len ==> #[trigger] covered(w, p)
}

/// Some window holds byte `p`.
pub open spec fn covered(w: Seq<(int, int)>, p: int) -> bool {
    exists|k: int| 0 <= k < w.len() && #[trigger] w[k].0 <= p < w[k].1
}

proof fn lemma_windows_tile(start: int, len: int, chunk: int, overlap: int)
    requires
        chunk > 0,
        overlap >= 0,
    ensures
        tiles(windows_from(start, len, chunk, overlap), start, len, chunk),
    decreases len - start,
{
    let w = windows_from(start, len, chunk, overlap);
    if start < len {
        let end = if start + chunk + overlap < len { start + chunk + overlap } else { len };
        if end == len {
            assert(w =~= seq![(start, end)]);
            assert forall|p: int| start <= p < len implies #[trigger] covered(w, p) by {
                assert(w[0].0 <= p < w[0].1);
            }
        } else {
            let rest = windows_from(start + chunk, len, chunk, overlap);
            lemma_windows_tile(start + chunk, len, chunk, overlap);
            assert(w =~= seq![(start, end)] + rest);
            assert forall|k: int| 0 <= k < w.len() implies start <= #[trigger] w[k].0 < w[k].1 <= len by {
                if k > 0 {
                    assert(w[k] == rest[k - 1]);
                }
            }
            assert forall|k: int| 0 <= k < w.len() - 1 implies #[trigger] w[k + 1].0 == w[k].0 + chunk && w[k + 1].0 <= w[k].1 by {
                assert(w[k + 1] == rest[k]);
                if k > 0 {
                    assert(w[k] == rest[k - 1]);
                    assert(rest[(k - 1) + 1].0 == rest[k - 1].0 + chunk && rest[(k - 1) + 1].0 <= rest[k - 1].1);
                } else {
                    assert(rest[0].0 == start + chunk);
                }
            }
            assert forall|p: int| start <= p < len implies #[trigger] covered(w, p) by {
                if p < start + chunk {
                    assert(w[0].0 <= p < w[0].1);
                } else {
                    assert(covered(rest, p));
                    let k = choose|k: int| 0 <= k < rest.len() && #[trigger] rest[k].0 <= p < rest[k].1;
                    assert(w[k + 1] == rest[k]);
                }
            }
            assert(w.last() == rest.last());
        }
    }
}

/// Some window holds all of the bytes `p .. p + n`.
pub open spec fn holds_range(w: Seq<(int, int)>, p: int, n: int) -> bool {
    exists|k: int| 0 <= k < w.len() && #[trigger] w[k].0 <= p && p + n <= w[k].1
}

proof fn lemma_windows_hold_short_ranges(start: int, len: int, chunk: int, overlap: int, p: int, n: int)
    requires
        chunk > 0,
        overlap >= 0,
        start <= p,
        0 <= n <= overlap + 1,
        p + n <= len,
        p < len,
    ensures
        holds_range(windows_from(start, len, chunk, overlap), p, n),
    decreases len - start,
{
    let w = windows_from(start, len, chunk, overlap);
    let end = if start + chunk + overlap < len { start + chunk + overlap } else { len };
    if p < start + chunk || end == len {
        assert(w[0] == (start, end));
        assert(w[0].0 <= p && p + n <= w[0].1);
    } else {
        let rest = windows_from(start + chunk, len, chunk, overlap);
        lemma_windows_hold_short_ranges(start + chunk, len, chunk, overlap, p, n);
        assert(w =~= seq![(start, end)] + rest);
        let k = choose|k: int| 0 <= k < rest.len() && #[trigger] rest[k].0 <= p && p + n <= rest[k].1;
        assert(w[k + 1] == rest[k]);
    }
}

/// The overlap does its work: any `overlap + 1` consecutive bytes of the file
/// (or fewer) lie wholly inside one window, so a string that short is never
/// cut by a window boundary.
pub proof fn law_short_ranges_fit_in_a_window(len: int, chunk: int, overlap: int, p: int, n: int)
    requires
        chunk > 0,
        overlap >= 0,
        0 <= p < len,
        0 <= n <= overlap + 1,
        p + n <= len,
    ensures
        holds_range(windows_from(0, len, chunk, overlap), p, n),
{
    lemma_windows_hold_short_ranges(0, len, chunk, overlap, p, n);
}

/// The scan windows tile the file: they start at 0, follow each other every
/// `chunk` bytes with no gap, end at the file's end, and cover every byte.
pub proof fn law_windows_cover_the_file(len: int, chunk: int, overlap: int)
    requires
        chunk > 0,
        overlap >= 0,
    ensures
        tiles(windows_from(0, len, chunk, overlap), 0, len, chunk),
{
    lemma_windows_tile(0, len, chunk, overlap);
}

pub open spec fn window_view(w: Seq<(usize, usize)>) -> Seq<(int, int)> {
    w.map_values(|p: (usize, usize)| (p.0 as int, p.1 as int))
}

/// The windows of `len` bytes with the given step and overlap.
pub fn windows(len: usize, chunk: usize, overlap: usize) -> (r: Vec<(usize, usize)>)
    requires
        chunk > 0,
        len + chunk + overlap <= usize::MAX,
    ensures
        window_view(r@) == windows_from(0, len as int, chunk as int, overlap as int),
{
    let mut r: Vec<(usize, usize)> = Vec::new();
    let mut start: usize = 0;
    while start < len
        invariant
            chunk > 0,
            len + chunk + overlap <= usize::MAX,
            start <= len,
            window_view(r@) + windows_from(start as int, len as int, chunk as int, overlap as int)
                == windows_from(0, len as int, chunk as int, overlap as int),
        decreases len - start,
    {
        let ghost before = r@;
        let end = if start + chunk + overlap < len { start + chunk + overlap } else { len };
        r.push((start, end));
        assert(window_view(r@) =~= window_view(before).push((start as int, end as int)));
        if end == len {
            assert(windows_from(start as int, len as int, chunk as int, overlap as int) =~= seq![(start as int, end as int)]);
            assert(window_view(r@) =~= window_view(before) + windows_from(start as int, len as int, chunk as int, overlap as int));
            return r;
        }
        assert(window_view(r@) + windows_from(start + chunk, len as int, chunk as int, overlap as int)
            =~= window_view(before) + windows_from(start as int, len as int, chunk as int, overlap as int));
        start = start + chunk;
    }
    assert(windows_from(start as int, len as int, chunk as int, overlap as int) =~= Seq::<(int, int)>::empty());
    assert(window_view(r@) =~= window_view(r@) + windows_from(start as int, len as int, chunk as int, overlap as int));
    r
}

/// The scan windows of a file of `len` bytes.
pub fn scan_windows(len: usize) -> (r: Vec<(usize, usize)>)
    requires
        len + SCAN_CHUNK + SCAN_OVERLAP <= usize::MAX,
    ensures
        window_view(r@) == windows_from(0, len as int, SCAN_CHUNK as int, SCAN_OVERLAP as int),
{
    windows(len, SCAN_CHUNK, SCAN_OVERLAP)
}

/// The entropy windows of a file of `len` bytes.
pub fn entropy_windows(len: usize) -> (r: Vec<(usize, usize)>)
    requires
        len + ENTROPY_CHUNK <= usize::MAX,
    ensures
        window_view(r@) == windows_from(0, len as int, ENTROPY_CHUNK as int, 0),
{
    windows(len, ENTROPY_CHUNK, 0)
}

/// One section of an object file, as the `object` crate reports it: its name
/// (if it is valid UTF-8), its raw contents (if they can be read) and its range
/// in the file (if it has one).
pub struct SectionInfo {
    pub name: Option<String>,
    pub data: Option<Vec<u8>>,
    pub file_range: Option<(u64, u64)>,
}

impl View for SectionInfo {
    type V = (Option<Seq<char>>, Option<Seq<u8>>, Option<(u64, u64)>);

    open spec fn view(&self) -> Self::V {
        (
            match self.name { Some(n) => Some(n@), None => None },
            match self.data { Some(d) => Some(d@), None => None },
            self.file_range,
        )
    }
}

/// The sections that `object::File::parse` finds in the bytes of a file, in
/// its order, or `None` when it cannot parse them.
pub uninterp spec fn object_sections(file: Seq<u8>) -> Option<Seq<(Option<Seq<char>>, Option<Seq<u8>>, Option<(u64, u64)>)>>;

/// Parses an object file with `object::File::parse` and lists its sections
/// (`ObjectSection::name`, `data` and `file_range` of each).
#[verifier::external_body]
pub fn parse_sections(file: &[u8]) -> (r: Option<Vec<SectionInfo>>)
    ensures
        r is None <==> object_sections(file@) is None,
        r matches Some(v) ==> object_sections(file@) == Some(v@.map_values(|s: SectionInfo| s@)),
{
    let obj = match object::File::parse(file) {
        Ok(obj) => obj,
        Err(_) => return None,
    };
    let mut out = Vec::new();
    for s in obj.sections() {
        let name = s.name().ok().map(|n| n.to_string());
        let data = s.data().ok().map(|d| d.to_vec());
        out.push(SectionInfo { name, data, file_range: s.file_range() });
    }
    Some(out)
}

/// The regions chosen among the sections: for each section named `target`
/// whose contents can be read, its contents and the file offset where they
/// start (0 when the section has no file range).
pub open spec fn chosen_sections(
    sections: Seq<(Option<Seq<char>>, Option<Seq<u8>>, Option<(u64, u64)>)>,
    target: Seq<char>,
) -> Seq<(Seq<u8>, u64)>
    decreases sections.len(),
{
    if sections.len() == 0 {
        seq![]
    } else {
        let s = sections.last();
        chosen_sections(sections.drop_last(), target) + if s.0 == Some(target) && s.1 is Some {
            seq![(s.1->0, match s.2 { Some(r) => r.0, None => 0u64 })]
        } else {
            seq![]
        }
    }
}

/// The regions of the named sections (none when the file cannot be parsed).
pub open spec fn section_regions_of(file: Seq<u8>, target: Seq<char>) -> Seq<(Seq<u8>, u64)> {
    match object_sections(file) {
        Some(sections) => chosen_sections(sections, target),
        None => seq![],
    }
}

/// The regions of `file` to scan when only the sections named `target` are wanted.
pub fn section_regions(file: &[u8], target: &String) -> (r: Vec<(Vec<u8>, u64)>)
    ensures
        r@.map_values(|x: (Vec<u8>, u64)| (x.0@, x.1)) == section_regions_of(file@, target@),
{
    let mut r: Vec<(Vec<u8>, u64)> = Vec::new();
    match parse_sections(file) {
        None => {
            assert(r@.map_values(|x: (Vec<u8>, u64)| (x.0@, x.1)) =~= Seq::<(Seq<u8>, u64)>::empty());
            r
        },
        Some(sections) => {
            let ghost all = sections@.map_values(|s: SectionInfo| s@);
            let n = sections.len();
            let mut sections = sections;
            let mut i: usize = 0;
            while i < n
                invariant
                    n == sections@.len(),
                    i <= n,
                    all == sections@.map_values(|s: SectionInfo| s@),
                    r@.map_values(|x: (Vec<u8>, u64)| (x.0@, x.1)) == chosen_sections(all.take(i as int), target@),
                decreases n - i,
            {
                assert(all.take(i + 1).drop_last() =~= all.take(i as int));
                let ghost before = r@;
                let s = &sections[i];
                assert(all[i as int] == s@);
                let matches = match &s.name {
                    Some(name) => *name == *target,
                    None => false,
                };
                if matches {
                    match &s.data {
                        Some(d) => {
                            let start = match s.file_range {
                                Some(range) => range.0,
                                None => 0,
                            };
                            let copy = d.clone();
                            assert(copy@ =~= d@);
                            r.push((copy, start));
                            assert(r@.map_values(|x: (Vec<u8>, u64)| (x.0@, x.1))
                                =~= before.map_values(|x: (Vec<u8>, u64)| (x.0@, x.1)).push((d@, start)));
                        },
                        None => {},
                    }
                }
                i = i + 1;
                assert(r@.map_values(|x: (Vec<u8>, u64)| (x.0@, x.1)) =~= chosen_sections(all.take(i as int), target@));
            }
            assert(all.take(n as int) =~= all);
            r
        },
    }
}

} // verus!
