//! Splitting document text into overlapping segments that end, where possible,
//! at a sentence, line or word boundary.
//!
//! Positions and sizes count characters, so a cut never falls inside the
//! encoding of a character.

use vstd::prelude::*;
use crate::text::push_char;
use vstd::arithmetic::div_mod::{lemma_div_plus_one, lemma_div_is_ordered};

verus! {

/// Segment size and overlap, in characters.
pub struct ChunkConfig {
    pub chunk_size: usize,
    pub overlap: usize,
}

impl Default for ChunkConfig {
    /// About 512 tokens per segment and 50 of overlap, at four characters a token.
    fn default() -> (r: Self)
        ensures
            r.chunk_size == 2048,
            r.overlap == 200,
    {
        ChunkConfig { chunk_size: 2048, overlap: 200 }
    }
}

/// The character classes tried in turn when looking for a place to cut:
/// sentence ends, then line feeds, then spaces.
pub open spec fn in_class(c: char, class: int) -> bool {
    if class == 0 {
        c == '.' || c == '!' || c == '?'
    } else if class == 1 {
        c == '\n'
    } else {
        c == ' '
    }
}

/// The last position in `[lo, hi)` whose character is in `class`, or -1.
pub open spec fn last_in(s: Seq<char>, lo: int, hi: int, class: int) -> int
    decreases hi - lo,
{
    if hi <= lo {
        -1
    } else if in_class(s[hi - 1], class) {
        hi - 1
    } else {
        last_in(s, lo, hi - 1, class)
    }
}

/// Where a window `[lo, hi)` is cut, as an offset from `lo`: just after the
/// last sentence end, else after the last line feed, else after the last space.
pub open spec fn boundary_offset(s: Seq<char>, lo: int, hi: int) -> Option<int> {
    let a = last_in(s, lo, hi, 0);
    let b = last_in(s, lo, hi, 1);
    let c = last_in(s, lo, hi, 2);
    if a >= 0 {
        Some(a + 1 - lo)
    } else if b >= 0 {
        Some(b + 1 - lo)
    } else if c >= 0 {
        Some(c + 1 - lo)
    } else {
        None
    }
}

/// The end of the segment that starts at `start`.
pub open spec fn cut_at(s: Seq<char>, size: int, start: int) -> int {
    let end = if start + size < s.len() { start + size } else { s.len() as int };
    if end < s.len() {
        match boundary_offset(s, start, end) {
            Some(off) => start + off,
            None => end,
        }
    } else {
        end
    }
}

/// The cursor after a segment `[start, cut)`: `overlap` characters back from
/// the cut, unless that would not move past `start`.
pub open spec fn next_cursor(start: int, cut: int, overlap: int) -> int {
    if cut - overlap > start {
        cut - overlap
    } else {
        cut
    }
}

/// The spans `(start, end)` of the segments from `start` on.
pub open spec fn spans_from(s: Seq<char>, size: int, overlap: int, start: int) -> Seq<(int, int)>
    decreases s.len() - start,
{
    if start >= s.len() {
        Seq::empty()
    } else {
        let cut = cut_at(s, size, start);
        let nxt = next_cursor(start, cut, overlap);
        if cut >= s.len() || nxt <= start || nxt > cut {
            seq![(start, cut)]
        } else {
            seq![(start, cut)] + spans_from(s, size, overlap, nxt)
        }
    }
}

/// The spans of all segments of `s`: the whole text when it fits in one.
pub open spec fn chunk_spans(s: Seq<char>, size: int, overlap: int) -> Seq<(int, int)> {
    if s.len() <= size {
        seq![(0, s.len() as int)]
    } else {
        spans_from(s, size, overlap, 0)
    }
}

/// The pieces of `s` under `spans`.
pub open spec fn span_pieces(s: Seq<char>, spans: Seq<(int, int)>) -> Seq<Seq<char>> {
    spans.map_values(|p: (int, int)| s.subrange(p.0, p.1))
}

/// The character sequences of `v`.
pub open spec fn string_views(v: Seq<String>) -> Seq<Seq<char>> {
    v.map_values(|x: String| x@)
}

/// The segments of `s`.
pub open spec fn segments(s: Seq<char>, size: int, overlap: int) -> Seq<Seq<char>> {
    span_pieces(s, chunk_spans(s, size, overlap))
}

/// The settings that `chunk_text` uses for `config`.
pub open spec fn effective_size(config: Option<ChunkConfig>) -> int {
    match config {
        Some(c) => c.chunk_size as int,
        None => 2048,
    }
}

pub open spec fn effective_overlap(config: Option<ChunkConfig>) -> int {
    match config {
        Some(c) => c.overlap as int,
        None => 200,
    }
}

proof fn lemma_last_in_bounds(s: Seq<char>, lo: int, hi: int, class: int)
    ensures
        last_in(s, lo, hi, class) == -1 || (lo <= last_in(s, lo, hi, class) < hi && in_class(
            s[last_in(s, lo, hi, class)],
            class,
        )),
    decreases hi - lo,
{
    if hi > lo && !in_class(s[hi - 1], class) {
        lemma_last_in_bounds(s, lo, hi - 1, class);
    }
}

/// A cut lies strictly after its start and at most one window further.
pub proof fn lemma_cut_bounds(s: Seq<char>, size: int, start: int)
    requires
        0 <= start < s.len(),
        size > 0,
    ensures
        start < cut_at(s, size, start) <= s.len(),
        cut_at(s, size, start) <= start + size,
{
    let end = if start + size < s.len() { start + size } else { s.len() as int };
    lemma_last_in_bounds(s, start, end, 0);
    lemma_last_in_bounds(s, start, end, 1);
    lemma_last_in_bounds(s, start, end, 2);
}

/// What each segment adds beyond the text that the segments before it already
/// covered (`covered` characters), joined in order.
pub open spec fn reassemble(segs: Seq<Seq<char>>, spans: Seq<(int, int)>, covered: int) -> Seq<char>
    decreases segs.len(),
{
    if segs.len() == 0 || spans.len() == 0 {
        Seq::empty()
    } else {
        let a = spans[0].0;
        let b = spans[0].1;
        let fresh = if covered < b {
            segs[0].subrange(covered - a, segs[0].len() as int)
        } else {
            Seq::empty()
        };
        fresh + reassemble(segs.drop_first(), spans.drop_first(), if covered < b { b } else { covered })
    }
}

/// Whether `s` holds no sentence end, line feed or space.
pub open spec fn has_no_break(s: Seq<char>) -> bool {
    forall|i: int| 0 <= i < s.len() ==> !in_class(#[trigger] s[i], 0) && !in_class(s[i], 1)
        && !in_class(s[i], 2)
}

/// A text that fits in one segment is returned as its only segment.
pub proof fn lemma_short_text_is_one_segment(s: Seq<char>, size: int, overlap: int)
    requires
        s.len() <= size,
    ensures
        segments(s, size, overlap) == seq![s],
{
    assert(s.subrange(0, s.len() as int) =~= s);
    assert(segments(s, size, overlap) =~= seq![s]);
}

proof fn lemma_pieces_drop_first(s: Seq<char>, spans: Seq<(int, int)>)
    requires
        spans.len() > 0,
    ensures
        span_pieces(s, spans).drop_first() == span_pieces(s, spans.drop_first()),
{
    assert(span_pieces(s, spans).drop_first() =~= span_pieces(s, spans.drop_first()));
}

proof fn lemma_reassemble_from(s: Seq<char>, size: int, overlap: int, start: int, covered: int)
    requires
        size > 0,
        overlap >= 0,
        0 <= start < s.len(),
        start <= covered <= s.len(),
    ensures
        s.subrange(0, covered) + reassemble(
            span_pieces(s, spans_from(s, size, overlap, start)),
            spans_from(s, size, overlap, start),
            covered,
        ) == s,
    decreases s.len() - start,
{
    let spans = spans_from(s, size, overlap, start);
    let segs = span_pieces(s, spans);
    let cut = cut_at(s, size, start);
    let nxt = next_cursor(start, cut, overlap);
    lemma_cut_bounds(s, size, start);
    let new_cov = if covered < cut { cut } else { covered };
    let fresh = if covered < cut {
        segs[0].subrange(covered - start, segs[0].len() as int)
    } else {
        Seq::<char>::empty()
    };
    assert(spans[0] == (start, cut));
    assert(segs.len() == spans.len());
    assert(segs[0] == s.subrange(start, cut));
    assert(reassemble(segs, spans, covered) == fresh + reassemble(
        segs.drop_first(),
        spans.drop_first(),
        new_cov,
    ));
    assert(s.subrange(0, covered) + fresh =~= s.subrange(0, new_cov));
    lemma_pieces_drop_first(s, spans);
    if cut >= s.len() {
        assert(spans.drop_first().len() == 0);
        assert(reassemble(segs.drop_first(), spans.drop_first(), new_cov) == Seq::<char>::empty());
        assert(s.subrange(0, new_cov) =~= s);
        assert(s.subrange(0, covered) + reassemble(segs, spans, covered) =~= s);
    } else {
        assert(spans.drop_first() == spans_from(s, size, overlap, nxt));
        lemma_reassemble_from(s, size, overlap, nxt, new_cov);
        assert(s.subrange(0, covered) + reassemble(segs, spans, covered) =~= s.subrange(0, new_cov)
            + reassemble(segs.drop_first(), spans.drop_first(), new_cov));
    }
}

/// Joining what each segment adds beyond the ones before it gives back the
/// whole text: no character is lost.
pub proof fn lemma_segments_cover_text(s: Seq<char>, size: int, overlap: int)
    requires
        size > 0,
        overlap >= 0,
    ensures
        reassemble(segments(s, size, overlap), chunk_spans(s, size, overlap), 0) == s,
{
    if s.len() <= size {
        let spans = chunk_spans(s, size, overlap);
        let segs = segments(s, size, overlap);
        assert(segs.len() == 1);
        assert(segs[0] == s.subrange(0, s.len() as int));
        assert(s.subrange(0, s.len() as int) =~= s);
        assert(segs.drop_first().len() == 0);
        assert(reassemble(segs.drop_first(), spans.drop_first(), s.len() as int) == Seq::<char>::empty());
        assert(reassemble(segs, spans, 0) =~= s);
    } else {
        lemma_reassemble_from(s, size, overlap, 0, 0);
        assert(s.subrange(0, 0) =~= Seq::<char>::empty());
        assert(Seq::<char>::empty() + reassemble(segments(s, size, overlap), chunk_spans(s, size, overlap), 0)
            =~= reassemble(segments(s, size, overlap), chunk_spans(s, size, overlap), 0));
    }
}

proof fn lemma_last_in_none(s: Seq<char>, lo: int, hi: int, class: int)
    requires
        has_no_break(s),
        0 <= lo,
        hi <= s.len(),
        0 <= class <= 2,
    ensures
        last_in(s, lo, hi, class) == -1,
{
    lemma_last_in_bounds(s, lo, hi, class);
}

proof fn lemma_count_from(s: Seq<char>, size: int, overlap: int, start: int)
    requires
        0 <= overlap < size,
        0 <= start < s.len(),
        has_no_break(s),
    ensures
        spans_from(s, size, overlap, start).len() <= (s.len() - start + (size - overlap) - 1) / (
        size - overlap),
    decreases s.len() - start,
{
    let d = size - overlap;
    let rest = s.len() - start;
    let cut = cut_at(s, size, start);
    if start + size < s.len() {
        lemma_last_in_none(s, start, start + size, 0);
        lemma_last_in_none(s, start, start + size, 1);
        lemma_last_in_none(s, start, start + size, 2);
        assert(cut == start + size);
        assert(next_cursor(start, cut, overlap) == start + d);
        lemma_count_from(s, size, overlap, start + d);
        lemma_div_plus_one(rest - d + d - 1, d);
    } else {
        lemma_div_is_ordered(d, rest + d - 1, d);
        lemma_div_plus_one(0, d);
    }
}

/// On a non-empty text without sentence ends, line feeds or spaces, with
/// `overlap < size`, chunking takes at most `ceil(len / (size - overlap))`
/// steps, one segment per step.
pub proof fn lemma_segment_count_bound(s: Seq<char>, size: int, overlap: int)
    requires
        0 <= overlap < size,
        s.len() > 0,
        has_no_break(s),
    ensures
        chunk_spans(s, size, overlap).len() <= (s.len() + (size - overlap) - 1) / (size - overlap),
{
    let d = size - overlap;
    if s.len() <= size {
        lemma_div_is_ordered(d, s.len() + d - 1, d);
        lemma_div_plus_one(0, d);
    } else {
        lemma_count_from(s, size, overlap, 0);
    }
}

proof fn lemma_count_from_at_most(s: Seq<char>, size: int, overlap: int, start: int)
    requires
        size > 0,
        0 <= start < s.len(),
    ensures
        spans_from(s, size, overlap, start).len() <= s.len() - start,
    decreases s.len() - start,
{
    let cut = cut_at(s, size, start);
    let nxt = next_cursor(start, cut, overlap);
    lemma_cut_bounds(s, size, start);
    if !(cut >= s.len() || nxt <= start || nxt > cut) {
        lemma_count_from_at_most(s, size, overlap, nxt);
    }
}

/// Chunking always ends: a non-empty text never gives more segments than it
/// has characters.
pub proof fn lemma_segment_count_at_most_len(s: Seq<char>, size: int, overlap: int)
    requires
        size > 0,
        s.len() > 0,
    ensures
        chunk_spans(s, size, overlap).len() <= s.len(),
{
    if s.len() > size {
        lemma_count_from_at_most(s, size, overlap, 0);
    }
}

/// The last position in `[lo, hi)` of a character of `class`, if any.
fn rfind_class(chars: &Vec<char>, lo: usize, hi: usize, class: u8) -> (r: Option<usize>)
    requires
        lo <= hi <= chars.len(),
        class <= 2,
    ensures
        match r {
            Some(i) => i as int == last_in(chars@, lo as int, hi as int, class as int),
            None => last_in(chars@, lo as int, hi as int, class as int) == -1,
        },
{
    let mut i = hi;
    while i > lo
        invariant
            lo <= i <= hi <= chars.len(),
            class <= 2,
            last_in(chars@, lo as int, hi as int, class as int) == last_in(
                chars@,
                lo as int,
                i as int,
                class as int,
            ),
        decreases i,
    {
        let c = chars[i - 1];
        let hit = if class == 0 {
            c == '.' || c == '!' || c == '?'
        } else if class == 1 {
            c == '\n'
        } else {
            c == ' '
        };
        if hit {
            return Some(i - 1);
        }
        i = i - 1;
    }
    None
}

/// Where to cut the window `[lo, hi)` of `chars`, as an offset from `lo`.
fn find_boundary(chars: &Vec<char>, lo: usize, hi: usize) -> (r: Option<usize>)
    requires
        lo <= hi <= chars.len(),
    ensures
        match r {
            Some(off) => boundary_offset(chars@, lo as int, hi as int) == Some(off as int) && 1
                <= off <= hi - lo,
            None => boundary_offset(chars@, lo as int, hi as int) is None,
        },
{
    proof {
        lemma_last_in_bounds(chars@, lo as int, hi as int, 0);
        lemma_last_in_bounds(chars@, lo as int, hi as int, 1);
        lemma_last_in_bounds(chars@, lo as int, hi as int, 2);
    }
    if let Some(pos) = rfind_class(chars, lo, hi, 0) {
        return Some(pos + 1 - lo);
    }
    if let Some(pos) = rfind_class(chars, lo, hi, 1) {
        return Some(pos + 1 - lo);
    }
    if let Some(pos) = rfind_class(chars, lo, hi, 2) {
        return Some(pos + 1 - lo);
    }
    None
}

/// The characters of `text`, in order.
fn chars_of(text: &str) -> (r: Vec<char>)
    ensures
        r@ == text@,
{
    let mut v: Vec<char> = Vec::new();
    for c in it: text.chars()
        invariant
            it.seq() == text@,
            v@ == text@.take(it.index() as int),
    {
        v.push(c);
    }
    v
}

/// The string made of `chars[lo..hi]`.
fn string_of(chars: &Vec<char>, lo: usize, hi: usize) -> (r: String)
    requires
        lo <= hi <= chars.len(),
    ensures
        r@ == chars@.subrange(lo as int, hi as int),
{
    let mut s = String::new();
    let mut i = lo;
    while i < hi
        invariant
            lo <= i <= hi <= chars.len(),
            s@ == chars@.subrange(lo as int, i as int),
        decreases hi - i,
    {
        push_char(&mut s, chars[i]);
        i = i + 1;
    }
    s
}

/// Splits `text` into segments of at most `chunk_size` characters (2048 by
/// default), each ending after the last sentence end, line feed or space of
/// its window where there is one, and each starting `overlap` characters (200
/// by default) before the end of the previous one while that moves forward.
/// A text that fits in one segment, the empty text included, is returned whole.
pub fn chunk_text(text: &str, config: Option<ChunkConfig>) -> (r: Vec<String>)
    requires
        effective_size(config) > 0,
    ensures
        string_views(r@) == segments(
            text@,
            effective_size(config),
            effective_overlap(config),
        ),
{
    let (size, overlap) = match config {
        Some(c) => (c.chunk_size, c.overlap),
        None => (2048usize, 200usize),
    };
    let chars = chars_of(text);
    let n = chars.len();
    let ghost s = text@;
    let ghost sz = size as int;
    let ghost ov = overlap as int;
    if n <= size {
        let mut one: Vec<String> = Vec::new();
        one.push(string_of(&chars, 0, n));
        proof {
            assert(string_views(one@) =~= segments(s, sz, ov));
        }
        return one;
    }
    let mut chunks: Vec<String> = Vec::new();
    let mut start: usize = 0;
    let ghost mut done: Seq<(int, int)> = Seq::empty();
    while start < n
        invariant_except_break
            done + spans_from(s, sz, ov, start as int) == spans_from(s, sz, ov, 0),
        invariant
            s == chars@,
            n == chars.len(),
            n > size,
            sz == size,
            ov == overlap,
            size > 0,
            start < n,
            string_views(chunks@) == span_pieces(s, done),
        ensures
            done == spans_from(s, sz, ov, 0),
            string_views(chunks@) == span_pieces(s, done),
        decreases n - start,
    {
        let end = if size < n - start { start + size } else { n };
        let cut = if end < n {
            match find_boundary(&chars, start, end) {
                Some(off) => start + off,
                None => end,
            }
        } else {
            end
        };
        proof {
            lemma_cut_bounds(s, sz, start as int);
            assert(cut as int == cut_at(s, sz, start as int));
        }
        let ghost old_view = chunks@;
        let piece = string_of(&chars, start, cut);
        chunks.push(piece);
        let ghost old_done = done;
        proof {
            done = done.push((start as int, cut as int));
            assert(chunks@ == old_view.push(piece));
            assert(string_views(old_view).len() == old_done.len());
            assert forall|i: int| 0 <= i < done.len() implies #[trigger] string_views(chunks@)[i]
                == span_pieces(s, done)[i] by {
                if i < old_done.len() {
                    assert(string_views(old_view)[i] == span_pieces(s, old_done)[i]);
                    assert(chunks@[i] == old_view[i]);
                    assert(done[i] == old_done[i]);
                } else {
                    assert(chunks@[i] == piece);
                    assert(done[i] == (start as int, cut as int));
                }
            }
            assert(string_views(chunks@) =~= span_pieces(s, done));
        }
        if cut >= n {
            proof {
                assert(spans_from(s, sz, ov, start as int) == seq![(start as int, cut as int)]);
                assert(done =~= spans_from(s, sz, ov, 0));
            }
            break;
        }
        let nxt = if cut > overlap && cut - overlap > start {
            cut - overlap
        } else {
            cut
        };
        proof {
            assert(nxt as int == next_cursor(start as int, cut as int, ov));
            assert(spans_from(s, sz, ov, start as int) == seq![(start as int, cut as int)]
                + spans_from(s, sz, ov, nxt as int));
            assert(done + spans_from(s, sz, ov, nxt as int) =~= old_done + spans_from(
                s,
                sz,
                ov,
                start as int,
            ));
        }
        start = nxt;
    }
    proof {
        assert(chunk_spans(s, sz, ov) == spans_from(s, sz, ov, 0));
    }
    chunks
}

} // verus!
