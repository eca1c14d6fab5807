//! Scanning of Jira markup: `{tag}` segments and inline base64 images.

use std::ops::Range;
use vstd::prelude::*;
use vstd::slice::slice_subrange;
use vstd::string::StringSliceAdditionalSpecFns;

verus! {

/// `needle` occurs in `hay` starting at byte offset `i`.
pub open spec fn occurs_at(hay: Seq<u8>, needle: Seq<u8>, i: int) -> bool {
    &&& 0 <= i
    &&& i + needle.len() <= hay.len()
    &&& hay.subrange(i, i + needle.len()) == needle
}

/// `i` is the smallest offset at which `needle` occurs in `hay`.
pub open spec fn is_first_occurrence(hay: Seq<u8>, needle: Seq<u8>, i: int) -> bool {
    &&& occurs_at(hay, needle, i)
    &&& forall|j: int| 0 <= j < i ==> !occurs_at(hay, needle, j)
}

/// The offset of the first occurrence of `needle` in `hay`, if there is one.
pub open spec fn first_occurrence(hay: Seq<u8>, needle: Seq<u8>) -> Option<int> {
    if exists|i: int| is_first_occurrence(hay, needle, i) {
        Some(choose|i: int| is_first_occurrence(hay, needle, i))
    } else {
        None
    }
}

/// The first occurrence is unique.
pub proof fn lemma_first_occurrence_is(hay: Seq<u8>, needle: Seq<u8>, i: int)
    requires
        is_first_occurrence(hay, needle, i),
    ensures
        first_occurrence(hay, needle) == Some(i),
{
    let j = choose|j: int| is_first_occurrence(hay, needle, j);
    assert(is_first_occurrence(hay, needle, j));
    if j < i {
        assert(!occurs_at(hay, needle, j));
    }
    if i < j {
        assert(!occurs_at(hay, needle, i));
    }
}

/// Without any occurrence there is no first one.
pub proof fn lemma_no_occurrence(hay: Seq<u8>, needle: Seq<u8>)
    requires
        forall|i: int| !occurs_at(hay, needle, i),
    ensures
        first_occurrence(hay, needle) is None,
{
}

/// `memchr::memmem::Finder::find`: the offset of the first occurrence of
/// `needle` in `haystack` (an empty needle occurs at every offset, so it is
/// found at 0), or `None` when the needle occurs nowhere.
#[verifier::external_body]
fn memmem_find(haystack: &[u8], needle: &[u8]) -> (found: Option<usize>)
    ensures
        found matches Some(i) ==> is_first_occurrence(haystack@, needle@, i as int),
        found is None ==> forall|i: int| !occurs_at(haystack@, needle@, i),
{
    memchr::memmem::Finder::new(needle).find(haystack)
}

/// The first occurrence of `needle` in `haystack`, found with memchr.
fn find_first(haystack: &[u8], needle: &[u8]) -> (found: Option<usize>)
    ensures
        found matches Some(i) ==> first_occurrence(haystack@, needle@) == Some(i as int)
            && i + needle@.len() <= haystack@.len(),
        found is None ==> first_occurrence(haystack@, needle@) is None,
{
    let found = memmem_find(haystack, needle);
    proof {
        match found {
            Some(i) => lemma_first_occurrence_is(haystack@, needle@, i as int),
            None => lemma_no_occurrence(haystack@, needle@),
        }
    }
    found
}

/// The segment of `chunk` enclosed by the first `begin` and the first
/// `closing` after it, as a pair of byte offsets `(start, end)`.
pub open spec fn spec_find_segm(chunk: Seq<u8>, begin: Seq<u8>, closing: Seq<u8>) -> Option<
    (int, int),
> {
    match first_occurrence(chunk, begin) {
        Some(begin_pos) => {
            let reset_pos = begin_pos + begin.len();
            match first_occurrence(chunk.subrange(reset_pos, chunk.len() as int), closing) {
                Some(closing_pos) => Some((reset_pos, reset_pos + closing_pos)),
                None => None,
            }
        },
        None => None,
    }
}

/// `find_segm` on the bytes of its arguments.
fn find_segm_bytes(chunk: &[u8], begin: &[u8], closing: &[u8]) -> (segm: Option<Range<usize>>)
    ensures
        match segm {
            Some(r) => spec_find_segm(chunk@, begin@, closing@) == Some((r.start as int, r.end as int)),
            None => spec_find_segm(chunk@, begin@, closing@) is None,
        },
        segm matches Some(r) ==> begin@.len() <= r.start <= r.end && r.end + closing@.len()
            <= chunk@.len(),
{
    let begin_pos = match find_first(chunk, begin) {
        Some(p) => p,
        None => return None,
    };
    assert(begin_pos + begin@.len() <= chunk@.len());
    assert(chunk@.len() == chunk.len());
    let reset_pos = begin_pos + begin.len();
    let shifted_chunk = slice_subrange(chunk, reset_pos, chunk.len());
    let closing_pos = match find_first(shifted_chunk, closing) {
        Some(p) => p,
        None => return None,
    };
    Some(reset_pos..(reset_pos + closing_pos))
}

/// The byte range of the text between the first `begin` in `chunk` and the
/// first `closing` after it, or `None` when either is missing.
pub fn find_segm(chunk: &str, begin: &str, closing: &str) -> (segm: Option<Range<usize>>)
    ensures
        match segm {
            Some(r) => spec_find_segm(chunk.spec_bytes(), begin.spec_bytes(), closing.spec_bytes())
                == Some((r.start as int, r.end as int)),
            None => spec_find_segm(
                chunk.spec_bytes(),
                begin.spec_bytes(),
                closing.spec_bytes(),
            ) is None,
        },
{
    find_segm_bytes(chunk.as_bytes(), begin.as_bytes(), closing.as_bytes())
}

/// Positions of one `{tag}` segment found by [`parse_jira_markup`].
#[derive(Debug)]
pub struct TagSegm {
    pub start_marker: Range<usize>,
    pub text: Range<usize>,
    pub end_marker: Range<usize>,
}

/// The bytes that open a markup segment: `{`.
pub open spec fn open_brace() -> Seq<u8> {
    seq![123u8]
}

/// The bytes that close a markup segment: `}`.
pub open spec fn close_brace() -> Seq<u8> {
    seq![125u8]
}

/// The segment recorded for a search that started at byte `offset` and found
/// the text at `(start, end)` relative to `offset`: `text` stays relative to
/// `offset`, the markers are absolute; the start marker is as long as the
/// opening bytes and starts where the text starts, the end marker covers the
/// closing bytes.
pub open spec fn spec_segm(offset: int, found: (int, int)) -> TagSegm {
    let abs_start = offset + found.0;
    let abs_end = offset + found.1;
    TagSegm {
        start_marker: Range { start: abs_start as usize, end: (abs_start + open_brace().len()) as usize },
        text: Range { start: found.0 as usize, end: found.1 as usize },
        end_marker: Range { start: abs_end as usize, end: (abs_end + close_brace().len()) as usize },
    }
}

/// The segments found from byte `offset` of `input` on: each search runs on
/// the input from the end of the previous segment's closing brace.
pub open spec fn spec_markup_from(input: Seq<u8>, offset: int) -> Seq<TagSegm>
    decreases input.len() - offset,
{
    if offset < 0 || offset >= input.len() {
        seq![]
    } else {
        match spec_find_segm(input.subrange(offset, input.len() as int), open_brace(), close_brace()) {
            Some(found) => {
                let new_offset = offset + found.1 + close_brace().len();
                if offset < new_offset <= input.len() {
                    seq![spec_segm(offset, found)] + spec_markup_from(input, new_offset)
                } else {
                    seq![spec_segm(offset, found)]
                }
            },
            None => seq![],
        }
    }
}

/// All `{tag}` segments of `input`, scanned left to right: each segment is
/// the text between the first `{` and the first `}` after it, and the next
/// search starts after that `}`.
pub fn parse_jira_markup(input: &str) -> (results: Vec<TagSegm>)
    ensures
        results@ == spec_markup_from(input.spec_bytes(), 0),
{
    let bytes = input.as_bytes();
    let begin: Vec<u8> = vec![123u8];
    let closing: Vec<u8> = vec![125u8];
    assert(begin@ == open_brace());
    assert(closing@ == close_brace());
    let mut results: Vec<TagSegm> = Vec::new();
    let mut offset: usize = 0;

    while offset < bytes.len()
        invariant
            bytes@ == input.spec_bytes(),
            begin@ == open_brace(),
            closing@ == close_brace(),
            offset <= bytes@.len(),
            results@ + spec_markup_from(bytes@, offset as int) == spec_markup_from(bytes@, 0),
        decreases bytes@.len() - offset,
    {
        let rest = slice_subrange(bytes, offset, bytes.len());
        match find_segm_bytes(rest, begin.as_slice(), closing.as_slice()) {
            Some(text) => {
                let abs_start = offset + text.start;
                let abs_end = offset + text.end;
                let new_offset = abs_end + closing.len();
                let start_marker = abs_start..(abs_start + begin.len());
                let end_marker = abs_end..new_offset;
                let segm = TagSegm { start_marker, text, end_marker };
                proof {
                    let found = (segm.text.start as int, segm.text.end as int);
                    assert(segm == spec_segm(offset as int, found));
                    assert(spec_markup_from(bytes@, offset as int) == seq![segm] + spec_markup_from(
                        bytes@,
                        new_offset as int,
                    ));
                    assert(results@.push(segm) + spec_markup_from(bytes@, new_offset as int)
                        =~= results@ + (seq![segm] + spec_markup_from(bytes@, new_offset as int)));
                }
                results.push(segm);
                offset = new_offset;
            },
            None => {
                assert(spec_markup_from(bytes@, offset as int) == Seq::<TagSegm>::empty());
                assert(results@ + Seq::<TagSegm>::empty() =~= results@);
                return results;
            },
        }
    }
    assert(results@ + Seq::<TagSegm>::empty() =~= results@);
    results
}

/// A first occurrence that exists is an occurrence with none before it.
pub proof fn lemma_first_occurrence_some(hay: Seq<u8>, needle: Seq<u8>)
    requires
        first_occurrence(hay, needle) is Some,
    ensures
        is_first_occurrence(hay, needle, first_occurrence(hay, needle)->0),
{
}

/// Segment `s` of `input` is framed by braces: the byte before the start of
/// its text is `{`, the byte at its end marker is `}`, no `}` lies in
/// between, and its markers and text have the lengths that go with that.
pub open spec fn segm_framed(input: Seq<u8>, s: TagSegm) -> bool {
    let p = s.start_marker.start as int;
    let q = s.end_marker.start as int;
    &&& 1 <= p <= q < input.len()
    &&& input[p - 1] == 123u8
    &&& input[q] == 125u8
    &&& s.start_marker.end == p + 1
    &&& s.end_marker.end == q + 1
    &&& s.text.end - s.text.start == q - p
    &&& forall|j: int| p <= j < q ==> input[j] != 125u8
}

#[verifier::spinoff_prover]
#[verifier::rlimit(40)]
proof fn lemma_markup_from(input: Seq<u8>, offset: int)
    requires
        0 <= offset,
        input.len() <= usize::MAX,
    ensures
        ({
            let segs = spec_markup_from(input, offset);
            &&& forall|k: int| 0 <= k < segs.len() ==> segm_framed(input, #[trigger] segs[k])
            &&& forall|k: int| 0 <= k < segs.len() ==> offset < #[trigger] segs[k].start_marker.start
            &&& segs.len() > 0 ==> segs[0].text.start == segs[0].start_marker.start - offset
            &&& forall|k: int|
                0 <= k < segs.len() - 1 ==> #[trigger] segs[k].end_marker.end < segs[k
                    + 1].start_marker.start && segs[k + 1].text.start == segs[k
                    + 1].start_marker.start - segs[k].end_marker.end
        }),
    decreases input.len() - offset,
{
    if offset < input.len() {
        let chunk = input.subrange(offset, input.len() as int);
        match spec_find_segm(chunk, open_brace(), close_brace()) {
            Some(found) => {
                lemma_first_occurrence_some(chunk, open_brace());
                let bp = first_occurrence(chunk, open_brace())->0;
                let reset = bp + 1;
                let shifted = chunk.subrange(reset, chunk.len() as int);
                lemma_first_occurrence_some(shifted, close_brace());
                let cp = first_occurrence(shifted, close_brace())->0;
                assert(found == (reset, reset + cp));
                assert(chunk.subrange(bp, bp + 1)[0] == chunk[bp]);
                assert(shifted.subrange(cp, cp + 1)[0] == shifted[cp]);
                let seg = spec_segm(offset, found);
                assert forall|j: int|
                    seg.start_marker.start <= j < seg.end_marker.start implies input[j]
                    != 125u8 by {
                    let jj = j - offset - reset;
                    assert(!occurs_at(shifted, close_brace(), jj));
                    assert(shifted.subrange(jj, jj + 1)[0] == shifted[jj]);
                    if input[j] == 125u8 {
                        assert(shifted.subrange(jj, jj + 1) =~= close_brace());
                    }
                }
                assert(segm_framed(input, seg));
                let new_offset = offset + found.1 + 1;
                lemma_markup_from(input, new_offset);
                let rest = spec_markup_from(input, new_offset);
                let segs = spec_markup_from(input, offset);
                assert(segs == seq![seg] + rest);
                assert forall|k: int| 0 <= k < segs.len() implies segm_framed(
                    input,
                    #[trigger] segs[k],
                ) && offset < segs[k].start_marker.start by {
                    if k > 0 {
                        assert(segs[k] == rest[k - 1]);
                    }
                }
                assert forall|k: int| 0 <= k < segs.len() - 1 implies #[trigger] segs[k].end_marker.end
                    < segs[k + 1].start_marker.start && segs[k + 1].text.start == segs[k
                    + 1].start_marker.start - segs[k].end_marker.end by {
                    assert(segs[k + 1] == rest[k]);
                    if k > 0 {
                        assert(segs[k] == rest[k - 1]);
                    }
                }
            },
            None => {},
        }
    }
}

/// Where the search that found segment `k` of `segs` started: the end of the
/// previous segment's end marker, or `offset` for the first segment.
pub open spec fn search_start(segs: Seq<TagSegm>, k: int, offset: int) -> int {
    if k == 0 {
        offset
    } else {
        segs[k - 1].end_marker.end as int
    }
}

#[verifier::spinoff_prover]
proof fn lemma_markup_first_brace(input: Seq<u8>, offset: int)
    requires
        0 <= offset,
        input.len() <= usize::MAX,
    ensures
        ({
            let segs = spec_markup_from(input, offset);
            forall|k: int, j: int|
                #![trigger segs[k], input[j]]
                0 <= k < segs.len() && search_start(segs, k, offset) <= j
                    < segs[k].start_marker.start - 1 ==> input[j] != 123u8
        }),
    decreases input.len() - offset,
{
    if offset < input.len() {
        let chunk = input.subrange(offset, input.len() as int);
        match spec_find_segm(chunk, open_brace(), close_brace()) {
            Some(found) => {
                lemma_first_occurrence_some(chunk, open_brace());
                let bp = first_occurrence(chunk, open_brace())->0;
                let reset = bp + 1;
                let shifted = chunk.subrange(reset, chunk.len() as int);
                lemma_first_occurrence_some(shifted, close_brace());
                let cp = first_occurrence(shifted, close_brace())->0;
                assert(found == (reset, reset + cp));
                let seg = spec_segm(offset, found);
                assert forall|j: int| offset <= j < seg.start_marker.start - 1 implies input[j]
                    != 123u8 by {
                    let jj = j - offset;
                    assert(!occurs_at(chunk, open_brace(), jj));
                    assert(chunk.subrange(jj, jj + 1)[0] == chunk[jj]);
                    if input[j] == 123u8 {
                        assert(chunk.subrange(jj, jj + 1) =~= open_brace());
                    }
                }
                let new_offset = offset + found.1 + 1;
                lemma_markup_first_brace(input, new_offset);
                let rest = spec_markup_from(input, new_offset);
                let segs = spec_markup_from(input, offset);
                assert(segs == seq![seg] + rest);
                assert forall|k: int, j: int|
                    #![trigger segs[k], input[j]]
                    0 <= k < segs.len() && search_start(segs, k, offset) <= j
                        < segs[k].start_marker.start - 1 implies input[j] != 123u8 by {
                    if k > 0 {
                        assert(segs[k] == rest[k - 1]);
                        if k > 1 {
                            assert(segs[k - 1] == rest[k - 2]);
                        }
                        assert(search_start(segs, k, offset) == search_start(rest, k - 1, new_offset));
                    }
                }
            },
            None => {},
        }
    }
}

/// No `{tag}` is skipped: the opening `{` of each segment that
/// `parse_jira_markup` reports (the byte before its start marker) is the
/// first `{` of the input at or after the end of the previous segment's end
/// marker (at or after the start of the input for the first segment).
pub proof fn law_markup_no_segment_skipped(input: Seq<u8>)
    requires
        input.len() <= usize::MAX,
    ensures
        ({
            let segs = spec_markup_from(input, 0);
            forall|k: int|
                0 <= k < segs.len() ==> {
                    let open = #[trigger] segs[k].start_marker.start - 1;
                    let from = if k == 0 {
                        0
                    } else {
                        segs[k - 1].end_marker.end as int
                    };
                    &&& from <= open < input.len()
                    &&& input[open] == 123u8
                    &&& forall|j: int| from <= j < open ==> input[j] != 123u8
                }
        }),
{
    lemma_markup_from(input, 0);
    lemma_markup_first_brace(input, 0);
    let segs = spec_markup_from(input, 0);
    assert forall|k: int| 0 <= k < segs.len() implies ({
        let open = #[trigger] segs[k].start_marker.start - 1;
        let from = if k == 0 {
            0
        } else {
            segs[k - 1].end_marker.end as int
        };
        &&& from <= open < input.len()
        &&& input[open] == 123u8
        &&& forall|j: int| from <= j < open ==> input[j] != 123u8
    }) by {
        assert(segm_framed(input, segs[k]));
        if k > 0 {
            assert(segs[k - 1].end_marker.end < segs[k].start_marker.start);
        }
        assert forall|j: int|
            search_start(segs, k, 0) <= j < segs[k].start_marker.start - 1 implies input[j]
            != 123u8 by {}
    }
}

/// Where the search after the last segment of `segs` starts.
pub open spec fn scan_end(segs: Seq<TagSegm>, offset: int) -> int {
    if segs.len() == 0 {
        offset
    } else {
        segs.last().end_marker.end as int
    }
}

proof fn lemma_markup_from_complete(input: Seq<u8>, offset: int)
    requires
        0 <= offset,
        input.len() <= usize::MAX,
    ensures
        ({
            let end = scan_end(spec_markup_from(input, offset), offset);
            end >= input.len() || spec_find_segm(
                input.subrange(end, input.len() as int),
                open_brace(),
                close_brace(),
            ) is None
        }),
    decreases input.len() - offset,
{
    if offset < input.len() {
        let chunk = input.subrange(offset, input.len() as int);
        match spec_find_segm(chunk, open_brace(), close_brace()) {
            Some(found) => {
                law_find_segm_framed(chunk, open_brace(), close_brace());
                let new_offset = offset + found.1 + 1;
                lemma_markup_from_complete(input, new_offset);
                let rest = spec_markup_from(input, new_offset);
                let segs = spec_markup_from(input, offset);
                assert(segs == seq![spec_segm(offset, found)] + rest);
                if rest.len() > 0 {
                    assert(segs.last() == rest.last());
                }
            },
            None => {},
        }
    }
}

/// Every segment that `parse_jira_markup` reports is framed by braces in the
/// input (see `segm_framed`); the segments come in input order without
/// overlap; the text range of each is relative to where its search started,
/// that is to the end of the previous segment (or to the start of the input);
/// and no further segment is left in the input after the last one.
pub proof fn law_markup_segments_framed(input: Seq<u8>)
    requires
        input.len() <= usize::MAX,
    ensures
        ({
            let segs = spec_markup_from(input, 0);
            &&& forall|k: int| 0 <= k < segs.len() ==> segm_framed(input, #[trigger] segs[k])
            &&& segs.len() > 0 ==> segs[0].text.start == segs[0].start_marker.start
            &&& forall|k: int|
                0 <= k < segs.len() - 1 ==> #[trigger] segs[k].end_marker.end < segs[k
                    + 1].start_marker.start && segs[k + 1].text.start == segs[k
                    + 1].start_marker.start - segs[k].end_marker.end
            &&& scan_end(segs, 0) >= input.len() || spec_find_segm(
                input.subrange(scan_end(segs, 0), input.len() as int),
                open_brace(),
                close_brace(),
            ) is None
        }),
{
    lemma_markup_from(input, 0);
    lemma_markup_from_complete(input, 0);
}

/// The characters allowed in base64 data: `A-Z`, `a-z`, `0-9`, `+`, `/`, `=`.
pub open spec fn is_base64_char(c: char) -> bool {
    ||| ('A' <= c && c <= 'Z')
    ||| ('a' <= c && c <= 'z')
    ||| ('0' <= c && c <= '9')
    ||| c == '+'
    ||| c == '/'
    ||| c == '='
}

/// Whether `c` may appear in base64 data.
pub fn is_base64(c: char) -> (ok: bool)
    ensures
        ok == is_base64_char(c),
{
    ('A' <= c && c <= 'Z') || ('a' <= c && c <= 'z') || ('0' <= c && c <= '9') || c == '+' || c
        == '/' || c == '='
}

/// `s` starts with `prefix`.
pub open spec fn starts_with(s: Seq<char>, prefix: Seq<char>) -> bool {
    prefix.len() <= s.len() && s.subrange(0, prefix.len() as int) == prefix
}

/// `i` is the position of the first `;` in `s`.
pub open spec fn is_first_semicolon(s: Seq<char>, i: int) -> bool {
    &&& 0 <= i < s.len()
    &&& s[i] == ';'
    &&& forall|j: int| 0 <= j < i ==> s[j] != ';'
}

/// `i` is the position of the first character of `s` that is not base64.
pub open spec fn is_first_non_base64(s: Seq<char>, i: int) -> bool {
    &&& 0 <= i < s.len()
    &&& !is_base64_char(s[i])
    &&& forall|j: int| 0 <= j < i ==> is_base64_char(s[j])
}

/// An inline image `data:image/<mime>;base64,<data><sep><rest>`: the mime
/// type runs to the first `;`, the data runs to the first character that is
/// not base64 (`<sep>`, which belongs to neither part), and the rest follows.
/// When no such character follows, the data runs to the end and the rest is
/// empty.
pub open spec fn spec_parse_base64_image(s: Seq<char>) -> Option<(Seq<char>, Seq<char>, Seq<char>)> {
    let image = "data:image/"@;
    let base64 = "base64,"@;
    if !starts_with(s, image) {
        None
    } else {
        let s1 = s.skip(image.len() as int);
        if exists|m: int| is_first_semicolon(s1, m) {
            let m = choose|m: int| is_first_semicolon(s1, m);
            let s2 = s1.skip(m + 1);
            if !starts_with(s2, base64) {
                None
            } else {
                let s3 = s2.skip(base64.len() as int);
                if exists|j: int| is_first_non_base64(s3, j) {
                    let j = choose|j: int| is_first_non_base64(s3, j);
                    Some((s1.take(m), s3.take(j), s3.skip(j + 1)))
                } else {
                    Some((s1.take(m), s3, Seq::<char>::empty()))
                }
            }
        }
        else {
            None
        }
    }
}

proof fn lemma_base64_image_found(s: Seq<char>, m: int, j: int)
    requires
        starts_with(s, "data:image/"@),
        "data:image/"@.len() == 11,
        "base64,"@.len() == 7,
        is_first_semicolon(s.skip(11), m),
        starts_with(s.skip(11).skip(m + 1), "base64,"@),
        is_first_non_base64(s.skip(11).skip(m + 1).skip(7), j),
    ensures
        ({
            let s3 = s.skip(11).skip(m + 1).skip(7);
            spec_parse_base64_image(s) == Some((s.skip(11).take(m), s3.take(j), s3.skip(j + 1)))
        }),
{
    let s1 = s.skip(11);
    let mc = choose|m2: int| is_first_semicolon(s1, m2);
    assert(is_first_semicolon(s1, mc));
    if mc < m {
        assert(s1[mc] != ';');
    }
    if m < mc {
        assert(s1[m] != ';');
    }
    let s3 = s1.skip(m + 1).skip(7);
    let jc = choose|j2: int| is_first_non_base64(s3, j2);
    assert(is_first_non_base64(s3, jc));
    if jc < j {
        assert(is_base64_char(s3[jc]));
    }
    if j < jc {
        assert(is_base64_char(s3[j]));
    }
}

proof fn lemma_base64_image_to_end(s: Seq<char>, m: int)
    requires
        starts_with(s, "data:image/"@),
        "data:image/"@.len() == 11,
        "base64,"@.len() == 7,
        is_first_semicolon(s.skip(11), m),
        starts_with(s.skip(11).skip(m + 1), "base64,"@),
        !exists|j: int| #[trigger] is_first_non_base64(s.skip(11).skip(m + 1).skip(7), j),
    ensures
        spec_parse_base64_image(s) == Some(
            (s.skip(11).take(m), s.skip(11).skip(m + 1).skip(7), Seq::<char>::empty()),
        ),
{
    let s1 = s.skip(11);
    let mc = choose|m2: int| is_first_semicolon(s1, m2);
    assert(is_first_semicolon(s1, mc));
    if mc < m {
        assert(s1[mc] != ';');
    }
    if m < mc {
        assert(s1[m] != ';');
    }
}

/// The characters of `s`, in order.
fn chars_of(s: &str) -> (chars: Vec<char>)
    ensures
        chars@ == s@,
{
    broadcast use vstd::string::group_string_axioms;
    let mut chars: Vec<char> = Vec::new();
    let mut it = s.chars();
    assert(vstd::std_specs::iter::IteratorSpec::remaining(&it) == s@);
    loop
        invariant
            chars@ + vstd::std_specs::iter::IteratorSpec::remaining(&it) == s@,
            vstd::std_specs::iter::IteratorSpec::obeys_prophetic_iter_laws(&it),
            vstd::std_specs::iter::IteratorSpec::decrease(&it) is Some,
        decreases vstd::std_specs::iter::IteratorSpec::decrease(&it)->0,
    {
        let ghost before = vstd::std_specs::iter::IteratorSpec::remaining(&it);
        match it.next() {
            Some(c) => {
                assert(chars@.push(c) + vstd::std_specs::iter::IteratorSpec::remaining(&it) =~= chars@ + before);
                chars.push(c);
            },
            None => {
                assert(chars@ + before =~= chars@);
                return chars;
            },
        }
    }
}

/// Whether `chars`, from position `from` on, starts with `prefix`.
fn starts_with_at(chars: &Vec<char>, from: usize, prefix: &str) -> (ok: bool)
    requires
        from <= chars@.len(),
    ensures
        ok == starts_with(chars@.skip(from as int), prefix@),
{
    let n = prefix.unicode_len();
    if n > chars.len() - from {
        return false;
    }
    let mut k: usize = 0;
    while k < n
        invariant
            n == prefix@.len(),
            from + n <= chars@.len(),
            chars@.len() <= usize::MAX,
            k <= n,
            forall|i: int| 0 <= i < k ==> chars@[from + i] == prefix@[i],
        decreases n - k,
    {
        if chars[from + k] != prefix.get_char(k) {
            assert(chars@.skip(from as int).subrange(0, n as int)[k as int] != prefix@[k as int]);
            return false;
        }
        k = k + 1;
    }
    assert(chars@.skip(from as int).subrange(0, n as int) =~= prefix@);
    true
}

/// Splits an inline image `data:image/<mime>;base64,<data>...` into its mime
/// type, its base64 data and the text after the character that ends the
/// data; `None` when `s` is not such an image.
pub fn parse_base64_image(s: &str) -> (parts: Option<(&str, &str, &str)>)
    ensures
        match parts {
            Some((mime, data, rest)) => spec_parse_base64_image(s@) == Some((mime@, data@, rest@)),
            None => spec_parse_base64_image(s@) is None,
        },
{
    let chars = chars_of(s);
    let len = chars.len();
    let image = "data:image/";
    let base64 = "base64,";
    proof {
        reveal_strlit("data:image/");
        reveal_strlit("base64,");
    }
    if !starts_with_at(&chars, 0, image) {
        assert(s@.skip(0) =~= s@);
        return None;
    }
    assert(s@.skip(0) =~= s@);
    let n1: usize = 11;
    let ghost s1 = s@.skip(n1 as int);
    let mut i: usize = n1;
    while i < len && chars[i] != ';'
        invariant
            chars@ == s@,
            len == s@.len(),
            n1 <= i <= len,
            s1 == s@.skip(n1 as int),
            forall|j: int| 0 <= j < i - n1 ==> s1[j] != ';',
        decreases len - i,
    {
        i = i + 1;
    }
    if i == len {
        assert(!exists|m: int| is_first_semicolon(s1, m));
        return None;
    }
    let ghost m = i - n1;
    assert(is_first_semicolon(s1, m));
    let after = i + 1;
    let ghost s2 = s1.skip(m + 1);
    assert(s2 =~= s@.skip(after as int));
    if !starts_with_at(&chars, after, base64) {
        return None;
    }
    let data_start = after + 7;
    let ghost s3 = s2.skip(7);
    assert(s3 =~= s@.skip(data_start as int));
    let mut j: usize = data_start;
    while j < len && is_base64(chars[j])
        invariant
            chars@ == s@,
            len == s@.len(),
            data_start <= j <= len,
            s3 == s@.skip(data_start as int),
            forall|k: int| 0 <= k < j - data_start ==> is_base64_char(s3[k]),
        decreases len - j,
    {
        j = j + 1;
    }
    if j == len {
        assert(!exists|k: int| is_first_non_base64(s3, k));
        proof {
            lemma_base64_image_to_end(s@, m);
        }
        let mime = s.substring_char(n1, i);
        let data = s.substring_char(data_start, len);
        let rest = s.substring_char(len, len);
        assert(mime@ =~= s1.take(m));
        assert(data@ =~= s3);
        assert(rest@ =~= Seq::<char>::empty());
        return Some((mime, data, rest));
    }
    let ghost jj = j - data_start;
    assert(is_first_non_base64(s3, jj));
    proof {
        lemma_base64_image_found(s@, m, jj);
    }
    let mime = s.substring_char(n1, i);
    let data = s.substring_char(data_start, j);
    let rest = s.substring_char(j + 1, len);
    assert(mime@ =~= s1.take(m));
    assert(data@ =~= s3.take(jj));
    assert(rest@ =~= s3.skip(jj + 1));
    Some((mime, data, rest))
}

/// What `find_segm` reports is framed: `begin` occurs first right before the
/// segment, `closing` occurs right at its end, and `closing` occurs nowhere
/// inside it.
pub proof fn law_find_segm_framed(chunk: Seq<u8>, begin: Seq<u8>, closing: Seq<u8>)
    ensures
        spec_find_segm(chunk, begin, closing) matches Some((start, end)) ==> {
            &&& is_first_occurrence(chunk, begin, start - begin.len())
            &&& start <= end
            &&& occurs_at(chunk, closing, end)
            &&& forall|j: int| start <= j < end ==> !occurs_at(chunk, closing, j)
        },
{
    if let Some((start, end)) = spec_find_segm(chunk, begin, closing) {
        lemma_first_occurrence_some(chunk, begin);
        let bp = first_occurrence(chunk, begin)->0;
        let shifted = chunk.subrange(start, chunk.len() as int);
        lemma_first_occurrence_some(shifted, closing);
        let cp = first_occurrence(shifted, closing)->0;
        assert(shifted.subrange(cp, cp + closing.len()) =~= chunk.subrange(end, end + closing.len()));
        assert forall|j: int| start <= j < end implies !occurs_at(chunk, closing, j) by {
            assert(!occurs_at(shifted, closing, j - start));
            if j + closing.len() <= chunk.len() {
                assert(shifted.subrange(j - start, j - start + closing.len()) =~= chunk.subrange(
                    j,
                    j + closing.len(),
                ));
            }
        }
    }
}

proof fn lemma_first_non_base64_exists(s: Seq<char>, i: int)
    requires
        0 <= i < s.len(),
        !is_base64_char(s[i]),
    ensures
        exists|j: int| is_first_non_base64(s, j),
    decreases i,
{
    if forall|k: int| 0 <= k < i ==> is_base64_char(s[k]) {
        assert(is_first_non_base64(s, i));
    } else {
        let k = choose|k: int| 0 <= k < i && !is_base64_char(s[k]);
        lemma_first_non_base64_exists(s, k);
    }
}

/// An image that `parse_base64_image` splits is put back together by its
/// parts: `data:image/`, the mime type (which holds no `;`), `;base64,`, the
/// data (all base64), then either the end of the input (and an empty rest) or
/// one character that is not base64 followed by the rest.
pub proof fn law_base64_image_reassembles(s: Seq<char>)
    ensures
        spec_parse_base64_image(s) matches Some((mime, data, rest)) ==> {
            &&& forall|i: int| 0 <= i < mime.len() ==> mime[i] != ';'
            &&& forall|i: int| 0 <= i < data.len() ==> is_base64_char(#[trigger] data[i])
            &&& {
                ||| (rest.len() == 0 && s == "data:image/"@ + mime + ";"@ + "base64,"@ + data)
                ||| exists|sep: char|
                    !is_base64_char(sep) && s == "data:image/"@ + mime + ";"@ + "base64,"@ + data
                        + seq![sep] + rest
            }
        },
{
    reveal_strlit("data:image/");
    reveal_strlit("base64,");
    reveal_strlit(";");
    if let Some((mime, data, rest)) = spec_parse_base64_image(s) {
        let image = "data:image/"@;
        let base64 = "base64,"@;
        let s1 = s.skip(image.len() as int);
        let m = choose|m: int| is_first_semicolon(s1, m);
        let s2 = s1.skip(m + 1);
        let s3 = s2.skip(base64.len() as int);
        assert(s2 =~= base64 + s3);
        assert(s1 =~= mime + ";"@ + s2);
        assert(s =~= image + s1);
        if exists|j: int| is_first_non_base64(s3, j) {
            let j = choose|j: int| is_first_non_base64(s3, j);
            let sep = s3[j];
            assert(s3 =~= data + seq![sep] + rest);
            assert(s == "data:image/"@ + mime + ";"@ + "base64,"@ + data + seq![sep] + rest);
        } else {
            assert forall|i: int| 0 <= i < data.len() implies is_base64_char(#[trigger] data[i]) by {
                if !is_base64_char(data[i]) {
                    lemma_first_non_base64_exists(s3, i);
                }
            }
            assert(s == "data:image/"@ + mime + ";"@ + "base64,"@ + data);
        }
    }
}

/// An ASCII letter or digit.
pub open spec fn is_ascii_alnum(c: char) -> bool {
    ||| ('A' <= c && c <= 'Z')
    ||| ('a' <= c && c <= 'z')
    ||| ('0' <= c && c <= '9')
}

/// The number of ASCII letters and digits in `s` from position `i` on, up to
/// the first other character.
pub open spec fn alnum_run(s: Seq<char>, i: int) -> nat
    decreases s.len() - i,
{
    if 0 <= i < s.len() && is_ascii_alnum(s[i]) {
        1 + alnum_run(s, i + 1)
    } else {
        0
    }
}

/// The number of base64 characters in `s` from position `i` on, up to the
/// first other character.
pub open spec fn base64_run(s: Seq<char>, i: int) -> nat
    decreases s.len() - i,
{
    if 0 <= i < s.len() && is_base64_char(s[i]) {
        1 + base64_run(s, i + 1)
    } else {
        0
    }
}

/// The inline image `data:image/<type>;base64,<data>` that starts at
/// position `i` of `s`, where `<type>` is one or more ASCII letters and
/// digits and `<data>` one or more base64 characters, each taken as long as
/// it goes: the end of `<type>` and the end of the image.
pub open spec fn image_match_at(s: Seq<char>, i: int) -> Option<(int, int)> {
    let p = i + "data:image/"@.len();
    if 0 <= i <= s.len() && starts_with(s.skip(i), "data:image/"@) {
        let q = p + alnum_run(s, p);
        if q > p && starts_with(s.skip(q), ";base64,"@) {
            let e = q + ";base64,"@.len() + base64_run(s, q + ";base64,"@.len());
            if e > q + ";base64,"@.len() {
                Some((q, e))
            } else {
                None
            }
        } else {
            None
        }
    } else {
        None
    }
}

/// The decimal digit `d`.
pub open spec fn digit_char(d: int) -> char {
    if d == 0 {
        '0'
    } else if d == 1 {
        '1'
    } else if d == 2 {
        '2'
    } else if d == 3 {
        '3'
    } else if d == 4 {
        '4'
    } else if d == 5 {
        '5'
    } else if d == 6 {
        '6'
    } else if d == 7 {
        '7'
    } else if d == 8 {
        '8'
    } else {
        '9'
    }
}

/// `n` written in decimal.
pub open spec fn decimal(n: nat) -> Seq<char>
    decreases n,
{
    if n < 10 {
        seq![digit_char(n as int)]
    } else {
        decimal(n / 10) + seq![digit_char((n % 10) as int)]
    }
}

/// The reference that replaces the `n`-th image (of type `ty`) of ticket
/// `key`: `!<key>_<n>.<ty>!`, the name of the image's file between `!`.
pub open spec fn image_ref(key: Seq<char>, n: nat, ty: Seq<char>) -> Seq<char> {
    "!"@ + key + "_"@ + decimal(n) + "."@ + ty + "!"@
}

/// `s` from position `i` on, with each inline image replaced by its
/// reference, the images numbered on from `k + 1` left to right; the search
/// for the next image starts after the previous one.
pub open spec fn spec_strip_from(s: Seq<char>, key: Seq<char>, i: int, k: nat) -> Seq<char>
    decreases s.len() - i,
{
    if i < 0 || i >= s.len() {
        seq![]
    } else {
        match image_match_at(s, i) {
            Some((q, e)) => if i < e <= s.len() {
                image_ref(key, k + 1, s.subrange(i + "data:image/"@.len(), q)) + spec_strip_from(
                    s,
                    key,
                    e,
                    k + 1,
                )
            } else {
                seq![]
            },
            None => seq![s[i]] + spec_strip_from(s, key, i + 1, k),
        }
    }
}

proof fn lemma_alnum_run(s: Seq<char>, from: int, to: int)
    requires
        0 <= from <= to <= s.len(),
        forall|j: int| from <= j < to ==> is_ascii_alnum(s[j]),
        to == s.len() || !is_ascii_alnum(s[to]),
    ensures
        alnum_run(s, from) == to - from,
    decreases to - from,
{
    if from < to {
        lemma_alnum_run(s, from + 1, to);
    }
}

proof fn lemma_base64_run(s: Seq<char>, from: int, to: int)
    requires
        0 <= from <= to <= s.len(),
        forall|j: int| from <= j < to ==> is_base64_char(s[j]),
        to == s.len() || !is_base64_char(s[to]),
    ensures
        base64_run(s, from) == to - from,
    decreases to - from,
{
    if from < to {
        lemma_base64_run(s, from + 1, to);
    }
}

/// The end of the run of ASCII letters and digits in `chars` from `from` on.
fn alnum_end(chars: &Vec<char>, from: usize) -> (end: usize)
    requires
        from <= chars@.len(),
    ensures
        end == from + alnum_run(chars@, from as int),
        end <= chars@.len(),
{
    let mut j = from;
    while j < chars.len() && (('A' <= chars[j] && chars[j] <= 'Z') || ('a' <= chars[j] && chars[j]
        <= 'z') || ('0' <= chars[j] && chars[j] <= '9'))
        invariant
            from <= j <= chars@.len(),
            forall|k: int| from <= k < j ==> is_ascii_alnum(chars@[k]),
        decreases chars@.len() - j,
    {
        j = j + 1;
    }
    proof {
        lemma_alnum_run(chars@, from as int, j as int);
    }
    j
}

/// The end of the run of base64 characters in `chars` from `from` on.
fn base64_end(chars: &Vec<char>, from: usize) -> (end: usize)
    requires
        from <= chars@.len(),
    ensures
        end == from + base64_run(chars@, from as int),
        end <= chars@.len(),
{
    let mut j = from;
    while j < chars.len() && is_base64(chars[j])
        invariant
            from <= j <= chars@.len(),
            forall|k: int| from <= k < j ==> is_base64_char(chars@[k]),
        decreases chars@.len() - j,
    {
        j = j + 1;
    }
    proof {
        lemma_base64_run(chars@, from as int, j as int);
    }
    j
}

/// The inline image that starts at position `i` of `chars`, if any.
fn match_image_at(chars: &Vec<char>, i: usize) -> (found: Option<(usize, usize)>)
    requires
        i <= chars@.len(),
    ensures
        match found {
            Some((q, e)) => image_match_at(chars@, i as int) == Some((q as int, e as int)),
            None => image_match_at(chars@, i as int) is None,
        },
        found matches Some((q, e)) ==> i + 11 < q < e <= chars@.len(),
{
    proof {
        reveal_strlit("data:image/");
        reveal_strlit(";base64,");
    }
    if !starts_with_at(chars, i, "data:image/") {
        return None;
    }
    assert(chars@.len() == chars.len());
    assert(i + 11 <= chars@.len());
    let p = i + 11;
    let q = alnum_end(chars, p);
    if q == p {
        return None;
    }
    if !starts_with_at(chars, q, ";base64,") {
        return None;
    }
    assert(q + 8 <= chars@.len());
    let d = q + 8;
    let e = base64_end(chars, d);
    if e == d {
        return None;
    }
    Some((q, e))
}

/// The digit `d` as a string.
fn digit_str(d: usize) -> (digit: &'static str)
    requires
        d < 10,
    ensures
        digit@ == seq![digit_char(d as int)],
{
    proof {
        reveal_strlit("0");
        reveal_strlit("1");
        reveal_strlit("2");
        reveal_strlit("3");
        reveal_strlit("4");
        reveal_strlit("5");
        reveal_strlit("6");
        reveal_strlit("7");
        reveal_strlit("8");
        reveal_strlit("9");
    }
    if d == 0 {
        "0"
    } else if d == 1 {
        "1"
    } else if d == 2 {
        "2"
    } else if d == 3 {
        "3"
    } else if d == 4 {
        "4"
    } else if d == 5 {
        "5"
    } else if d == 6 {
        "6"
    } else if d == 7 {
        "7"
    } else if d == 8 {
        "8"
    } else {
        "9"
    }
}

/// `n` written in decimal.
pub fn decimal_string(n: usize) -> (text: String)
    ensures
        text@ == decimal(n as nat),
    decreases n,
{
    if n < 10 {
        digit_str(n).to_owned()
    } else {
        let mut text = decimal_string(n / 10);
        text.append(digit_str(n % 10));
        text
    }
}

/// The content of ticket `ticket_key` with each inline base64 image
/// (`data:image/<type>;base64,<data>`) replaced by a reference to the file
/// the image goes to: the `k`-th image from the left becomes
/// `!<ticket_key>_<k>.<type>!`. Content without an image comes back as it is.
pub fn strip_base64_images(content: &str, ticket_key: &str) -> (stripped: String)
    ensures
        stripped@ == spec_strip_from(content@, ticket_key@, 0, 0),
{
    proof {
        reveal_strlit("data:image/");
        reveal_strlit("!");
        reveal_strlit("_");
        reveal_strlit(".");
    }
    let chars = chars_of(content);
    let len = chars.len();
    let ghost s = content@;
    let ghost key = ticket_key@;
    let mut out = String::new();
    let mut run_start: usize = 0;
    let mut i: usize = 0;
    let mut k: usize = 0;
    assert(s.subrange(0, 0) =~= Seq::<char>::empty());
    assert(out@ + s.subrange(0, 0) + spec_strip_from(s, key, 0, 0) =~= spec_strip_from(s, key, 0, 0));
    while i < len
        invariant
            chars@ == s,
            s == content@,
            key == ticket_key@,
            len == s.len(),
            run_start <= i <= len,
            k <= i,
            "data:image/"@.len() == 11,
            out@ + s.subrange(run_start as int, i as int) + spec_strip_from(s, key, i as int, k as nat)
                == spec_strip_from(s, key, 0, 0),
        decreases len - i,
    {
        match match_image_at(&chars, i) {
            Some((q, e)) => {
                let ghost before = out@;
                let ghost ty = s.subrange(i + 11, q as int);
                assert(spec_strip_from(s, key, i as int, k as nat) == image_ref(key, (k + 1) as nat, ty)
                    + spec_strip_from(s, key, e as int, (k + 1) as nat));
                out.append(content.substring_char(run_start, i));
                k = k + 1;
                out.append("!");
                out.append(ticket_key);
                out.append("_");
                let number = decimal_string(k);
                out.append(number.as_str());
                out.append(".");
                out.append(content.substring_char(i + 11, q));
                out.append("!");
                assert(out@ =~= before + s.subrange(run_start as int, i as int) + image_ref(key, k as nat, ty));
                assert(s.subrange(e as int, e as int) =~= Seq::<char>::empty());
                assert(out@ + s.subrange(e as int, e as int) + spec_strip_from(s, key, e as int, k as nat)
                    =~= before + s.subrange(run_start as int, i as int) + (image_ref(key, k as nat, ty)
                    + spec_strip_from(s, key, e as int, k as nat)));
                run_start = e;
                i = e;
            },
            None => {
                assert(spec_strip_from(s, key, i as int, k as nat) == seq![s[i as int]] + spec_strip_from(
                    s,
                    key,
                    i + 1,
                    k as nat,
                ));
                assert(s.subrange(run_start as int, i + 1) =~= s.subrange(run_start as int, i as int)
                    + seq![s[i as int]]);
                assert(out@ + s.subrange(run_start as int, i + 1) + spec_strip_from(s, key, i + 1, k as nat)
                    =~= out@ + s.subrange(run_start as int, i as int) + (seq![s[i as int]]
                    + spec_strip_from(s, key, i + 1, k as nat)));
                i = i + 1;
            },
        }
    }
    let ghost before = out@;
    out.append(content.substring_char(run_start, len));
    assert(out@ =~= before + s.subrange(run_start as int, len as int) + spec_strip_from(s, key, len as int, k as nat));
    out
}

proof fn lemma_strip_without_images(s: Seq<char>, key: Seq<char>, i: int, k: nat)
    requires
        0 <= i <= s.len(),
        forall|j: int| 0 <= j <= s.len() ==> image_match_at(s, j) is None,
    ensures
        spec_strip_from(s, key, i, k) == s.skip(i),
    decreases s.len() - i,
{
    if i < s.len() {
        assert(image_match_at(s, i) is None);
        lemma_strip_without_images(s, key, i + 1, k);
        assert(s.skip(i) =~= seq![s[i]] + s.skip(i + 1));
    } else {
        assert(s.skip(i) =~= Seq::<char>::empty());
    }
}

/// Content in which no inline image starts anywhere comes back unchanged
/// from `strip_base64_images`.
pub proof fn law_strip_without_images(s: Seq<char>, key: Seq<char>)
    requires
        forall|j: int| 0 <= j <= s.len() ==> image_match_at(s, j) is None,
    ensures
        spec_strip_from(s, key, 0, 0) == s,
{
    lemma_strip_without_images(s, key, 0, 0);
    assert(s.skip(0) =~= s);
}

/// An image split from its parts: for any mime type `m` without `;`, data
/// `d` made of ASCII letters, digits, `+`, `/` and `=`, and a character `c`
/// that is none of those, `data:image/<m>;base64,<d><c><r>` splits into
/// `m`, `d` and `r`; and `data:image/<m>;base64,<d>` (the data running to the
/// end) splits into `m`, `d` and an empty rest.
pub proof fn law_base64_image_splits(m: Seq<char>, d: Seq<char>, c: char, r: Seq<char>)
    requires
        forall|i: int| 0 <= i < m.len() ==> m[i] != ';',
        forall|i: int| 0 <= i < d.len() ==> ('A' <= d[i] && d[i] <= 'Z' || 'a' <= d[i] && d[i] <= 'z' || '0' <= d[i] && d[i] <= '9' || d[i] == '+' || d[i] == '/' || d[i] == '='),
        !('A' <= c && c <= 'Z' || 'a' <= c && c <= 'z' || '0' <= c && c <= '9' || c == '+' || c == '/' || c == '='),
    ensures
        spec_parse_base64_image("data:image/"@ + m + ";"@ + "base64,"@ + d + seq![c] + r) == Some(
            (m, d, r),
        ),
        spec_parse_base64_image("data:image/"@ + m + ";"@ + "base64,"@ + d) == Some(
            (m, d, Seq::<char>::empty()),
        ),
{
    reveal_strlit("data:image/");
    reveal_strlit("base64,");
    reveal_strlit(";");
    let s = "data:image/"@ + m + ";"@ + "base64,"@ + d + seq![c] + r;
    assert(s.subrange(0, 11) =~= "data:image/"@);
    let s1 = s.skip(11);
    assert(s1 =~= m + ";"@ + "base64,"@ + d + seq![c] + r);
    assert forall|j: int| 0 <= j < m.len() implies s1[j] != ';' by {
        assert(s1[j] == m[j]);
    }
    assert(s1[m.len() as int] == ';');
    assert(is_first_semicolon(s1, m.len() as int));
    let s2 = s1.skip(m.len() + 1int);
    assert(s2 =~= "base64,"@ + d + seq![c] + r);
    assert(s2.subrange(0, 7) =~= "base64,"@);
    let s3 = s2.skip(7);
    assert(s3 =~= d + seq![c] + r);
    assert forall|j: int| 0 <= j < d.len() implies is_base64_char(s3[j]) by {
        assert(s3[j] == d[j]);
        let x = d[j];
        assert(('A' <= x && x <= 'Z' || 'a' <= x && x <= 'z' || '0' <= x && x <= '9' || x == '+' || x == '/' || x == '='));
    }
    assert(s3[d.len() as int] == c);
    assert(is_first_non_base64(s3, d.len() as int));
    lemma_base64_image_found(s, m.len() as int, d.len() as int);
    assert(s1.take(m.len() as int) =~= m);
    assert(s3.take(d.len() as int) =~= d);
    assert(s3.skip(d.len() + 1int) =~= r);

    let t = "data:image/"@ + m + ";"@ + "base64,"@ + d;
    assert(t.subrange(0, 11) =~= "data:image/"@);
    let t1 = t.skip(11);
    assert(t1 =~= m + ";"@ + "base64,"@ + d);
    assert forall|j: int| 0 <= j < m.len() implies t1[j] != ';' by {
        assert(t1[j] == m[j]);
    }
    assert(t1[m.len() as int] == ';');
    assert(is_first_semicolon(t1, m.len() as int));
    let t2 = t1.skip(m.len() + 1int);
    assert(t2 =~= "base64,"@ + d);
    assert(t2.subrange(0, 7) =~= "base64,"@);
    let t3 = t2.skip(7);
    assert(t3 =~= d);
    assert(!exists|j: int| #[trigger] is_first_non_base64(t3, j)) by {
        if exists|j: int| #[trigger] is_first_non_base64(t3, j) {
            let j = choose|j: int| #[trigger] is_first_non_base64(t3, j);
            assert(t3[j] == d[j]);
            let x = d[j];
            assert(('A' <= x && x <= 'Z' || 'a' <= x && x <= 'z' || '0' <= x && x <= '9' || x == '+' || x == '/' || x == '='));
        }
    }
    lemma_base64_image_to_end(t, m.len() as int);
    assert(t1.take(m.len() as int) =~= m);
}

proof fn lemma_strip_copies(s: Seq<char>, key: Seq<char>, i: int, n: int, k: nat)
    requires
        0 <= i <= n <= s.len(),
        forall|j: int| i <= j < n ==> image_match_at(s, j) is None,
    ensures
        spec_strip_from(s, key, i, k) == s.subrange(i, n) + spec_strip_from(s, key, n, k),
    decreases n - i,
{
    if i < n {
        assert(image_match_at(s, i) is None);
        lemma_strip_copies(s, key, i + 1, n, k);
        assert(s.subrange(i, n) =~= seq![s[i]] + s.subrange(i + 1, n));
    } else {
        assert(s.subrange(i, n) =~= Seq::<char>::empty());
    }
}

/// The first image is replaced wherever it stands: for content
/// `a + data:image/<t>;base64,<d> + c + r` in which no `data:image/` starts
/// inside `a`, with `t` one or more ASCII letters and digits, `d` one or more
/// base64 characters (ASCII letters, digits, `+`, `/`, `=`) and `c` a
/// character that is not base64, the stripped content starts with
/// `a + !<key>_1.<t>! + c`.
pub proof fn law_strip_first_image(
    a: Seq<char>,
    t: Seq<char>,
    d: Seq<char>,
    c: char,
    r: Seq<char>,
    key: Seq<char>,
)
    requires
        forall|j: int|
            0 <= j < a.len() ==> !(j + 11 <= (a + "data:image/"@ + t + ";base64,"@ + d + seq![c]
                + r).len() && #[trigger] (a + "data:image/"@ + t + ";base64,"@ + d + seq![c]
                + r).subrange(j, j + 11) == "data:image/"@),
        t.len() > 0,
        forall|i: int| 0 <= i < t.len() ==> ('A' <= t[i] && t[i] <= 'Z' || 'a' <= t[i] && t[i] <= 'z' || '0' <= t[i] && t[i] <= '9'),
        d.len() > 0,
        forall|i: int| 0 <= i < d.len() ==> ('A' <= d[i] && d[i] <= 'Z' || 'a' <= d[i] && d[i] <= 'z' || '0' <= d[i] && d[i] <= '9' || d[i] == '+' || d[i] == '/' || d[i] == '='),
        !('A' <= c && c <= 'Z' || 'a' <= c && c <= 'z' || '0' <= c && c <= '9' || c == '+' || c == '/' || c == '='),
    ensures
        ({
            let out = spec_strip_from(a + "data:image/"@ + t + ";base64,"@ + d + seq![c] + r, key, 0, 0);
            let expected = a + "!"@ + key + "_1."@ + t + "!"@ + seq![c];
            expected.len() <= out.len() && out.subrange(0, expected.len() as int) == expected
        }),
{
    reveal_strlit("data:image/");
    reveal_strlit(";base64,");
    reveal_strlit("!");
    reveal_strlit("_");
    reveal_strlit(".");
    reveal_strlit("_1.");
    let s = a + "data:image/"@ + t + ";base64,"@ + d + seq![c] + r;
    let n = a.len() as int;
    assert forall|j: int| 0 <= j < n implies image_match_at(s, j) is None by {
        if j + 11 <= s.len() && s.subrange(j, j + 11) == "data:image/"@ {
            assert(s.subrange(j, j + 11) == s.subrange(j, j + 11));
        }
        if image_match_at(s, j) is Some {
            assert(s.skip(j).subrange(0, 11) =~= s.subrange(j, j + 11));
        }
    }
    lemma_strip_copies(s, key, 0, n, 0);
    assert(s.subrange(0, n) =~= a);
    let p = n + 11;
    let q = p + t.len();
    let e = q + 8 + d.len();
    assert(s.skip(n).subrange(0, 11) =~= "data:image/"@);
    assert forall|j: int| p <= j < q implies is_ascii_alnum(s[j]) by {
        assert(s[j] == t[j - p]);
        let x = t[j - p];
        assert(('A' <= x && x <= 'Z' || 'a' <= x && x <= 'z' || '0' <= x && x <= '9'));
    }
    assert(s[q] == ';');
    lemma_alnum_run(s, p, q);
    assert(s.skip(q).subrange(0, 8) =~= ";base64,"@);
    assert forall|j: int| q + 8 <= j < e implies is_base64_char(s[j]) by {
        assert(s[j] == d[j - q - 8]);
        let x = d[j - q - 8];
        assert(('A' <= x && x <= 'Z' || 'a' <= x && x <= 'z' || '0' <= x && x <= '9' || x == '+' || x == '/' || x == '='));
    }
    assert(s[e] == c);
    lemma_base64_run(s, q + 8, e);
    assert(image_match_at(s, n) == Some((q, e)));
    assert(s.subrange(p, q) =~= t);
    assert(decimal(1) == seq!['1']);
    assert(image_ref(key, 1, t) =~= "!"@ + key + "_1."@ + t + "!"@);
    assert(spec_strip_from(s, key, n, 0) == image_ref(key, 1, t) + spec_strip_from(s, key, e, 1));
    if image_match_at(s, e) is Some {
        assert(starts_with(s.skip(e), "data:image/"@));
        assert(s.skip(e).subrange(0, 11)[0] == s[e]);
        assert("data:image/"@[0] == 'd');
        assert(c == 'd');
    }
    assert(spec_strip_from(s, key, e, 1) == seq![c] + spec_strip_from(s, key, e + 1, 1));
    let out = spec_strip_from(s, key, 0, 0);
    let expected = a + "!"@ + key + "_1."@ + t + "!"@ + seq![c];
    assert(out =~= expected + spec_strip_from(s, key, e + 1, 1));
    assert(out.subrange(0, expected.len() as int) =~= expected);
}

} // verus!
