//! Cutting a text into its fragments.

use crate::markers::{
    as_ints, closing_marker, find_occurrences, lemma_closing_marker_bytes, lemma_markers_differ,
    lemma_markers_never_overlap, lemma_occurrences_exact, lemma_opening_marker_bytes, occurrences,
    opening_marker, CLOSING_MARKER, OPENING_MARKER,
};
use vstd::prelude::*;
use vstd::string::*;
use vstd::utf8::*;

verus! {

/// Why a text gives no fragments.
#[derive(Clone, Copy, Debug, PartialEq, Eq, Structural)]
pub enum ExtractError {
    /// The text holds `opening` opening markers and `closing` closing
    /// markers, and the two numbers differ.
    MarkerCountMismatch { opening: usize, closing: usize },
    /// The closing marker that is paired with the opening marker number
    /// `index` has ended before that opening marker begins.
    ReversedPair { index: usize },
}

/// The offsets of the opening markers of a text, in ascending order.
pub open spec fn openings(text: Seq<char>) -> Seq<int> {
    occurrences(encode_utf8(text), opening_marker())
}

/// The offsets of the closing markers of a text, in ascending order.
pub open spec fn closings(text: Seq<char>) -> Seq<int> {
    occurrences(encode_utf8(text), closing_marker())
}

/// The text holds as many opening markers as closing markers.
pub open spec fn counts_agree(text: Seq<char>) -> bool {
    openings(text).len() == closings(text).len()
}

/// Where fragment `i` begins: at the first byte of opening marker `i`.
pub open spec fn fragment_start(text: Seq<char>, i: int) -> int {
    openings(text)[i]
}

/// Where fragment `i` ends: behind the last byte of closing marker `i`.
pub open spec fn fragment_end(text: Seq<char>, i: int) -> int {
    closings(text)[i] + closing_marker().len()
}

/// Fragment `i` does not end before it begins.
pub open spec fn in_order(text: Seq<char>, i: int) -> bool {
    fragment_start(text, i) <= fragment_end(text, i)
}

/// The bytes of fragment `i`: those of the text from the first byte of
/// opening marker `i` to the last byte of closing marker `i`.
pub open spec fn fragment_bytes(text: Seq<char>, i: int) -> Seq<u8> {
    encode_utf8(text).subrange(fragment_start(text, i), fragment_end(text, i))
}

/// Fragment `i` as text.
pub open spec fn fragment(text: Seq<char>, i: int) -> Seq<char> {
    decode_utf8(fragment_bytes(text, i))
}

/// The text can be cut into fragments: it holds as many opening markers as
/// closing markers, and no fragment ends before it begins.
pub open spec fn well_paired(text: Seq<char>) -> bool {
    &&& counts_agree(text)
    &&& forall|i: int| 0 <= i < openings(text).len() ==> #[trigger] in_order(text, i)
}

/// The error that stands for what is wrong with the markers of a text: the
/// two numbers of markers where they differ; else the first fragment that
/// ends before it begins.
pub open spec fn fails_with(text: Seq<char>, error: ExtractError) -> bool {
    match error {
        ExtractError::MarkerCountMismatch { opening, closing } => {
            &&& opening == openings(text).len()
            &&& closing == closings(text).len()
            &&& opening != closing
        },
        ExtractError::ReversedPair { index } => {
            &&& counts_agree(text)
            &&& index < openings(text).len()
            &&& !in_order(text, index as int)
            &&& forall|i: int| 0 <= i < index ==> #[trigger] in_order(text, i)
        },
    }
}

/// The offsets of the opening markers of a text.
pub fn opening_offsets(text: &str) -> (offsets: Vec<usize>)
    ensures
        as_ints(offsets@) == openings(text@),
        forall|i: int|
            0 <= i < offsets@.len() ==> (#[trigger] offsets@[i]) + opening_marker().len()
                <= usize::MAX,
{
    find_occurrences(text.as_bytes(), OPENING_MARKER.as_bytes())
}

/// The offsets of the closing markers of a text.
pub fn closing_offsets(text: &str) -> (offsets: Vec<usize>)
    ensures
        as_ints(offsets@) == closings(text@),
        forall|i: int|
            0 <= i < offsets@.len() ==> (#[trigger] offsets@[i]) + closing_marker().len()
                <= usize::MAX,
{
    find_occurrences(text.as_bytes(), CLOSING_MARKER.as_bytes())
}

/// In well-formed UTF-8 a character ends with every byte below 128.
pub proof fn lemma_boundary_after_ascii(bytes: Seq<u8>, i: int)
    requires
        valid_utf8(bytes),
        0 <= i < bytes.len(),
        bytes[i] <= 0x7f,
    ensures
        is_char_boundary(bytes, i + 1),
    decreases bytes.len(),
{
    let width = length_of_first_scalar(bytes);
    let rest = pop_first_scalar(bytes);
    if i < width {
        assert(is_char_boundary(rest, 0));
    } else {
        lemma_boundary_after_ascii(rest, i - width);
    }
}

/// What lies between two character boundaries of well-formed UTF-8 is
/// well-formed UTF-8, and the first boundary is one of the part before the
/// second, too.
pub proof fn lemma_between_boundaries(bytes: Seq<u8>, start: int, end: int)
    requires
        valid_utf8(bytes),
        0 <= start <= end <= bytes.len(),
        is_char_boundary(bytes, start),
        is_char_boundary(bytes, end),
    ensures
        valid_utf8(bytes.subrange(0, end)),
        is_char_boundary(bytes.subrange(0, end), start),
        valid_utf8(bytes.subrange(start, end)),
{
    let head = bytes.subrange(0, end);
    valid_utf8_split(bytes, end);
    if start < end {
        is_char_boundary_iff_not_is_continuation_byte(bytes, start);
        is_char_boundary_iff_not_is_continuation_byte(head, start);
    } else {
        is_char_boundary_start_end_of_seq(head);
    }
    valid_utf8_split(head, start);
    assert(head.subrange(start, head.len() as int) =~= bytes.subrange(start, end));
}

/// Every marker of a text lies within the text, and a character begins
/// where fragment `i` begins and where it ends.
pub proof fn lemma_fragment_on_boundaries(text: Seq<char>, i: int)
    requires
        counts_agree(text),
        0 <= i < openings(text).len(),
    ensures
        0 <= fragment_start(text, i) <= encode_utf8(text).len(),
        0 <= fragment_end(text, i) <= encode_utf8(text).len(),
        is_char_boundary(encode_utf8(text), fragment_start(text, i)),
        is_char_boundary(encode_utf8(text), fragment_end(text, i)),
{
    let bytes = encode_utf8(text);
    let start = fragment_start(text, i);
    let end = fragment_end(text, i);
    lemma_opening_marker_bytes();
    lemma_closing_marker_bytes();
    lemma_occurrences_exact(bytes, opening_marker());
    lemma_occurrences_exact(bytes, closing_marker());
    encode_utf8_valid_utf8(text);
    is_char_boundary_iff_not_is_continuation_byte(bytes, start);
    lemma_boundary_after_ascii(bytes, end - 1);
}

/// The bytes of a fragment are well-formed UTF-8, and they are the
/// encoding of the fragment as text.
pub proof fn lemma_fragment_is_text(text: Seq<char>, i: int)
    requires
        counts_agree(text),
        0 <= i < openings(text).len(),
        in_order(text, i),
    ensures
        valid_utf8(fragment_bytes(text, i)),
        encode_utf8(fragment(text, i)) == fragment_bytes(text, i),
{
    encode_utf8_valid_utf8(text);
    lemma_fragment_on_boundaries(text, i);
    lemma_between_boundaries(encode_utf8(text), fragment_start(text, i), fragment_end(text, i));
    decode_utf8_encode_utf8(fragment_bytes(text, i));
}

/// A fragment holds its two markers: it begins with the opening marker and
/// ends with the closing marker. The one exception is a closing marker that
/// ends at the very offset at which its opening marker begins: that
/// fragment is empty.
pub proof fn lemma_fragment_holds_its_markers(text: Seq<char>, i: int)
    requires
        counts_agree(text),
        0 <= i < openings(text).len(),
        in_order(text, i),
    ensures
        fragment_bytes(text, i).len() == fragment_end(text, i) - fragment_start(text, i),
        fragment_start(text, i) == fragment_end(text, i) || {
            &&& fragment_bytes(text, i).len() >= opening_marker().len() + closing_marker().len()
            &&& fragment_bytes(text, i).subrange(0, opening_marker().len() as int)
                == opening_marker()
            &&& fragment_bytes(text, i).subrange(
                fragment_bytes(text, i).len() - closing_marker().len(),
                fragment_bytes(text, i).len() as int,
            ) == closing_marker()
        },
{
    let bytes = encode_utf8(text);
    let start = fragment_start(text, i);
    let close = closings(text)[i];
    lemma_opening_marker_bytes();
    lemma_closing_marker_bytes();
    lemma_occurrences_exact(bytes, opening_marker());
    lemma_occurrences_exact(bytes, closing_marker());
    lemma_markers_differ(bytes, start);
    if start < close {
        lemma_markers_never_overlap(bytes, opening_marker(), start, closing_marker(), close);
    } else {
        lemma_markers_never_overlap(bytes, closing_marker(), close, opening_marker(), start);
    }
}

/// What is wrong with the markers of a text is told in one way only: a
/// text that can be cut into fragments fails with no error, and any other
/// text with one error only.
pub proof fn lemma_failure_is_told_once(text: Seq<char>, first: ExtractError, second: ExtractError)
    requires
        fails_with(text, first),
    ensures
        !well_paired(text),
        fails_with(text, second) ==> first == second,
{
    match first {
        ExtractError::MarkerCountMismatch { .. } => {},
        ExtractError::ReversedPair { index } => {
            assert(!in_order(text, index as int));
            if let ExtractError::ReversedPair { index: other } = second {
                if fails_with(text, second) && index != other {
                    assert(!in_order(text, other as int));
                }
            }
        },
    }
}

/// The part of a text between two character boundaries.
fn slice<'a>(text: &'a str, start: usize, end: usize) -> (piece: &'a str)
    requires
        start <= end <= text.spec_bytes().len(),
        is_char_boundary(text.spec_bytes(), start as int),
        is_char_boundary(text.spec_bytes(), end as int),
    ensures
        piece.spec_bytes() == text.spec_bytes().subrange(start as int, end as int),
{
    proof {
        encode_utf8_valid_utf8(text@);
        lemma_between_boundaries(text.spec_bytes(), start as int, end as int);
    }
    let (head, _) = text.split_at(end);
    let (_, piece) = head.split_at(start);
    piece
}

/// `ranges` holds, for each fragment of the text in order, the offset at
/// which it begins and the offset at which it ends.
pub open spec fn is_range_list(ranges: Seq<(usize, usize)>, text: Seq<char>) -> bool {
    &&& ranges.len() == openings(text).len()
    &&& forall|i: int|
        0 <= i < ranges.len() ==> (#[trigger] ranges[i]).0 == fragment_start(text, i) && ranges[i].1
            == fragment_end(text, i)
}

/// Where each fragment of a text begins and ends, in the order in which
/// the fragments begin. Opening marker `i` is paired with closing marker
/// `i`, whatever stands between them.
pub fn fragment_ranges(text: &str) -> (found: Result<Vec<(usize, usize)>, ExtractError>)
    ensures
        found is Ok <==> well_paired(text@),
        match found {
            Ok(ranges) => is_range_list(ranges@, text@),
            Err(error) => fails_with(text@, error),
        },
{
    let starts = opening_offsets(text);
    let closes = closing_offsets(text);
    if starts.len() != closes.len() {
        return Err(
            ExtractError::MarkerCountMismatch { opening: starts.len(), closing: closes.len() },
        );
    }
    let width: usize = CLOSING_MARKER.as_bytes().len();
    let mut ranges: Vec<(usize, usize)> = Vec::new();
    let mut i: usize = 0;
    while i < starts.len()
        invariant
            i <= starts@.len(),
            starts@.len() == openings(text@).len(),
            counts_agree(text@),
            as_ints(starts@) == openings(text@),
            as_ints(closes@) == closings(text@),
            width == closing_marker().len(),
            forall|k: int|
                0 <= k < closes@.len() ==> (#[trigger] closes@[k]) + closing_marker().len()
                    <= usize::MAX,
            ranges@.len() == i,
            forall|k: int| 0 <= k < i ==> #[trigger] in_order(text@, k),
            forall|k: int|
                0 <= k < i ==> (#[trigger] ranges@[k]).0 == fragment_start(text@, k) && ranges@[k].1
                    == fragment_end(text@, k),
        decreases starts@.len() - i,
    {
        let start: usize = starts[i];
        let close: usize = closes[i];
        proof {
            lemma_fragment_on_boundaries(text@, i as int);
        }
        let end: usize = close + width;
        if start > end {
            assert(!in_order(text@, i as int));
            return Err(ExtractError::ReversedPair { index: i });
        }
        ranges.push((start, end));
        i = i + 1;
    }
    Ok(ranges)
}

/// Fragment `i` of a text, cut out between the two offsets at which it
/// begins and ends.
pub(crate) fn fragment_at<'a>(
    text: &'a str,
    Ghost(i): Ghost<int>,
    start: usize,
    end: usize,
) -> (piece: &'a str)
    requires
        counts_agree(text@),
        0 <= i < openings(text@).len(),
        in_order(text@, i),
        start == fragment_start(text@, i),
        end == fragment_end(text@, i),
    ensures
        piece@ == fragment(text@, i),
        encode_utf8(piece@) == fragment_bytes(text@, i),
{
    proof {
        lemma_fragment_on_boundaries(text@, i);
    }
    let piece = slice(text, start, end);
    proof {
        encode_utf8_decode_utf8(piece@);
    }
    piece
}

/// The fragments of a text, in the order in which they begin: each one the
/// part of the text from the first byte of its opening marker to the last
/// byte of its closing marker.
pub fn extract_fragments(text: &str) -> (extracted: Result<Vec<String>, ExtractError>)
    ensures
        extracted is Ok <==> well_paired(text@),
        match extracted {
            Ok(fragments) => {
                &&& fragments@.len() == openings(text@).len()
                &&& forall|i: int|
                    0 <= i < fragments@.len() ==> encode_utf8(#[trigger] fragments@[i]@)
                        == fragment_bytes(text@, i)
                &&& forall|i: int|
                    0 <= i < fragments@.len() ==> #[trigger] fragments@[i]@ == fragment(text@, i)
            },
            Err(error) => fails_with(text@, error),
        },
{
    let ranges = match fragment_ranges(text) {
        Ok(ranges) => ranges,
        Err(error) => {
            return Err(error);
        },
    };
    let mut fragments: Vec<String> = Vec::new();
    let mut i: usize = 0;
    while i < ranges.len()
        invariant
            i <= ranges@.len(),
            well_paired(text@),
            is_range_list(ranges@, text@),
            fragments@.len() == i,
            forall|k: int|
                0 <= k < i ==> encode_utf8(#[trigger] fragments@[k]@) == fragment_bytes(text@, k),
            forall|k: int| 0 <= k < i ==> #[trigger] fragments@[k]@ == fragment(text@, k),
        decreases ranges@.len() - i,
    {
        let (start, end) = ranges[i];
        let piece = fragment_at(text, Ghost(i as int), start, end);
        fragments.push(piece.to_owned());
        i = i + 1;
    }
    Ok(fragments)
}

} // verus!
