//! Where the two markers stand in a text.

use vstd::prelude::*;
use vstd::utf8::*;

verus! {

/// The marker that opens a fragment.
pub const OPENING_MARKER: &'static str = "<pjd>";

/// The marker that closes a fragment.
pub const CLOSING_MARKER: &'static str = "</pjd>";

/// The bytes of the opening marker.
pub open spec fn opening_marker() -> Seq<u8> {
    encode_utf8("<pjd>"@)
}

/// The bytes of the closing marker.
pub open spec fn closing_marker() -> Seq<u8> {
    encode_utf8("</pjd>"@)
}

/// The marker stands in the text at byte offset `at`, byte for byte.
pub open spec fn occurs_at(text: Seq<u8>, marker: Seq<u8>, at: int) -> bool {
    &&& 0 <= at
    &&& at + marker.len() <= text.len()
    &&& text.subrange(at, at + marker.len()) == marker
}

/// The offsets below `end` at which the marker stands in the text, in
/// ascending order.
pub open spec fn occurrences_below(text: Seq<u8>, marker: Seq<u8>, end: nat) -> Seq<int>
    decreases end,
{
    if end == 0 {
        Seq::empty()
    } else {
        let earlier = occurrences_below(text, marker, (end - 1) as nat);
        if occurs_at(text, marker, end - 1) {
            earlier.push(end - 1)
        } else {
            earlier
        }
    }
}

/// Every offset at which the marker stands in the text, in ascending order.
pub open spec fn occurrences(text: Seq<u8>, marker: Seq<u8>) -> Seq<int> {
    occurrences_below(text, marker, text.len() + 1)
}

/// Offsets as mathematical integers.
pub open spec fn as_ints(offsets: Seq<usize>) -> Seq<int> {
    offsets.map_values(|p: usize| p as int)
}

/// Whether the marker stands in the text at offset `at`.
pub fn marker_at(text: &[u8], marker: &[u8], at: usize) -> (found: bool)
    ensures
        found == occurs_at(text@, marker@, at as int),
{
    if marker.len() > text.len() || at > text.len() - marker.len() {
        return false;
    }
    let mut k: usize = 0;
    while k < marker.len()
        invariant
            k <= marker.len(),
            at + marker.len() <= text.len(),
            text@.subrange(at as int, at + k) == marker@.subrange(0, k as int),
        decreases marker.len() - k,
    {
        if text[at + k] != marker[k] {
            return false;
        }
        k = k + 1;
    }
    assert(marker@.subrange(0, marker@.len() as int) =~= marker@);
    true
}

/// Every offset at which the marker stands in the text, in ascending order,
/// whether or not two of the occurrences overlap.
pub fn find_occurrences(text: &[u8], marker: &[u8]) -> (offsets: Vec<usize>)
    ensures
        as_ints(offsets@) == occurrences(text@, marker@),
        forall|i: int|
            0 <= i < offsets@.len() ==> (#[trigger] offsets@[i]) + marker@.len() <= usize::MAX,
{
    let mut offsets: Vec<usize> = Vec::new();
    if marker.len() > text.len() {
        proof {
            lemma_none_when_longer(text@, marker@, text@.len() + 1);
        }
        return offsets;
    }
    let last: usize = text.len() - marker.len();
    let mut at: usize = 0;
    loop
        invariant_except_break
            at <= last,
            as_ints(offsets@) == occurrences_below(text@, marker@, at as nat),
        invariant
            last == text.len() - marker.len(),
            forall|i: int| 0 <= i < offsets@.len() ==> #[trigger] offsets@[i] <= last,
        ensures
            as_ints(offsets@) == occurrences_below(text@, marker@, (last + 1) as nat),
        decreases last - at,
    {
        if marker_at(text, marker, at) {
            offsets.push(at);
        }
        if at == last {
            break;
        }
        at = at + 1;
    }
    proof {
        lemma_none_past_the_end(text@, marker@, (last + 1) as nat, text@.len() + 1);
    }
    offsets
}

/// A marker longer than the text stands nowhere in it.
proof fn lemma_none_when_longer(text: Seq<u8>, marker: Seq<u8>, end: nat)
    requires
        marker.len() > text.len(),
    ensures
        occurrences_below(text, marker, end) == Seq::<int>::empty(),
    decreases end,
{
    if end > 0 {
        lemma_none_when_longer(text, marker, (end - 1) as nat);
    }
}

/// No marker starts so late that it would run past the end of the text.
proof fn lemma_none_past_the_end(text: Seq<u8>, marker: Seq<u8>, from: nat, end: nat)
    requires
        from + marker.len() > text.len(),
        from <= end,
    ensures
        occurrences_below(text, marker, end) == occurrences_below(text, marker, from),
    decreases end,
{
    if end > from {
        lemma_none_past_the_end(text, marker, from, (end - 1) as nat);
    }
}

/// The opening marker, byte by byte.
pub proof fn lemma_opening_marker_bytes()
    ensures
        opening_marker() == seq![0x3cu8, 0x70u8, 0x6au8, 0x64u8, 0x3eu8],
{
    reveal_strlit("<pjd>");
    is_ascii_chars_encode_utf8("<pjd>"@);
}

/// The closing marker, byte by byte.
pub proof fn lemma_closing_marker_bytes()
    ensures
        closing_marker() == seq![0x3cu8, 0x2fu8, 0x70u8, 0x6au8, 0x64u8, 0x3eu8],
{
    reveal_strlit("</pjd>");
    is_ascii_chars_encode_utf8("</pjd>"@);
}

/// The offsets below `end` are listed exactly: in ascending order, each one
/// an offset at which the marker stands, and none of those left out.
proof fn lemma_occurrences_below_exact(text: Seq<u8>, marker: Seq<u8>, end: nat)
    ensures
        forall|i: int|
            0 <= i < occurrences_below(text, marker, end).len() ==> {
                &&& 0 <= #[trigger] occurrences_below(text, marker, end)[i] < end
                &&& occurs_at(text, marker, occurrences_below(text, marker, end)[i])
            },
        forall|i: int, j: int|
            0 <= i < j < occurrences_below(text, marker, end).len() ==> occurrences_below(
                text,
                marker,
                end,
            )[i] < occurrences_below(text, marker, end)[j],
        forall|at: int|
            0 <= at < end && occurs_at(text, marker, at) ==> occurrences_below(
                text,
                marker,
                end,
            ).contains(at),
    decreases end,
{
    if end > 0 {
        let earlier = occurrences_below(text, marker, (end - 1) as nat);
        let all = occurrences_below(text, marker, end);
        lemma_occurrences_below_exact(text, marker, (end - 1) as nat);
        assert forall|at: int| 0 <= at < end && occurs_at(text, marker, at) implies all.contains(
            at,
        ) by {
            if at < end - 1 {
                let i = choose|i: int| 0 <= i < earlier.len() && earlier[i] == at;
                assert(all[i] == at);
            } else {
                assert(all[all.len() - 1] == at);
            }
        }
    }
}

/// The list of occurrences is exact: it is in ascending order, the marker
/// stands at each of its offsets, and it holds every offset at which the
/// marker stands.
pub proof fn lemma_occurrences_exact(text: Seq<u8>, marker: Seq<u8>)
    ensures
        forall|i: int|
            0 <= i < occurrences(text, marker).len() ==> occurs_at(
                text,
                marker,
                #[trigger] occurrences(text, marker)[i],
            ),
        forall|i: int, j: int|
            0 <= i < j < occurrences(text, marker).len() ==> occurrences(text, marker)[i]
                < occurrences(text, marker)[j],
        forall|at: int|
            occurs_at(text, marker, at) ==> occurrences(text, marker).contains(at),
{
    lemma_occurrences_below_exact(text, marker, text.len() + 1);
}

/// Markers never overlap: where one of the two markers stands at `first`
/// and one stands at a later offset `second`, the first has ended before the
/// second begins.
pub proof fn lemma_markers_never_overlap(
    text: Seq<u8>,
    first_marker: Seq<u8>,
    first: int,
    second_marker: Seq<u8>,
    second: int,
)
    requires
        first_marker == opening_marker() || first_marker == closing_marker(),
        second_marker == opening_marker() || second_marker == closing_marker(),
        occurs_at(text, first_marker, first),
        occurs_at(text, second_marker, second),
        first < second,
    ensures
        first + first_marker.len() <= second,
{
    lemma_opening_marker_bytes();
    lemma_closing_marker_bytes();
    if second < first + first_marker.len() {
        // The second marker would begin, with `<`, inside the first one,
        // which holds no `<` but at its own beginning.
        assert(text.subrange(first, first + first_marker.len())[second - first] == text[second]);
        assert(text.subrange(second, second + second_marker.len())[0] == text[second]);
    }
}

/// The two markers never stand at the same offset.
pub proof fn lemma_markers_differ(text: Seq<u8>, at: int)
    ensures
        !(occurs_at(text, opening_marker(), at) && occurs_at(text, closing_marker(), at)),
{
    lemma_opening_marker_bytes();
    lemma_closing_marker_bytes();
    if occurs_at(text, opening_marker(), at) && occurs_at(text, closing_marker(), at) {
        // The byte after `<` would be both `p` and `/`.
        assert(text.subrange(at, at + opening_marker().len())[1] == text[at + 1]);
        assert(text.subrange(at, at + closing_marker().len())[1] == text[at + 1]);
    }
}

} // verus!
