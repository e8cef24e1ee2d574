use pjd_split::markers::{find_occurrences, marker_at, CLOSING_MARKER, OPENING_MARKER};

#[test]
fn markers_are_the_two_tags() {
    assert_eq!(OPENING_MARKER, "<pjd>");
    assert_eq!(CLOSING_MARKER, "</pjd>");
}

#[test]
fn marker_at_an_offset() {
    let text = b"ab<pjd>cd";
    assert!(marker_at(text, b"<pjd>", 2));
    assert!(!marker_at(text, b"<pjd>", 1));
    assert!(!marker_at(text, b"<pjd>", 3));
}

#[test]
fn marker_at_the_end_of_the_text() {
    assert!(marker_at(b"ab<pjd>", b"<pjd>", 2));
    assert!(!marker_at(b"ab<pjd", b"<pjd>", 2));
    assert!(!marker_at(b"ab", b"<pjd>", 5));
    assert!(!marker_at(b"ab", b"<pjd>", usize::MAX));
}

#[test]
fn empty_marker_stands_everywhere() {
    assert!(marker_at(b"ab", b"", 0));
    assert!(marker_at(b"ab", b"", 2));
    assert!(!marker_at(b"ab", b"", 3));
    assert_eq!(find_occurrences(b"ab", b""), vec![0, 1, 2]);
    assert_eq!(find_occurrences(b"", b""), vec![0]);
}

#[test]
fn no_occurrence_in_an_empty_text() {
    assert_eq!(find_occurrences(b"", b"<pjd>"), Vec::<usize>::new());
}

#[test]
fn no_occurrence_of_a_marker_longer_than_the_text() {
    assert_eq!(find_occurrences(b"<pj", b"<pjd>"), Vec::<usize>::new());
}

#[test]
fn occurrences_in_ascending_order() {
    let text = b"<pjd>a</pjd> <pjd>b</pjd>";
    assert_eq!(find_occurrences(text, b"<pjd>"), vec![0, 13]);
    assert_eq!(find_occurrences(text, b"</pjd>"), vec![6, 19]);
}

#[test]
fn occurrence_at_the_very_end() {
    assert_eq!(find_occurrences(b"xx<pjd>", b"<pjd>"), vec![2]);
}

#[test]
fn the_whole_text_is_one_occurrence() {
    assert_eq!(find_occurrences(b"<pjd>", b"<pjd>"), vec![0]);
}

#[test]
fn overlapping_occurrences_are_all_listed() {
    assert_eq!(find_occurrences(b"aaaa", b"aa"), vec![0, 1, 2]);
}

#[test]
fn same_occurrences_as_a_search_from_the_left() {
    let text = "x<pjd><pjd></pjd>y</pjd><pjd";
    let opening: Vec<usize> = text.match_indices(OPENING_MARKER).map(|found| found.0).collect();
    let closing: Vec<usize> = text.match_indices(CLOSING_MARKER).map(|found| found.0).collect();
    assert_eq!(find_occurrences(text.as_bytes(), OPENING_MARKER.as_bytes()), opening);
    assert_eq!(find_occurrences(text.as_bytes(), CLOSING_MARKER.as_bytes()), closing);
}
