use strsplit::until_char;
use strsplit::StrSplit;

#[test]
fn reconstruction_concrete() {
    let haystack = "ab--cd--ef";
    let delimiter = "--";
    let mut iter = StrSplit::new(haystack, delimiter);
    let segments = iter.remaining_segments();
    assert_eq!(segments, vec!["ab", "cd", "ef"]);
    let rebuilt = segments.join(delimiter);
    assert_eq!(rebuilt, haystack);
}

#[test]
fn exhaustion_is_sticky() {
    let mut iter = StrSplit::new("a b", " ");
    assert_eq!(iter.next(), Some("a"));
    assert_eq!(iter.next(), Some("b"));
    assert_eq!(iter.next(), None);
    assert_eq!(iter.next(), None);
    assert_eq!(iter.next(), None);
}

#[test]
fn leading_delimiter_yields_leading_empty_segment() {
    let mut iter = StrSplit::new(" a", " ");
    let segments = iter.remaining_segments();
    assert_eq!(segments, vec!["", "a"]);
}

#[test]
fn adjacent_delimiters_yield_empty_segment_between() {
    let mut iter = StrSplit::new("a  b", " ");
    let segments = iter.remaining_segments();
    assert_eq!(segments, vec!["a", "", "b"]);
}

#[test]
fn delimiter_absent_yields_whole_text() {
    let mut iter = StrSplit::new("abc", " ");
    assert_eq!(iter.next(), Some("abc"));
    assert_eq!(iter.next(), None);
}

#[test]
fn multi_char_literal_delimiter() {
    let mut iter = StrSplit::new("one, two, three", ", ");
    let segments = iter.remaining_segments();
    assert_eq!(segments, vec!["one", "two", "three"]);
}

#[test]
fn multi_byte_literal_delimiter() {
    let mut iter = StrSplit::new("x\u{df}y\u{df}z", "\u{df}");
    let segments = iter.remaining_segments();
    assert_eq!(segments, vec!["x", "y", "z"]);
}

#[test]
fn char_delimiter_by_pulls() {
    let mut iter = StrSplit::new("a,b,c", ',');
    assert_eq!(iter.next(), Some("a"));
    assert_eq!(iter.next(), Some("b"));
    assert_eq!(iter.next(), Some("c"));
    assert_eq!(iter.next(), None);
}

#[test]
fn multi_byte_char_delimiter_segments() {
    let mut iter = StrSplit::new("ab\u{e9}cd\u{e9}", '\u{e9}');
    let segments = iter.remaining_segments();
    assert_eq!(segments, vec!["ab", "cd", ""]);
}

#[test]
fn until_char_empty_source() {
    assert_eq!(until_char("", 'x'), None);
}

#[test]
fn until_char_absent_delimiter() {
    assert_eq!(until_char("abc", 'x'), Some("abc"));
}

#[test]
fn until_char_at_start() {
    assert_eq!(until_char(" abc", ' '), Some(""));
}

#[test]
fn until_char_four_byte_code_point() {
    let haystack = "ab\u{1f600}cd";
    assert_eq!(until_char(haystack, '\u{1f600}'), Some("ab"));
}

#[test]
fn segments_are_views_into_source() {
    let haystack = String::from("left right");
    let mut iter = StrSplit::new(haystack.as_str(), " ");
    let first = iter.next().unwrap();
    assert_eq!(first.as_ptr(), haystack.as_ptr());
    assert_eq!(first.len(), 4);
}
