use strsplit::until_char;
use strsplit::StrSplit;

#[test]
fn test_str_split() {
    let haystack = "hello world";
    let mut iter = StrSplit::new(haystack, " ");
    assert_eq!(iter.next(), Some("hello"));
    assert_eq!(iter.next(), Some("world"));
    assert_eq!(iter.next(), None);
}

#[test]
fn test_longer_string() {
    let haystack = "1 2 3 4 5";
    let mut iter = StrSplit::new(haystack, " ");
    let letters = iter.remaining_segments();
    let expected = vec!["1", "2", "3", "4", "5"];
    assert_eq!(letters, expected);
}

#[test]
fn test_string_with_tail() {
    let haystack = "1 2 3 4 ";
    let mut iter = StrSplit::new(haystack, " ");
    let letters = iter.remaining_segments();
    let expected = vec!["1", "2", "3", "4", ""];
    assert_eq!(letters, expected);
}

#[test]
fn test_empty() {
    let haystack = "";
    let mut iter = StrSplit::new(haystack, " ");
    let letters = iter.remaining_segments();
    let expected: Vec<&str> = vec![];
    assert_eq!(letters, expected);
}

#[test]
fn test_single_delimiter() {
    let haystack = " ";
    let mut iter = StrSplit::new(haystack, " ");
    let letters = iter.remaining_segments();
    let expected: Vec<&str> = vec!["", ""];
    assert_eq!(letters, expected);
}

#[test]
fn test_until_char() {
    let haystack = "hello world";
    let letters = until_char(haystack, ' ');
    assert_eq!(letters, Some("hello"));
}

#[test]
fn test_until_ut8_char() {
    let haystack = "hello\u{df}world";
    let letters = until_char(haystack, '\u{df}');
    assert_eq!(letters, Some("hello"));
}
