use usbscope::search::{occurs_in, prefix_table};

#[test]
fn prefix_table_holds_longest_borders() {
    assert_eq!(prefix_table(b"a"), vec![0]);
    assert_eq!(prefix_table(b"abab"), vec![0, 0, 1, 2]);
    assert_eq!(prefix_table(b"aabaaab"), vec![0, 1, 0, 1, 2, 2, 3]);
    assert_eq!(prefix_table(b"abcd"), vec![0, 0, 0, 0]);
}

fn find(hay: &[u8], start: usize, len: usize, needle: &[u8]) -> bool {
    occurs_in(hay, start, len, needle, &prefix_table(needle))
}

#[test]
fn search_falls_back_along_borders() {
    assert!(find(b"aaaab", 0, 5, b"aaab"));
    assert!(find(b"abababc", 0, 7, b"ababc"));
    assert!(find(b"aabaabaaab", 0, 10, b"aabaaab"));
    assert!(!find(b"aabaabaab", 0, 9, b"aabaaab"));
    assert!(find(b"xyz", 0, 3, b"z"));
    assert!(!find(b"xy", 0, 2, b"xyz"));
}

#[test]
fn search_stays_inside_its_window() {
    let hay = b"hello world";
    assert!(find(hay, 6, 5, b"world"));
    assert!(!find(hay, 6, 4, b"world"));
    assert!(!find(hay, 0, 5, b"o w"));
    assert!(find(hay, 4, 3, b"o w"));
    assert!(!find(hay, 3, 0, b"l"));
}
