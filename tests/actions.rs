use compact_str::actions::to_index;

#[test]
fn test_to_index() {
    let s = "hello world";

    let idx = to_index(s, 5);
    assert_eq!(idx, 5);

    // it should be possible to get str len as an index
    let idx = to_index(s, s.len() as u8);
    assert_eq!(idx, s.len());

    // providing an index greater than the str length, cycles back to the beginning
    let idx = to_index(s, (s.len() + 1) as u8);
    assert_eq!(idx, 0);
}

#[test]
fn to_index_counts_characters_not_bytes() {
    let s = "aéb";
    assert_eq!(to_index(s, 0), 0);
    assert_eq!(to_index(s, 1), 1);
    assert_eq!(to_index(s, 2), 3);
    assert_eq!(to_index(s, 3), 4);
    assert_eq!(to_index(s, 4), 0);
}

#[test]
fn to_index_on_empty_string() {
    assert_eq!(to_index("", 0), 0);
    assert_eq!(to_index("", 200), 0);
}
