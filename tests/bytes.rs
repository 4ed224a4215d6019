use compact_str::repr::{Repr, Variant};
use compact_str::utf8::Utf8Error;

fn one_chunk(bytes: &[u8]) -> Vec<Vec<u8>> {
    vec![bytes.to_vec()]
}

#[test]
fn test_smoke() {
    let word = "hello world";
    let buf = one_chunk(word.as_bytes());

    let repr = Repr::from_utf8_buf(&buf).unwrap();
    assert_eq!(repr.as_str(), word);
}

#[test]
fn test_heap_allocated() {
    let word = "hello, this is a long string which should be heap allocated";
    let buf = one_chunk(word.as_bytes());

    let repr = Repr::from_utf8_buf(&buf).unwrap();
    assert_eq!(repr.as_str(), word);
}

#[test]
fn test_empty() {
    let buf = one_chunk(&[]);

    let repr = Repr::from_utf8_buf(&buf).unwrap();
    assert_eq!(repr.len(), 0);
    assert_eq!(repr.as_str(), "");
}

#[test]
fn test_packed() {
    let packed = "this string is 24 chars!";
    let buf = one_chunk(packed.as_bytes());

    let repr = Repr::from_utf8_buf(&buf).unwrap();
    assert_eq!(repr.as_str(), packed);

    // a packed string stays inline
    assert!(!repr.is_heap_allocated());
}

#[test]
fn test_fuzz_panic() {
    let bytes = &[
        255, 255, 255, 255, 255, 0, 0, 0, 3, 0, 0, 0, 0, 0, 0, 0, 0, 0, 4, 1, 12, 0, 0, 96,
    ];
    let buf = one_chunk(bytes);

    assert!(Repr::from_utf8_buf(&buf).is_err());
}

#[test]
fn test_valid_repr_but_invalid_utf8() {
    let bytes = &[
        0, 0, 0, 0, 0, 0, 0, 0, 0, 0, 0, 0, 0, 0, 0, 0, 0, 0, 0, 0, 0, 0, 0, 192,
    ];
    let buf = one_chunk(bytes);

    assert!(Repr::from_utf8_buf(&buf).is_err());
}

#[test]
fn test_fake_heap_variant() {
    let bytes = &[
        0, 0, 0, 0, 0, 0, 0, 0, 0, 0, 0, 0, 0, 0, 0, 0, 0, 0, 0, 0, 0, 0, 0, 255,
    ];
    let buf = one_chunk(bytes);

    assert!(Repr::from_utf8_buf(&buf).is_err());
}

#[test]
#[should_panic(expected = "Utf8Error")]
fn test_invalid_utf8() {
    let invalid = &[0, 159];
    let buf = one_chunk(invalid);

    Repr::from_utf8_buf(&buf).unwrap();
}

#[test]
fn fake_heap_tag_in_last_chunk_is_kept_as_content() {
    let chunks = vec![vec![0u8; 23], vec![0xFF]];
    let (repr, written) = Repr::collect_buf(&chunks);
    assert_eq!(written, 24);
    assert_eq!(repr.kind(), Variant::Heap);
    assert_eq!(repr.as_slice(), chunks.concat().as_slice());
    assert!(Repr::from_utf8_buf(&chunks).is_err());
}

#[test]
fn length_tag_byte_in_last_position_is_kept_as_content() {
    let mut first = vec![b'a'; 20];
    first.push(b'b');
    let chunks = vec![first, vec![b'c', b'd'], vec![0xC5]];
    let (repr, written) = Repr::collect_buf(&chunks);
    assert_eq!(written, 24);
    assert_eq!(repr.len(), 24);
    assert_eq!(repr.as_slice(), chunks.concat().as_slice());
}

#[test]
fn many_chunks_collect_in_order() {
    let chunks = vec![b"hello".to_vec(), vec![], b", ".to_vec(), b"world".to_vec()];
    let repr = Repr::from_utf8_buf(&chunks).unwrap();
    assert_eq!(repr.as_str(), "hello, world");
    assert_eq!(repr.kind(), Variant::Inline);
}

#[test]
fn packed_chunks_stay_inline() {
    let chunks = vec![b"this string is ".to_vec(), b"24 chars!".to_vec()];
    let repr = Repr::from_utf8_buf(&chunks).unwrap();
    assert_eq!(repr.as_str(), "this string is 24 chars!");
    assert_eq!(repr.kind(), Variant::Inline);
}

#[test]
fn multibyte_character_split_across_chunks() {
    let chunks = vec![vec![b'a', 0xC3], vec![0xA9]];
    let repr = Repr::from_utf8_buf(&chunks).unwrap();
    assert_eq!(repr.as_str(), "aé");
}

#[test]
fn unchecked_ingest_of_valid_bytes() {
    let chunks = vec![b"abc".to_vec(), b"def".to_vec()];
    let repr = Repr::from_utf8_buf_unchecked(&chunks);
    assert_eq!(repr.as_str(), "abcdef");
}

#[test]
fn invalid_utf8_reports_valid_prefix() {
    let buf = one_chunk(&[0, 159]);
    assert!(matches!(Repr::from_utf8_buf(&buf), Err(Utf8Error { valid_up_to: 1 })));
    let chunks = vec![b"ab".to_vec(), vec![0xC3], vec![b'c']];
    assert!(matches!(Repr::from_utf8_buf(&chunks), Err(Utf8Error { valid_up_to: 2 })));
}

#[test]
fn ingest_variants_follow_length() {
    let smoke = Repr::from_utf8_buf(&one_chunk(b"hello world")).unwrap();
    assert_eq!(smoke.kind(), Variant::Inline);
    assert_eq!(smoke.len(), 11);
    let packed = Repr::from_utf8_buf(&one_chunk(b"this string is 24 chars!")).unwrap();
    assert_eq!(packed.kind(), Variant::Inline);
    let long = b"hello, this is a long string which should be heap allocated";
    let heap = Repr::from_utf8_buf(&one_chunk(long)).unwrap();
    assert_eq!(heap.kind(), Variant::Heap);
    assert_eq!(heap.len(), 59);
    let unchecked = Repr::from_utf8_buf_unchecked(&one_chunk(long));
    assert_eq!(unchecked.kind(), Variant::Heap);
}

#[test]
fn empty_ingest_is_inline() {
    let (repr, written) = Repr::collect_buf(&[]);
    assert_eq!(written, 0);
    assert_eq!(repr.kind(), Variant::Inline);
    let (repr, written) = Repr::collect_buf(&one_chunk(&[]));
    assert_eq!(written, 0);
    assert_eq!(repr.kind(), Variant::Inline);
}

#[test]
fn chunking_does_not_change_heapness() {
    let mut bytes = vec![0u8; 23];
    bytes.push(0xFF);
    let whole = vec![bytes.clone()];
    let split = vec![bytes[..10].to_vec(), bytes[10..23].to_vec(), bytes[23..].to_vec()];
    let (a, _) = Repr::collect_buf(&whole);
    let (b, _) = Repr::collect_buf(&split);
    assert_eq!(a.kind(), Variant::Heap);
    assert_eq!(b.kind(), Variant::Heap);
    assert_eq!(a.as_slice(), b.as_slice());
}
