use compact_str::layout::{MAX_CAPACITY, MAX_INLINE_LENGTH};
use compact_str::repr::{BoundaryError, Repr, ReserveError, Variant};

fn heap_value(text: &str, capacity: usize) -> Repr {
    let mut v = Repr::with_capacity(capacity).unwrap();
    v.push_str(text);
    v
}

#[test]
fn smoke_inline() {
    let v = Repr::new("hello world");
    assert_eq!(v.kind(), Variant::Inline);
    assert_eq!(v.len(), 11);
    assert_eq!(v.as_str(), "hello world");
}

#[test]
fn packed_is_inline() {
    let v = Repr::new("this string is 24 chars!");
    assert_eq!(v.kind(), Variant::Inline);
    assert_eq!(v.len(), 24);
    assert!(!v.is_heap_allocated());
}

#[test]
fn long_is_heap() {
    let text = "hello, this is a long string which should be heap allocated";
    let v = Repr::new(text);
    assert_eq!(v.kind(), Variant::Heap);
    assert_eq!(v.as_str(), text);
    assert_eq!(v.capacity(), text.len());
}

#[test]
fn empty_value() {
    let v = Repr::new_empty();
    assert!(v.is_empty());
    assert_eq!(v.as_str(), "");
    assert_eq!(v.capacity(), MAX_INLINE_LENGTH);
}

#[test]
fn static_then_mutate() {
    let mut v = Repr::from_static_str("abc");
    assert_eq!(v.as_static_str(), Some("abc"));
    assert_eq!(v.kind(), Variant::Static);
    v.push('!');
    assert_eq!(v.as_static_str(), None);
    assert_eq!(v.as_str(), "abc!");
    assert_eq!(v.kind(), Variant::Inline);
}

#[test]
fn static_long_then_push_goes_to_heap() {
    let text = "a borrowed string that is longer than the inline room";
    let mut v = Repr::from_static_str(text);
    v.push_str("!");
    assert_eq!(v.kind(), Variant::Heap);
    assert_eq!(v.capacity(), text.len() + 1);
    assert_eq!(v.as_static_str(), None);
}

#[test]
fn shrink_heap_to_inline() {
    let mut v = heap_value("xy", 1024);
    assert_eq!(v.kind(), Variant::Heap);
    assert_eq!(v.capacity(), 1024);
    v.shrink_to_fit();
    assert_eq!(v.kind(), Variant::Inline);
    assert_eq!(v.as_str(), "xy");
}

#[test]
fn shrink_keeps_long_content_on_heap() {
    let text = "this content has more than twenty-four bytes";
    let mut v = heap_value(text, 1024);
    v.shrink_to(100);
    assert_eq!(v.kind(), Variant::Heap);
    assert_eq!(v.capacity(), 100);
    v.shrink_to_fit();
    assert_eq!(v.capacity(), text.len());
    assert_eq!(v.as_str(), text);
}

#[test]
fn shrink_to_with_large_minimum_keeps_heap() {
    let mut v = heap_value("xy", 1024);
    v.shrink_to(64);
    assert_eq!(v.kind(), Variant::Heap);
    assert_eq!(v.capacity(), 64);
}

#[test]
fn split_off_static() {
    let mut v = Repr::from_static_str("hello world");
    let tail = v.split_off(5).unwrap();
    assert_eq!(v.as_static_str(), Some("hello"));
    assert_eq!(v.capacity(), 5);
    assert_eq!(tail.as_str(), " world");
}

#[test]
fn split_off_keeps_owned_capacity() {
    let mut v = heap_value("hello world", 100);
    let tail = v.split_off(6).unwrap();
    assert_eq!(v.as_str(), "hello ");
    assert_eq!(v.capacity(), 100);
    assert_eq!(tail.as_str(), "world");

    let mut w = Repr::new("abc");
    assert_eq!(w.split_off(4).err(), None.or(Some(BoundaryError::OutOfBounds)));
    let t = w.split_off(3).unwrap();
    assert_eq!(t.as_str(), "");
    assert_eq!(w.capacity(), MAX_INLINE_LENGTH);
}

#[test]
fn split_off_inside_character_fails() {
    let mut v = Repr::new("aéb");
    assert!(matches!(v.split_off(2), Err(BoundaryError::NotCharBoundary)));
    assert_eq!(v.as_str(), "aéb");
}

#[test]
fn clone_inlines_short_heap_content() {
    let v = heap_value("short", 500);
    let c = v.clone();
    assert_eq!(c.kind(), Variant::Inline);
    assert_eq!(c.as_str(), "short");
    assert_eq!(v.kind(), Variant::Heap);
}

#[test]
fn clone_of_long_heap_is_exact() {
    let text = "this content has more than twenty-four bytes";
    let v = heap_value(text, 500);
    let c = v.clone();
    assert_eq!(c.kind(), Variant::Heap);
    assert_eq!(c.capacity(), text.len());
}

#[test]
fn clone_of_static_borrows() {
    let v = Repr::from_static_str("abc");
    let c = v.clone();
    assert_eq!(c.as_static_str(), Some("abc"));
}

#[test]
fn pop_keeps_heap() {
    let mut v = heap_value("abcdefghijklmnopqrstuvwxyz0123", 40);
    for _ in 0..20 {
        v.pop();
    }
    assert_eq!(v.as_str(), "abcdefghij");
    assert_eq!(v.kind(), Variant::Heap);
    assert_eq!(v.capacity(), 40);
}

#[test]
fn pop_multibyte_and_empty() {
    let mut v = Repr::new("aé");
    assert_eq!(v.pop(), Some('é'));
    assert_eq!(v.as_str(), "a");
    assert_eq!(v.pop(), Some('a'));
    assert_eq!(v.pop(), None);
    assert!(v.is_empty());
}

#[test]
fn truncate_remove_drain_clear_keep_heap() {
    let mut v = heap_value("abcdefghijklmnopqrstuvwxyz0123", 64);
    v.truncate(20).unwrap();
    assert_eq!(v.kind(), Variant::Heap);
    assert_eq!(v.remove(0), Ok('a'));
    assert_eq!(v.kind(), Variant::Heap);
    let gone = v.drain(0, 4).unwrap();
    assert_eq!(gone.as_str(), "bcde");
    assert_eq!(v.as_str(), "fghijklmnopqrst");
    assert_eq!(v.kind(), Variant::Heap);
    assert_eq!(v.capacity(), 64);
    v.clear();
    assert_eq!(v.kind(), Variant::Heap);
    assert_eq!(v.capacity(), 64);
    assert!(v.is_empty());
}

#[test]
fn truncate_rules() {
    let mut v = Repr::new("aéb");
    assert_eq!(v.truncate(2), Err(BoundaryError::NotCharBoundary));
    assert_eq!(v.as_str(), "aéb");
    assert_eq!(v.truncate(10), Ok(()));
    assert_eq!(v.as_str(), "aéb");
    assert_eq!(v.truncate(3), Ok(()));
    assert_eq!(v.as_str(), "aé");
}

#[test]
fn truncate_static_keeps_borrowing() {
    let mut v = Repr::from_static_str("hello world");
    v.truncate(5).unwrap();
    assert_eq!(v.as_static_str(), Some("hello"));
    assert_eq!(v.capacity(), 5);
}

#[test]
fn clear_static_becomes_inline() {
    let mut v = Repr::from_static_str("abc");
    v.clear();
    assert_eq!(v.kind(), Variant::Inline);
    assert!(v.is_empty());
}

#[test]
fn push_encodes_characters() {
    let mut v = Repr::new_empty();
    v.push('é');
    v.push('€');
    v.push('a');
    assert_eq!(v.as_slice(), &[0xC3, 0xA9, 0xE2, 0x82, 0xAC, b'a']);
}

#[test]
fn push_str_grows_past_inline() {
    let mut v = Repr::new("abcdefghijklmnopqrstuvw");
    v.push_str("x");
    assert_eq!(v.kind(), Variant::Inline);
    assert_eq!(v.len(), 24);
    v.push_str("y");
    assert_eq!(v.kind(), Variant::Heap);
    assert_eq!(v.capacity(), 32);
    assert_eq!(v.as_str(), "abcdefghijklmnopqrstuvwxy");
}

#[test]
fn heap_growth_doubles() {
    let mut v = heap_value("0123456789012345678901234567890", 32);
    v.push_str("ab");
    assert_eq!(v.capacity(), 64);
    v.reserve(100).unwrap();
    assert_eq!(v.capacity(), 133);
}

#[test]
fn reserve_rules() {
    let mut v = Repr::new("abc");
    v.reserve(10).unwrap();
    assert_eq!(v.kind(), Variant::Inline);
    v.reserve(30).unwrap();
    assert_eq!(v.kind(), Variant::Heap);
    assert_eq!(v.capacity(), 64);
    assert_eq!(v.as_str(), "abc");
    assert_eq!(v.reserve(usize::MAX), Err(ReserveError::CapacityOverflow));
    assert_eq!(v.as_str(), "abc");
}

#[test]
fn with_capacity_rules() {
    assert_eq!(Repr::with_capacity(10).unwrap().kind(), Variant::Inline);
    let v = Repr::with_capacity(1000).unwrap();
    assert_eq!(v.kind(), Variant::Heap);
    assert_eq!(v.capacity(), 1000);
    assert!(Repr::with_capacity(MAX_CAPACITY + 1).is_err());
}

#[test]
fn replace_range_and_errors() {
    let mut v = Repr::new("hello world");
    v.replace_range(0, 5, "goodbye").unwrap();
    assert_eq!(v.as_str(), "goodbye world");
    assert_eq!(v.replace_range(5, 3, "x"), Err(BoundaryError::OutOfBounds));
    assert_eq!(v.replace_range(0, 50, "x"), Err(BoundaryError::OutOfBounds));
    let mut w = Repr::new("aéb");
    assert_eq!(w.replace_range(0, 2, "x"), Err(BoundaryError::NotCharBoundary));
    assert_eq!(w.as_str(), "aéb");
    w.replace_range(1, 3, "e").unwrap();
    assert_eq!(w.as_str(), "aeb");
}

#[test]
fn insert_and_insert_str() {
    let mut v = Repr::new("ac");
    v.insert(1, 'b').unwrap();
    assert_eq!(v.as_str(), "abc");
    v.insert_str(3, "def").unwrap();
    assert_eq!(v.as_str(), "abcdef");
    assert_eq!(v.insert(7, 'x'), Err(BoundaryError::OutOfBounds));
    let mut w = Repr::new("é");
    assert_eq!(w.insert_str(1, "x"), Err(BoundaryError::NotCharBoundary));
}

#[test]
fn remove_rules() {
    let mut v = Repr::new("aéb");
    assert_eq!(v.remove(2), Err(BoundaryError::NotCharBoundary));
    assert_eq!(v.remove(3), Ok('b'));
    assert_eq!(v.remove(1), Ok('é'));
    assert_eq!(v.as_str(), "a");
    assert_eq!(v.remove(1), Err(BoundaryError::OutOfBounds));
}

#[test]
fn drain_rules() {
    let mut v = Repr::from_static_str("hello world");
    let d = v.drain(5, 11).unwrap();
    assert_eq!(d.as_str(), " world");
    assert_eq!(v.as_str(), "hello");
    assert!(v.drain(3, 1).is_err());
}

#[test]
fn repeat_values() {
    let v = Repr::new("ab");
    let r = v.repeat(3).unwrap();
    assert_eq!(r.as_str(), "ababab");
    assert_eq!(r.kind(), Variant::Inline);
    let long = v.repeat(20).unwrap();
    assert_eq!(long.len(), 40);
    assert_eq!(long.kind(), Variant::Heap);
    assert_eq!(v.repeat(0).unwrap().as_str(), "");
    assert!(v.repeat(usize::MAX).is_err());
}

#[test]
fn into_bytes_round_trip() {
    for text in ["", "hello", "this string is 24 chars!", "a much longer string, kept on the heap"] {
        let v = Repr::new(text);
        let bytes = v.clone().into_bytes();
        assert_eq!(bytes, text.as_bytes());
        let back = Repr::from_utf8(bytes).unwrap();
        assert_eq!(back.as_str(), v.as_str());
    }
}

#[test]
fn from_utf8_rejects_and_returns_bytes() {
    let bad = vec![b'a', 0xFF];
    let r = Repr::from_utf8(bad.clone());
    assert!(matches!(r, Err(ref b) if *b == bad));
}

#[test]
fn zeroize_heap_keeps_capacity() {
    let mut v = heap_value("secret data that lives on the heap", 64);
    v.pop();
    assert_ne!(v.owned_bytes()[0], 0);
    v.zeroize();
    assert!(v.is_empty());
    assert_eq!(v.kind(), Variant::Heap);
    assert_eq!(v.capacity(), 64);
    assert_eq!(v.owned_bytes().len(), 64);
    assert!(v.owned_bytes().iter().all(|b| *b == 0));
}

#[test]
fn zeroize_inline_and_static() {
    let mut v = Repr::new("secret");
    v.truncate(3).unwrap();
    v.zeroize();
    assert!(v.is_empty());
    assert!(v.owned_bytes().iter().all(|b| *b == 0));
    assert_eq!(v.owned_bytes().len(), 23);
    assert_eq!(v.kind(), Variant::Inline);
    let mut s = Repr::from_static_str("borrowed");
    s.zeroize();
    assert!(s.is_empty());
    assert_eq!(s.kind(), Variant::Inline);
}

#[test]
fn content_parity_with_string() {
    let mut control = String::new();
    let mut compact = Repr::new_empty();
    let steps = ["abc", "é€", "a longer piece of text", "", "z"];
    for s in steps {
        control.push_str(s);
        compact.push_str(s);
        assert_eq!(compact.as_str(), control.as_str());
    }
    control.insert_str(3, "XY");
    compact.insert_str(3, "XY").unwrap();
    assert_eq!(compact.as_str(), control.as_str());
    control.replace_range(0..2, "");
    compact.replace_range(0, 2, "").unwrap();
    assert_eq!(compact.as_str(), control.as_str());
    assert_eq!(control.pop(), compact.pop());
    assert_eq!(compact.as_str(), control.as_str());
    assert_eq!(compact.len(), control.len());
}

#[test]
fn extend_chars_and_strs() {
    let mut v = Repr::new("ab");
    v.extend_chars(&['c', 'é', 'd']);
    assert_eq!(v.as_str(), "abcéd");
    v.extend_str(&["xyz", "", " and more text to leave the inline room"]);
    assert_eq!(v.as_str(), "abcédxyz and more text to leave the inline room");
    assert_eq!(v.kind(), Variant::Heap);
    assert_eq!(v.len(), 48);
    assert_eq!(v.capacity(), 64);
}

#[test]
fn extend_on_static_with_nothing_copies_out() {
    let mut v = Repr::from_static_str("abc");
    v.extend_chars(&[]);
    assert_eq!(v.as_str(), "abc");
    assert_eq!(v.kind(), Variant::Inline);
}

#[test]
fn retain_calls_predicate_in_order() {
    let mut v = heap_value("a1b2c3é4", 64);
    let seen = std::cell::RefCell::new(Vec::new());
    v.retain(|c| {
        seen.borrow_mut().push(c);
        !c.is_ascii_digit()
    });
    assert_eq!(v.as_str(), "abcé");
    assert_eq!(*seen.borrow(), vec!['a', '1', 'b', '2', 'c', '3', 'é', '4']);
    assert_eq!(v.kind(), Variant::Heap);
    assert_eq!(v.capacity(), 64);
}

#[test]
fn retain_nothing_and_everything() {
    let mut v = Repr::new("hello");
    v.retain(|_| true);
    assert_eq!(v.as_str(), "hello");
    v.retain(|_| false);
    assert_eq!(v.as_str(), "");
}
