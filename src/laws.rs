use vstd::prelude::*;
use vstd::utf8::{
    decode_utf8, decode_utf8_encode_utf8, encode_utf8, encode_utf8_decode_utf8, is_char_boundary,
    valid_utf8, valid_utf8_split,
};

use crate::utf8::lemma_encode_concat;

use crate::layout::{MAX_CAPACITY, MAX_INLINE_LENGTH};
use crate::repr::{
    spliced, capacity_after_room, lemma_pow2_from_at_least, variant_after_room, Repr, Variant,
};

verus! {

/// The content of every valid value is well-formed UTF-8 within
/// `MAX_CAPACITY`: it meets what `from_utf8` requires and is accepted by it.
/// With the contracts of `into_bytes` (the bytes are the content) and
/// `from_utf8` (accepted bytes become the content), `from_utf8(into_bytes(v))`
/// is a value with the content of `v`.
pub proof fn lemma_into_bytes_round_trip(v: Repr)
    requires
        v.wf(),
    ensures
        valid_utf8(v@),
        v@.len() <= MAX_CAPACITY,
{
    v.lemma_len_bound();
}

/// Appending bytes to a value changes its characters as appending the
/// characters to a `String` does: `push`, `push_str` and the `extend`
/// operations, which append `encode_utf8(t)`, give the characters
/// `decode_utf8(old) + t`.
pub proof fn lemma_append_parity(content: Seq<u8>, t: Seq<char>)
    requires
        valid_utf8(content),
    ensures
        decode_utf8(content + encode_utf8(t)) == decode_utf8(content) + t,
{
    let cs = decode_utf8(content);
    decode_utf8_encode_utf8(content);
    lemma_encode_concat(cs, t);
    encode_utf8_decode_utf8(cs + t);
}

/// Replacing the bytes between two character boundaries changes the
/// characters as `String::replace_range` does: `replace_range`, `insert`,
/// `insert_str`, `remove`, `drain` and `truncate`, whose content is
/// `spliced(old, start, end, encode_utf8(t))`, keep the characters before
/// `start`, put `t` in, and keep the characters from `end` on.
pub proof fn lemma_splice_parity(content: Seq<u8>, start: int, end: int, t: Seq<char>)
    requires
        valid_utf8(content),
        0 <= start <= end <= content.len(),
        is_char_boundary(content, start),
        is_char_boundary(content, end),
    ensures
        decode_utf8(spliced(content, start, end, encode_utf8(t))) == decode_utf8(
            content.subrange(0, start),
        ) + t + decode_utf8(content.subrange(end, content.len() as int)),
{
    let head = content.subrange(0, start);
    let tail = content.subrange(end, content.len() as int);
    valid_utf8_split(content, start);
    valid_utf8_split(content, end);
    let a = decode_utf8(head);
    let c = decode_utf8(tail);
    decode_utf8_encode_utf8(head);
    decode_utf8_encode_utf8(tail);
    lemma_encode_concat(a, t);
    lemma_encode_concat(a + t, c);
    encode_utf8_decode_utf8(a + t + c);
}

/// Every operation that writes (push, push_str, insert, insert_str,
/// replace_range, remove, pop, drain, retain, extend, reserve) leaves a value
/// that owns its bytes, so `as_static_str` returns `None` afterwards.
pub proof fn lemma_writes_leave_borrowed(v: Variant, needed: nat)
    ensures
        variant_after_room(v, needed) != Variant::Static,
{
}

/// A heap value stays on the heap through every operation that makes room
/// for its current length or less (pop, truncate, remove, drain, clear, retain),
/// and keeps its allocation: only `shrink_to`, `shrink_to_fit` and `clone`
/// move content back inline.
pub proof fn lemma_heap_stays_heap(cap: nat, len: nat)
    requires
        len <= cap,
    ensures
        variant_after_room(Variant::Heap, len) == Variant::Heap,
        capacity_after_room(Variant::Heap, cap, len) == cap,
{
}

/// Growing out of the inline range gives a heap value with room for what
/// was asked; staying within it keeps an owned value inline.
pub proof fn lemma_room_is_enough(v: Variant, cap: nat, needed: nat)
    requires
        v == Variant::Heap ==> cap > MAX_INLINE_LENGTH,
        needed <= MAX_CAPACITY,
    ensures
        needed <= capacity_after_room(v, cap, needed),
        needed <= MAX_INLINE_LENGTH && v != Variant::Heap ==> variant_after_room(v, needed)
            == Variant::Inline,
        needed > MAX_INLINE_LENGTH ==> variant_after_room(v, needed) == Variant::Heap,
{
    lemma_pow2_from_at_least(1, needed);
}

} // verus!
