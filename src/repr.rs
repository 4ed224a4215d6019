use vstd::prelude::*;
use vstd::arithmetic::div_mod::{lemma_fundamental_div_mod, lemma_mod_pos_bound};
use vstd::slice::{slice_subrange, slice_to_vec};
use vstd::string::{StrSliceExecFns, StringSliceAdditionalSpecFns};
use vstd::utf8::{
    decode_utf8, encode_utf8, encode_utf8_decode_utf8, encode_utf8_first_scalar,
    encode_scalar, encode_utf8_valid_utf8,
    is_char_boundary, is_char_boundary_iff_not_is_continuation_byte,
    is_char_boundary_start_end_of_seq, is_continuation_byte, is_leading_byte_width_1, valid_utf8,
    valid_utf8_concat, valid_utf8_last, valid_utf8_split,
};

use crate::utf8::{
    check_utf8, encode_char, lemma_empty_valid, lemma_encode_concat,
};
use crate::layout::{
    is_length_tag, HEAP_MASK, LENGTH_MASK, MAX_CAPACITY, MAX_INLINE_LENGTH, MAX_SIZE,
    STATIC_MASK,
};

verus! {

/// The three storage strategies of a `Repr`.
#[derive(Clone, Copy, Debug, PartialEq, Eq, Structural)]
pub enum Variant {
    Inline,
    Heap,
    Static,
}

/// A UTF-8 string that keeps short content inline, longer content in an owned
/// buffer, and `'static` content borrowed.
///
/// `buf` is the fixed `MAX_SIZE`-byte region of the value. Its last byte is the
/// discriminator: `HEAP_MASK` for the heap variant, `STATIC_MASK` for the
/// borrowed one, and otherwise the value is inline: a byte below `LENGTH_MASK`
/// is the last content byte of a packed `MAX_SIZE`-byte string, and
/// `LENGTH_MASK | len` marks a shorter one.
/// For the heap variant `heap` is the whole allocation (its length is the
/// capacity) and `heap_len` the number of bytes in use.
pub struct Repr {
    buf: Vec<u8>,
    heap: Vec<u8>,
    heap_len: usize,
    borrowed: &'static str,
}

/// Returned when an index is past the end or inside a character.
#[derive(Clone, Copy, Debug, PartialEq, Eq, Structural)]
pub enum BoundaryError {
    OutOfBounds,
    NotCharBoundary,
}

/// Returned when a capacity beyond `MAX_CAPACITY` is asked for.
#[derive(Clone, Copy, Debug, PartialEq, Eq, Structural)]
pub enum ReserveError {
    CapacityOverflow,
}

/// Capacity after growing an allocation of `old` bytes so that `needed` fit:
/// at least double, clamped to `MAX_CAPACITY`.
pub open spec fn grown_capacity(old: nat, needed: nat) -> nat {
    let doubled = 2 * old;
    let want = if needed > doubled { needed } else { doubled };
    if want > MAX_CAPACITY { MAX_CAPACITY as nat } else { want }
}

/// A byte that can end well-formed UTF-8: anything below `LENGTH_MASK`.
pub proof fn lemma_last_byte_below_length_mask(b: Seq<u8>)
    requires
        valid_utf8(b),
        b.len() > 0,
    ensures
        b.last() < LENGTH_MASK,
{
    valid_utf8_last(b);
    assert(is_continuation_byte(b.last()) || is_leading_byte_width_1(b.last()));
}

/// The capacity limit leaves room for every inline length.
pub proof fn lemma_max_capacity_bound()
    ensures
        MAX_CAPACITY >= 0xFF_FFFF,
{
    assert(usize::MAX >= 0xFFFF_FFFF);
}

impl View for Repr {
    type V = Seq<u8>;

    /// The content bytes.
    closed spec fn view(&self) -> Seq<u8> {
        match self.variant() {
            Variant::Inline => self.buf@.subrange(0, self.inline_len() as int),
            Variant::Heap => self.heap@.subrange(0, self.heap_len as int),
            Variant::Static => self.borrowed.spec_bytes(),
        }
    }
}

impl Repr {
    /// The discriminator byte.
    pub closed spec fn tag(&self) -> u8 {
        self.buf@[MAX_SIZE - 1]
    }

    /// The variant, read from the discriminator byte alone.
    pub closed spec fn variant(&self) -> Variant {
        if self.tag() == HEAP_MASK {
            Variant::Heap
        } else if self.tag() == STATIC_MASK {
            Variant::Static
        } else {
            Variant::Inline
        }
    }

    closed spec fn inline_len(&self) -> nat {
        if is_length_tag(self.tag()) {
            (self.tag() - LENGTH_MASK) as nat
        } else {
            MAX_SIZE as nat
        }
    }

    /// Bytes the value can hold without a new allocation.
    pub closed spec fn spec_capacity(&self) -> nat {
        match self.variant() {
            Variant::Inline => MAX_INLINE_LENGTH as nat,
            Variant::Heap => self.heap@.len(),
            Variant::Static => self.borrowed.spec_bytes().len(),
        }
    }

    /// The value decodes as one variant whose content is where it says.
    /// Inline: a discriminator that is a length tag or a byte below
    /// `LENGTH_MASK`, and zeros after the content. Heap: the length fits the
    /// allocation, which fits `MAX_CAPACITY`. Borrowed: the length fits
    /// `MAX_CAPACITY`.
    pub closed spec fn well_classified(&self) -> bool {
        &&& self.buf@.len() == MAX_SIZE
        &&& match self.variant() {
            Variant::Inline => {
                &&& (is_length_tag(self.tag()) || self.tag() < LENGTH_MASK)
                &&& forall|i: int|
                    self.inline_len() <= i < MAX_SIZE - 1 ==> #[trigger] self.buf@[i] == 0
            },
            Variant::Heap => self.heap_len <= self.heap@.len() <= MAX_CAPACITY,
            Variant::Static => self.borrowed.spec_bytes().len() <= MAX_CAPACITY,
        }
    }

    /// The content of a well-classified value fits `MAX_CAPACITY`, an owned
    /// value's content fits its capacity, and a heap capacity fits
    /// `MAX_CAPACITY`.
    pub proof fn lemma_len_bound(&self)
        requires
            self.well_classified(),
        ensures
            self@.len() <= MAX_CAPACITY,
            self.variant() == Variant::Heap ==> self.spec_capacity() <= MAX_CAPACITY,
            self.variant() != Variant::Static ==> self@.len() <= self.spec_capacity(),
    {
        lemma_max_capacity_bound();
    }

    /// A packed inline value ends in a byte below `LENGTH_MASK`.
    pub proof fn lemma_packed_last(&self)
        requires
            self.well_classified(),
            self.variant() == Variant::Inline,
            self@.len() == MAX_SIZE,
        ensures
            self@.last() < LENGTH_MASK,
    {
    }

    /// Well classified, with well-formed UTF-8 content.
    pub open spec fn wf(&self) -> bool {
        self.well_classified() && valid_utf8(self@)
    }

    /// An inline value holding `bytes`.
    fn inline_from(bytes: &[u8]) -> (r: Repr)
        requires
            bytes@.len() <= MAX_SIZE,
            bytes@.len() == MAX_SIZE ==> bytes@.last() < LENGTH_MASK,
        ensures
            r.well_classified(),
            r@ == bytes@,
            r.variant() == Variant::Inline,
    {
        let n = bytes.len();
        let mut buf: Vec<u8> = vec![0u8; MAX_SIZE];
        let mut i: usize = 0;
        while i < n
            invariant
                n == bytes@.len() <= MAX_SIZE,
                buf@.len() == MAX_SIZE,
                i <= n,
                forall|j: int| 0 <= j < i ==> buf@[j] == bytes@[j],
                forall|j: int| i <= j < MAX_SIZE ==> buf@[j] == 0,
            decreases n - i,
        {
            buf.set(i, bytes[i]);
            i = i + 1;
        }
        if n < MAX_SIZE {
            buf.set(MAX_SIZE - 1, LENGTH_MASK + n as u8);
        }
        let r = Repr { buf, heap: Vec::new(), heap_len: 0, borrowed: "" };
        assert(r@ =~= bytes@);
        r
    }

    /// A heap value holding `bytes` in an allocation of `cap` bytes.
    fn heap_from(bytes: &[u8], cap: usize) -> (r: Repr)
        requires
            bytes@.len() <= cap <= MAX_CAPACITY,
        ensures
            r.well_classified(),
            r@ == bytes@,
            r.variant() == Variant::Heap,
            r.spec_capacity() == cap,
    {
        let n = bytes.len();
        let mut heap: Vec<u8> = vec![0u8; cap];
        let mut i: usize = 0;
        while i < n
            invariant
                n == bytes@.len() <= cap,
                heap@.len() == cap,
                i <= n,
                forall|j: int| 0 <= j < i ==> heap@[j] == bytes@[j],
            decreases n - i,
        {
            heap.set(i, bytes[i]);
            i = i + 1;
        }
        let mut buf: Vec<u8> = vec![0u8; MAX_SIZE];
        buf.set(MAX_SIZE - 1, HEAP_MASK);
        let r = Repr { buf, heap, heap_len: n, borrowed: "" };
        assert(r@ =~= bytes@);
        r
    }

    /// The empty string, inline.
    pub fn new_empty() -> (r: Repr)
        ensures
            r.wf(),
            r@ == Seq::<u8>::empty(),
            r.variant() == Variant::Inline,
    {
        let v: Vec<u8> = Vec::new();
        let r = Repr::inline_from(v.as_slice());
        assert(valid_utf8(Seq::<u8>::empty())) by {
            encode_utf8_valid_utf8(Seq::<char>::empty());
            assert(encode_utf8(Seq::<char>::empty()) =~= Seq::<u8>::empty());
        }
        r
    }

    /// A copy of `text`: inline when it fits in `MAX_INLINE_LENGTH` bytes,
    /// else on the heap with capacity equal to its length.
    pub fn new(text: &str) -> (r: Repr)
        requires
            text.spec_bytes().len() <= MAX_CAPACITY,
        ensures
            r.wf(),
            r@ == text.spec_bytes(),
            r.variant() == if text.spec_bytes().len() <= MAX_INLINE_LENGTH {
                Variant::Inline
            } else {
                Variant::Heap
            },
    {
        let bytes = text.as_bytes();
        proof {
            encode_utf8_valid_utf8(text@);
            if bytes@.len() > 0 {
                lemma_last_byte_below_length_mask(bytes@);
            }
        }
        if bytes.len() <= MAX_INLINE_LENGTH {
            Repr::inline_from(bytes)
        } else {
            Repr::heap_from(bytes, bytes.len())
        }
    }

    /// Borrows `text` without copying it.
    pub fn from_static_str(text: &'static str) -> (r: Repr)
        requires
            text.spec_bytes().len() <= MAX_CAPACITY,
        ensures
            r.wf(),
            r@ == text.spec_bytes(),
            r.variant() == Variant::Static,
            r.spec_capacity() == text.spec_bytes().len(),
    {
        let mut buf: Vec<u8> = vec![0u8; MAX_SIZE];
        buf.set(MAX_SIZE - 1, STATIC_MASK);
        proof {
            encode_utf8_valid_utf8(text@);
        }
        Repr { buf, heap: Vec::new(), heap_len: 0, borrowed: text }
    }

    /// The variant, decoded from the discriminator byte.
    pub fn kind(&self) -> (r: Variant)
        requires
            self.well_classified(),
        ensures
            r == self.variant(),
    {
        let tag = self.buf[MAX_SIZE - 1];
        if tag == HEAP_MASK {
            Variant::Heap
        } else if tag == STATIC_MASK {
            Variant::Static
        } else {
            Variant::Inline
        }
    }

    /// Whether the content lives in an owned heap allocation.
    pub fn is_heap_allocated(&self) -> (r: bool)
        requires
            self.well_classified(),
        ensures
            r == (self.variant() == Variant::Heap),
    {
        self.buf[MAX_SIZE - 1] == HEAP_MASK
    }

    /// Length of the content in bytes.
    pub fn len(&self) -> (r: usize)
        requires
            self.well_classified(),
        ensures
            r == self@.len(),
    {
        let tag = self.buf[MAX_SIZE - 1];
        if tag == HEAP_MASK {
            self.heap_len
        } else if tag == STATIC_MASK {
            self.borrowed.as_bytes().len()
        } else if tag >= LENGTH_MASK {
            (tag - LENGTH_MASK) as usize
        } else {
            MAX_SIZE
        }
    }

    /// Whether the content is empty.
    pub fn is_empty(&self) -> (r: bool)
        requires
            self.well_classified(),
        ensures
            r == (self@.len() == 0),
    {
        self.len() == 0
    }

    /// Bytes the value holds without allocating: `MAX_INLINE_LENGTH` inline,
    /// the allocation's size on the heap, the length when borrowed.
    pub fn capacity(&self) -> (r: usize)
        requires
            self.well_classified(),
        ensures
            r == self.spec_capacity(),
    {
        let tag = self.buf[MAX_SIZE - 1];
        if tag == HEAP_MASK {
            self.heap.len()
        } else if tag == STATIC_MASK {
            self.borrowed.as_bytes().len()
        } else {
            MAX_INLINE_LENGTH
        }
    }

    /// The content bytes.
    pub fn as_slice(&self) -> (r: &[u8])
        requires
            self.well_classified(),
        ensures
            r@ == self@,
    {
        let tag = self.buf[MAX_SIZE - 1];
        if tag == HEAP_MASK {
            slice_subrange(self.heap.as_slice(), 0, self.heap_len)
        } else if tag == STATIC_MASK {
            self.borrowed.as_bytes()
        } else {
            let n = self.len();
            slice_subrange(self.buf.as_slice(), 0, n)
        }
    }

    /// The content as a string slice.
    pub fn as_str(&self) -> (r: &str)
        requires
            self.wf(),
        ensures
            r.spec_bytes() == self@,
    {
        let b = self.as_slice();
        match check_utf8(b) {
            Ok(s) => s,
            Err(_) => "",
        }
    }

    /// The borrowed reference, while the value is still the borrowed variant.
    pub fn as_static_str(&self) -> (r: Option<&'static str>)
        requires
            self.well_classified(),
        ensures
            r.is_some() == (self.variant() == Variant::Static),
            r.is_some() ==> r.unwrap().spec_bytes() == self@,
    {
        if self.buf[MAX_SIZE - 1] == STATIC_MASK {
            Some(self.borrowed)
        } else {
            None
        }
    }
}


/// Variant after making room for `needed` bytes in a value of variant `v`:
/// a heap value stays on the heap, anything else is inline when `needed` fits.
pub open spec fn variant_after_room(v: Variant, needed: nat) -> Variant {
    if v == Variant::Heap || needed > MAX_INLINE_LENGTH {
        Variant::Heap
    } else {
        Variant::Inline
    }
}

/// Capacity after making room for `needed` bytes in a value of variant `v`
/// and capacity `cap`. An inline value that outgrows its room gets the first
/// power of two that fits; a borrowed value is copied out with exactly
/// `needed` bytes of room when it leaves the inline range.
pub open spec fn capacity_after_room(v: Variant, cap: nat, needed: nat) -> nat {
    match v {
        Variant::Heap => if needed <= cap { cap } else { grown_capacity(cap, needed) },
        Variant::Inline => if needed <= MAX_INLINE_LENGTH {
            MAX_INLINE_LENGTH as nat
        } else {
            first_heap_capacity(needed)
        },
        Variant::Static => if needed <= MAX_INLINE_LENGTH {
            MAX_INLINE_LENGTH as nat
        } else {
            needed
        },
    }
}

/// The first power of two, from `p` on by doubling, that is at least `n`.
pub open spec fn pow2_from(p: nat, n: nat) -> nat
    recommends
        p > 0,
    decreases (if n > p { n - p } else { 0 }),
    when p > 0
{
    if p >= n {
        p
    } else {
        pow2_from(2 * p, n)
    }
}

/// Capacity of the first heap allocation for `needed` bytes: the first power
/// of two at least `needed`, clamped to `MAX_CAPACITY`.
pub open spec fn first_heap_capacity(needed: nat) -> nat {
    let p = pow2_from(1, needed);
    if p > MAX_CAPACITY { MAX_CAPACITY as nat } else { p }
}

/// Doubling from `p` ends at or above both `p` and `n`.
pub proof fn lemma_pow2_from_at_least(p: nat, n: nat)
    requires
        p > 0,
    ensures
        pow2_from(p, n) >= n,
        pow2_from(p, n) >= p,
    decreases (if n > p { n - p } else { 0 }),
{
    if p < n {
        lemma_pow2_from_at_least(2 * p, n);
    }
}

fn first_heap_cap(needed: usize) -> (r: usize)
    requires
        needed <= MAX_CAPACITY,
    ensures
        r == first_heap_capacity(needed as nat),
        needed <= r <= MAX_CAPACITY,
{
    let mut p: usize = 1;
    proof {
        lemma_max_capacity_bound();
    }
    while p < needed
        invariant
            0 < p <= MAX_CAPACITY,
            needed <= MAX_CAPACITY,
            pow2_from(p as nat, needed as nat) == pow2_from(1, needed as nat),
        decreases MAX_CAPACITY - p,
    {
        if p > MAX_CAPACITY / 2 {
            proof {
                lemma_pow2_from_at_least(2 * p as nat, needed as nat);
            }
            return MAX_CAPACITY;
        }
        p = 2 * p;
    }
    p
}

fn grow(old: usize, needed: usize) -> (r: usize)
    requires
        needed <= MAX_CAPACITY,
    ensures
        r == grown_capacity(old as nat, needed as nat),
{
    let doubled = if old <= MAX_CAPACITY / 2 { 2 * old } else { MAX_CAPACITY };
    let want = if needed > doubled { needed } else { doubled };
    if want > MAX_CAPACITY { MAX_CAPACITY } else { want }
}

impl Repr {
    /// Owns its bytes afterwards, with room for `needed` of them; content kept.
    pub(crate) fn make_room(&mut self, needed: usize)
        requires
            old(self).well_classified(),
            old(self)@.len() <= needed <= MAX_CAPACITY,
            old(self).variant() == Variant::Static ==> valid_utf8(old(self)@),
        ensures
            final(self).well_classified(),
            final(self)@ == old(self)@,
            final(self).variant() == variant_after_room(old(self).variant(), needed as nat),
            final(self).spec_capacity() == capacity_after_room(
                old(self).variant(),
                old(self).spec_capacity(),
                needed as nat,
            ),
            needed <= final(self).spec_capacity(),
    {
        let tag = self.buf[MAX_SIZE - 1];
        if tag == HEAP_MASK {
            let cap = self.heap.len();
            if needed > cap {
                let new_cap = grow(cap, needed);
                let fresh = Repr::heap_from(self.as_slice(), new_cap);
                *self = fresh;
            }
        } else if tag == STATIC_MASK {
            let fresh = if needed <= MAX_INLINE_LENGTH {
                let b = self.as_slice();
                proof {
                    if b@.len() > 0 {
                        lemma_last_byte_below_length_mask(b@);
                    }
                }
                Repr::inline_from(b)
            } else {
                Repr::heap_from(self.as_slice(), needed)
            };
            *self = fresh;
        } else if needed > MAX_INLINE_LENGTH {
            let new_cap = first_heap_cap(needed);
            let fresh = Repr::heap_from(self.as_slice(), new_cap);
            *self = fresh;
        }
    }

    /// Keeps the first `keep` content bytes and writes `tail` after them, in
    /// place. The variant and the capacity stay.
    pub(crate) fn splice_tail(&mut self, keep: usize, tail: &[u8])
        requires
            old(self).well_classified(),
            old(self).variant() != Variant::Static,
            keep <= old(self)@.len(),
            keep + tail@.len() <= old(self).spec_capacity(),
            old(self).variant() == Variant::Inline && keep + tail@.len() == MAX_SIZE
                ==> (old(self)@.subrange(0, keep as int) + tail@).last() < LENGTH_MASK,
        ensures
            final(self).well_classified(),
            final(self)@ == old(self)@.subrange(0, keep as int) + tail@,
            final(self).variant() == old(self).variant(),
            final(self).spec_capacity() == old(self).spec_capacity(),
    {
        let ghost want = old(self)@.subrange(0, keep as int) + tail@;
        let t = tail.len();
        let n = keep + t;
        if self.buf[MAX_SIZE - 1] == HEAP_MASK {
            let mut i: usize = 0;
            while i < t
                invariant
                    self.well_classified(),
                    self.variant() == Variant::Heap,
                    self.heap@.len() == old(self).heap@.len(),
                    self.heap_len == old(self).heap_len,
                    n == keep + t <= self.heap@.len(),
                    t == tail@.len(),
                    i <= t,
                    keep <= self.heap_len,
                    forall|j: int| 0 <= j < keep ==> self.heap@[j] == old(self).heap@[j],
                    forall|j: int| 0 <= j < i ==> self.heap@[keep + j] == tail@[j],
                decreases t - i,
            {
                self.heap.set(keep + i, tail[i]);
                i = i + 1;
            }
            self.heap_len = n;
            assert(self@ =~= want);
        } else {
            let ghost old_len = old(self)@.len();
            let mut i: usize = 0;
            while i < t
                invariant
                    self.buf@.len() == MAX_SIZE,
                    n == keep + t <= MAX_SIZE,
                    t == tail@.len(),
                    i <= t,
                    forall|j: int| 0 <= j < keep ==> self.buf@[j] == old(self).buf@[j],
                    forall|j: int| 0 <= j < i ==> self.buf@[keep + j] == tail@[j],
                decreases t - i,
            {
                self.buf.set(keep + i, tail[i]);
                i = i + 1;
            }
            let mut z: usize = n;
            while z < MAX_SIZE - 1
                invariant
                    self.buf@.len() == MAX_SIZE,
                    n <= z,
                    n == keep + t <= MAX_SIZE,
                    t == tail@.len(),
                    forall|j: int| 0 <= j < keep ==> self.buf@[j] == old(self).buf@[j],
                    forall|j: int| 0 <= j < t ==> self.buf@[keep + j] == tail@[j],
                    forall|j: int| n <= j < z ==> self.buf@[j] == 0,
                decreases MAX_SIZE - 1 - z,
            {
                self.buf.set(z, 0);
                z = z + 1;
            }
            if n < MAX_SIZE {
                self.buf.set(MAX_SIZE - 1, LENGTH_MASK + n as u8);
            }
            assert(self@ =~= want);
        }
    }
}


impl Repr {
    /// Appends well-formed bytes.
    fn append_valid(&mut self, extra: &[u8])
        requires
            old(self).wf(),
            valid_utf8(extra@),
            old(self)@.len() + extra@.len() <= MAX_CAPACITY,
        ensures
            final(self).wf(),
            final(self)@ == old(self)@ + extra@,
            final(self).variant() == variant_after_room(
                old(self).variant(),
                old(self)@.len() + extra@.len(),
            ),
            final(self).spec_capacity() == capacity_after_room(
                old(self).variant(),
                old(self).spec_capacity(),
                old(self)@.len() + extra@.len(),
            ),
    {
        let n = self.len();
        let ghost want = old(self)@ + extra@;
        proof {
            valid_utf8_concat(old(self)@, extra@);
            if want.len() > 0 {
                lemma_last_byte_below_length_mask(want);
            }
        }
        self.make_room(n + extra.len());
        assert(self@.subrange(0, n as int) =~= self@);
        self.splice_tail(n, extra);
    }

    /// Appends `text`.
    pub fn push_str(&mut self, text: &str)
        requires
            old(self).wf(),
            old(self)@.len() + text.spec_bytes().len() <= MAX_CAPACITY,
        ensures
            final(self).wf(),
            final(self)@ == old(self)@ + text.spec_bytes(),
            final(self).variant() == variant_after_room(
                old(self).variant(),
                old(self)@.len() + text.spec_bytes().len(),
            ),
            final(self).spec_capacity() == capacity_after_room(
                old(self).variant(),
                old(self).spec_capacity(),
                old(self)@.len() + text.spec_bytes().len(),
            ),
    {
        proof {
            encode_utf8_valid_utf8(text@);
        }
        self.append_valid(text.as_bytes());
    }

    /// Appends the character `c`.
    pub fn push(&mut self, c: char)
        requires
            old(self).wf(),
            old(self)@.len() + encode_utf8(seq![c]).len() <= MAX_CAPACITY,
        ensures
            final(self).wf(),
            final(self)@ == old(self)@ + encode_utf8(seq![c]),
            final(self).variant() == variant_after_room(
                old(self).variant(),
                old(self)@.len() + encode_utf8(seq![c]).len(),
            ),
            final(self).spec_capacity() == capacity_after_room(
                old(self).variant(),
                old(self).spec_capacity(),
                old(self)@.len() + encode_utf8(seq![c]).len(),
            ),
    {
        let b = encode_char(c);
        proof {
            encode_utf8_valid_utf8(seq![c]);
        }
        self.append_valid(b.as_slice());
    }

    /// Removes and returns the last character; `None` when empty. A heap
    /// value stays on the heap, whatever its new length.
    pub fn pop(&mut self) -> (r: Option<char>)
        requires
            old(self).wf(),
        ensures
            final(self).wf(),
            old(self)@.len() == 0 ==> r.is_none() && *final(self) == *old(self),
            old(self)@.len() > 0 ==> {
                &&& r == Some(decode_utf8(old(self)@).last())
                &&& final(self)@ + encode_utf8(seq![r.unwrap()]) == old(self)@
                &&& final(self).variant() == variant_after_room(
                    old(self).variant(),
                    old(self)@.len(),
                )
                &&& final(self).spec_capacity() == capacity_after_room(
                    old(self).variant(),
                    old(self).spec_capacity(),
                    old(self)@.len(),
                )
            },
    {
        let n = self.len();
        if n == 0 {
            return None;
        }
        proof {
            self.lemma_len_bound();
        }
        let s = self.as_str();
        let ghost chars = s@;
        proof {
            if chars.len() == 0 {
                assert(encode_utf8(chars) =~= Seq::<u8>::empty());
            }
        }
        let c = s.get_char(s.unicode_len() - 1);
        let b = encode_char(c);
        proof {
            assert(chars.drop_last() + seq![c] =~= chars);
            lemma_encode_concat(chars.drop_last(), seq![c]);
            encode_utf8_decode_utf8(chars);
            encode_utf8_valid_utf8(chars.drop_last());
            assert(old(self)@.subrange(0, n - b@.len()) =~= encode_utf8(chars.drop_last()));
        }
        self.make_room(n);
        let empty: Vec<u8> = Vec::new();
        self.splice_tail(n - b.len(), empty.as_slice());
        assert(self@ =~= encode_utf8(chars.drop_last()));
        Some(c)
    }

    /// Shortens the content to `new_len` bytes; nothing happens when it is
    /// not shorter. Fails, changing nothing, when `new_len` is inside a
    /// character. The variant stays; a borrowed value keeps borrowing.
    pub fn truncate(&mut self, new_len: usize) -> (r: Result<(), BoundaryError>)
        requires
            old(self).wf(),
        ensures
            final(self).wf(),
            final(self).variant() == old(self).variant(),
            r is Err <==> new_len < old(self)@.len() && !is_char_boundary(old(self)@, new_len as int),
            r is Err ==> r == Err::<(), _>(BoundaryError::NotCharBoundary),
            r is Err || new_len >= old(self)@.len() ==> *final(self) == *old(self),
            r is Ok && new_len < old(self)@.len() ==> {
                &&& final(self)@ == old(self)@.subrange(0, new_len as int)
                &&& final(self).spec_capacity() == if old(self).variant() == Variant::Static {
                    new_len as nat
                } else {
                    old(self).spec_capacity()
                }
            },
    {
        let n = self.len();
        if new_len >= n {
            return Ok(());
        }
        if !self.as_str().is_char_boundary(new_len) {
            return Err(BoundaryError::NotCharBoundary);
        }
        proof {
            valid_utf8_split(old(self)@, new_len as int);
        }
        if self.buf[MAX_SIZE - 1] == STATIC_MASK {
            let (head, _) = self.borrowed.split_at(new_len);
            self.borrowed = head;
        } else {
            let empty: Vec<u8> = Vec::new();
            self.splice_tail(new_len, empty.as_slice());
            assert(self@ =~= old(self)@.subrange(0, new_len as int));
        }
        Ok(())
    }

    /// Empties the content. Owned storage is kept; a borrowed value becomes
    /// an empty inline one.
    pub fn clear(&mut self)
        requires
            old(self).wf(),
        ensures
            final(self).wf(),
            final(self)@ == Seq::<u8>::empty(),
            final(self).variant() == if old(self).variant() == Variant::Heap {
                Variant::Heap
            } else {
                Variant::Inline
            },
            old(self).variant() != Variant::Static ==> final(self).spec_capacity()
                == old(self).spec_capacity(),
    {
        proof {
            lemma_empty_valid();
        }
        if self.buf[MAX_SIZE - 1] == STATIC_MASK {
            *self = Repr::new_empty();
        } else {
            let empty: Vec<u8> = Vec::new();
            self.splice_tail(0, empty.as_slice());
            assert(self@ =~= Seq::<u8>::empty());
        }
    }
}


/// Relies on `zeroize::Zeroize` for `[u8]`: every byte of the slice is
/// overwritten with zero by volatile writes; the length stays.
#[verifier::external_body]
fn zero_bytes(b: &mut Vec<u8>)
    ensures
        final(b)@ == Seq::new(old(b)@.len(), |i: int| 0u8),
{
    zeroize::Zeroize::zeroize(b.as_mut_slice());
}

impl Repr {
    /// A value holding well-formed `bytes`: inline when they fit, else on the
    /// heap with capacity equal to their length.
    fn from_valid_bytes(bytes: &[u8]) -> (r: Repr)
        requires
            valid_utf8(bytes@),
            bytes@.len() <= MAX_CAPACITY,
        ensures
            r.wf(),
            r@ == bytes@,
            r.variant() == if bytes@.len() <= MAX_INLINE_LENGTH {
                Variant::Inline
            } else {
                Variant::Heap
            },
            r.variant() == Variant::Heap ==> r.spec_capacity() == bytes@.len(),
    {
        proof {
            if bytes@.len() > 0 {
                lemma_last_byte_below_length_mask(bytes@);
            }
        }
        if bytes.len() <= MAX_INLINE_LENGTH {
            Repr::inline_from(bytes)
        } else {
            Repr::heap_from(bytes, bytes.len())
        }
    }

    /// An empty value with room for `capacity` bytes: inline when that fits,
    /// else a heap allocation of exactly `capacity` bytes.
    pub fn with_capacity(capacity: usize) -> (r: Result<Repr, ReserveError>)
        ensures
            r is Err <==> capacity > MAX_CAPACITY,
            r is Ok ==> {
                let v = r.unwrap();
                &&& v.wf()
                &&& v@ == Seq::<u8>::empty()
                &&& v.variant() == if capacity <= MAX_INLINE_LENGTH {
                    Variant::Inline
                } else {
                    Variant::Heap
                }
                &&& v.spec_capacity() == if capacity <= MAX_INLINE_LENGTH {
                    MAX_INLINE_LENGTH as nat
                } else {
                    capacity as nat
                }
            },
    {
        if capacity > MAX_CAPACITY {
            return Err(ReserveError::CapacityOverflow);
        }
        proof {
            lemma_empty_valid();
        }
        if capacity <= MAX_INLINE_LENGTH {
            Ok(Repr::new_empty())
        } else {
            let empty: Vec<u8> = Vec::new();
            Ok(Repr::heap_from(empty.as_slice(), capacity))
        }
    }

    /// Makes room for `additional` more bytes. A borrowed value is copied out;
    /// a value that outgrows the inline range moves to the heap; a heap
    /// allocation that is too small grows to at least twice its size. Fails,
    /// changing nothing, past `MAX_CAPACITY`.
    pub fn reserve(&mut self, additional: usize) -> (r: Result<(), ReserveError>)
        requires
            old(self).wf(),
        ensures
            final(self).wf(),
            r is Err <==> old(self)@.len() + additional > MAX_CAPACITY,
            r is Err ==> *final(self) == *old(self),
            r is Ok ==> {
                &&& final(self)@ == old(self)@
                &&& final(self).variant() == variant_after_room(
                    old(self).variant(),
                    old(self)@.len() + additional as nat,
                )
                &&& final(self).spec_capacity() == capacity_after_room(
                    old(self).variant(),
                    old(self).spec_capacity(),
                    old(self)@.len() + additional as nat,
                )
                &&& old(self)@.len() + additional <= final(self).spec_capacity()
            },
    {
        let n = self.len();
        proof {
            self.lemma_len_bound();
        }
        if additional > MAX_CAPACITY - n {
            return Err(ReserveError::CapacityOverflow);
        }
        self.make_room(n + additional);
        Ok(())
    }

    /// Splits at byte `at`: returns the content from `at` on, and keeps the
    /// part before it. The variant stays; a borrowed value keeps borrowing,
    /// with capacity `at`, and an owned one keeps its capacity.
    pub fn split_off(&mut self, at: usize) -> (r: Result<Repr, BoundaryError>)
        requires
            old(self).wf(),
        ensures
            final(self).wf(),
            r is Err ==> *final(self) == *old(self),
            r == Err::<Repr, _>(BoundaryError::OutOfBounds) <==> at > old(self)@.len(),
            r == Err::<Repr, _>(BoundaryError::NotCharBoundary) <==> at <= old(self)@.len()
                && !is_char_boundary(old(self)@, at as int),
            r is Ok ==> {
                let tail = r.unwrap();
                &&& tail.wf()
                &&& tail@ == old(self)@.subrange(at as int, old(self)@.len() as int)
                &&& final(self)@ == old(self)@.subrange(0, at as int)
                &&& final(self).variant() == old(self).variant()
                &&& final(self).spec_capacity() == if old(self).variant() == Variant::Static {
                    at as nat
                } else {
                    old(self).spec_capacity()
                }
            },
    {
        let n = self.len();
        if at > n {
            return Err(BoundaryError::OutOfBounds);
        }
        if !self.as_str().is_char_boundary(at) {
            return Err(BoundaryError::NotCharBoundary);
        }
        proof {
            valid_utf8_split(old(self)@, at as int);
            self.lemma_len_bound();
        }
        if self.buf[MAX_SIZE - 1] == STATIC_MASK {
            let (head, tail) = self.borrowed.split_at(at);
            let other = Repr::new(tail);
            self.borrowed = head;
            Ok(other)
        } else {
            let other = {
                let (_, tail) = self.as_str().split_at(at);
                Repr::new(tail)
            };
            let empty: Vec<u8> = Vec::new();
            self.splice_tail(at, empty.as_slice());
            assert(self@ =~= old(self)@.subrange(0, at as int));
            Ok(other)
        }
    }

    /// Gives back unused room, keeping at least `min_capacity` bytes of it.
    /// When the content and `min_capacity` both fit inline the value becomes
    /// inline (a borrowed one is copied in).
    pub fn shrink_to(&mut self, min_capacity: usize)
        requires
            old(self).wf(),
        ensures
            final(self).wf(),
            final(self)@ == old(self)@,
            ({
                let target = if min_capacity > old(self)@.len() {
                    min_capacity as nat
                } else {
                    old(self)@.len()
                };
                &&& final(self).variant() == if target <= MAX_INLINE_LENGTH {
                    Variant::Inline
                } else {
                    old(self).variant()
                }
                &&& old(self).variant() == Variant::Heap && target > MAX_INLINE_LENGTH
                    ==> final(self).spec_capacity() == if target < old(self).spec_capacity() {
                    target
                } else {
                    old(self).spec_capacity()
                }
            }),
    {
        let n = self.len();
        let target = if min_capacity > n { min_capacity } else { n };
        let tag = self.buf[MAX_SIZE - 1];
        proof {
            self.lemma_len_bound();
        }
        if tag == HEAP_MASK || tag == STATIC_MASK {
            if target <= MAX_INLINE_LENGTH {
                let fresh = Repr::from_valid_bytes(self.as_slice());
                *self = fresh;
            } else if tag == HEAP_MASK && target < self.heap.len() {
                let fresh = Repr::heap_from(self.as_slice(), target);
                *self = fresh;
            }
        }
    }

    /// `shrink_to(0)`: a value whose content fits inline becomes inline.
    pub fn shrink_to_fit(&mut self)
        requires
            old(self).wf(),
        ensures
            final(self).wf(),
            final(self)@ == old(self)@,
            final(self).variant() == if old(self)@.len() <= MAX_INLINE_LENGTH {
                Variant::Inline
            } else {
                old(self).variant()
            },
            old(self).variant() == Variant::Heap && old(self)@.len() > MAX_INLINE_LENGTH
                ==> final(self).spec_capacity() == old(self)@.len(),
    {
        proof {
            self.lemma_len_bound();
        }
        self.shrink_to(0);
    }

    /// A copy of the value. A borrowed value borrows the same text; owned
    /// content is inline when it fits, else on the heap with capacity equal to
    /// its length.
    pub fn clone(&self) -> (r: Repr)
        requires
            self.wf(),
        ensures
            r.wf(),
            r@ == self@,
            r.variant() == if self.variant() == Variant::Static {
                Variant::Static
            } else if self@.len() <= MAX_INLINE_LENGTH {
                Variant::Inline
            } else {
                Variant::Heap
            },
            r.variant() == Variant::Heap ==> r.spec_capacity() == self@.len(),
    {
        proof {
            self.lemma_len_bound();
        }
        if self.buf[MAX_SIZE - 1] == STATIC_MASK {
            Repr::from_static_str(self.borrowed)
        } else {
            Repr::from_valid_bytes(self.as_slice())
        }
    }

    /// The content bytes, as an owned buffer.
    pub fn into_bytes(self) -> (r: Vec<u8>)
        requires
            self.wf(),
        ensures
            r@ == self@,
    {
        slice_to_vec(self.as_slice())
    }

    /// A value holding `bytes` when they are well-formed UTF-8 (inline when
    /// they fit); otherwise the bytes are handed back.
    pub fn from_utf8(bytes: Vec<u8>) -> (r: Result<Repr, Vec<u8>>)
        requires
            bytes@.len() <= MAX_CAPACITY,
        ensures
            r is Ok <==> valid_utf8(bytes@),
            r is Ok ==> {
                let v = r.unwrap();
                &&& v.wf()
                &&& v@ == bytes@
                &&& v.variant() == if bytes@.len() <= MAX_INLINE_LENGTH {
                    Variant::Inline
                } else {
                    Variant::Heap
                }
            },
            r is Err ==> r->Err_0 == bytes,
    {
        let ok = check_utf8(bytes.as_slice()).is_ok();
        if ok {
            Ok(Repr::from_valid_bytes(bytes.as_slice()))
        } else {
            Err(bytes)
        }
    }

    /// The storage this value owns: the inline region without its
    /// discriminator, or the whole heap allocation. Nothing when borrowed.
    pub closed spec fn owned_storage(&self) -> Seq<u8> {
        match self.variant() {
            Variant::Inline => self.buf@.subrange(0, MAX_SIZE - 1),
            Variant::Heap => self.heap@,
            Variant::Static => Seq::empty(),
        }
    }

    /// The storage this value owns, bytes past the content included.
    pub fn owned_bytes(&self) -> (r: &[u8])
        requires
            self.well_classified(),
        ensures
            r@ == self.owned_storage(),
    {
        let tag = self.buf[MAX_SIZE - 1];
        if tag == HEAP_MASK {
            self.heap.as_slice()
        } else if tag == STATIC_MASK {
            slice_subrange(self.buf.as_slice(), 0, 0)
        } else {
            slice_subrange(self.buf.as_slice(), 0, MAX_SIZE - 1)
        }
    }

    /// Overwrites every byte of owned storage with zero and empties the value.
    /// A heap value keeps its allocation; a borrowed one becomes empty inline.
    pub fn zeroize(&mut self)
        requires
            old(self).wf(),
        ensures
            final(self).wf(),
            final(self)@ == Seq::<u8>::empty(),
            forall|i: int|
                0 <= i < final(self).owned_storage().len() ==> #[trigger] final(self).owned_storage()[i]
                    == 0,
            final(self).variant() == if old(self).variant() == Variant::Heap {
                Variant::Heap
            } else {
                Variant::Inline
            },
            old(self).variant() != Variant::Static ==> {
                &&& final(self).owned_storage().len() == old(self).owned_storage().len()
                &&& final(self).spec_capacity() == old(self).spec_capacity()
            },
    {
        proof {
            lemma_empty_valid();
        }
        let tag = self.buf[MAX_SIZE - 1];
        if tag == STATIC_MASK {
            *self = Repr::new_empty();
            assert(self.buf@.subrange(0, MAX_SIZE - 1) =~= Seq::new(
                (MAX_SIZE - 1) as nat,
                |i: int| 0u8,
            ));
        } else if tag == HEAP_MASK {
            zero_bytes(&mut self.heap);
            self.heap_len = 0;
            assert(self@ =~= Seq::<u8>::empty());
        } else {
            zero_bytes(&mut self.buf);
            self.buf.set(MAX_SIZE - 1, LENGTH_MASK);
            assert(self@ =~= Seq::<u8>::empty());
        }
    }
}


/// Room needed to replace `end - start` bytes of `len` with `mid_len` bytes:
/// the new length when it grows, else the current one.
pub open spec fn splice_room(len: nat, start: int, end: int, mid_len: nat) -> nat {
    if mid_len > end - start {
        (len + mid_len - (end - start)) as nat
    } else {
        len
    }
}

/// Content after replacing bytes `start..end` of `b` with `mid`.
pub open spec fn spliced(b: Seq<u8>, start: int, end: int, mid: Seq<u8>) -> Seq<u8> {
    b.subrange(0, start) + mid + b.subrange(end, b.len() as int)
}

impl Repr {
    /// Replaces content bytes `start..end` with `mid`; the pieces that stay
    /// and `mid` are each well-formed.
    fn replace_bytes(&mut self, start: usize, end: usize, mid: &[u8])
        requires
            old(self).wf(),
            start <= end <= old(self)@.len(),
            valid_utf8(old(self)@.subrange(0, start as int)),
            valid_utf8(old(self)@.subrange(end as int, old(self)@.len() as int)),
            valid_utf8(mid@),
            old(self)@.len() + mid@.len() <= MAX_CAPACITY,
        ensures
            final(self).wf(),
            final(self)@ == spliced(old(self)@, start as int, end as int, mid@),
            ({
                let room = splice_room(old(self)@.len(), start as int, end as int, mid@.len());
                &&& final(self).variant() == variant_after_room(old(self).variant(), room)
                &&& final(self).spec_capacity() == capacity_after_room(
                    old(self).variant(),
                    old(self).spec_capacity(),
                    room,
                )
            }),
    {
        let n = self.len();
        let ghost want = spliced(old(self)@, start as int, end as int, mid@);
        let mut tail: Vec<u8> = slice_to_vec(mid);
        {
            let rest = slice_subrange(self.as_slice(), end, n);
            tail.extend_from_slice(rest);
        }
        let new_len = start + tail.len();
        let room = if new_len > n { new_len } else { n };
        proof {
            valid_utf8_concat(old(self)@.subrange(0, start as int), mid@);
            valid_utf8_concat(
                old(self)@.subrange(0, start as int) + mid@,
                old(self)@.subrange(end as int, n as int),
            );
            if want.len() > 0 {
                lemma_last_byte_below_length_mask(want);
            }
            assert(old(self)@.subrange(0, start as int) + tail@ =~= want);
        }
        self.make_room(room);
        assert(self@.subrange(0, start as int) =~= old(self)@.subrange(0, start as int));
        self.splice_tail(start, tail.as_slice());
    }

    /// Replaces bytes `start..end` with `text`. Fails, changing nothing, when
    /// the range is reversed or past the end, or an end is inside a character.
    pub fn replace_range(&mut self, start: usize, end: usize, text: &str) -> (r: Result<
        (),
        BoundaryError,
    >)
        requires
            old(self).wf(),
            old(self)@.len() + text.spec_bytes().len() <= MAX_CAPACITY,
        ensures
            final(self).wf(),
            r is Err ==> *final(self) == *old(self),
            r == Err::<(), _>(BoundaryError::OutOfBounds) <==> start > end || end > old(self)@.len(),
            r == Err::<(), _>(BoundaryError::NotCharBoundary) <==> start <= end <= old(self)@.len()
                && !(is_char_boundary(old(self)@, start as int) && is_char_boundary(
                old(self)@,
                end as int,
            )),
            r is Ok ==> final(self)@ == spliced(
                old(self)@,
                start as int,
                end as int,
                text.spec_bytes(),
            ),
            r is Ok ==> ({
                let room = splice_room(
                    old(self)@.len(),
                    start as int,
                    end as int,
                    text.spec_bytes().len(),
                );
                &&& final(self).variant() == variant_after_room(old(self).variant(), room)
                &&& final(self).spec_capacity() == capacity_after_room(
                    old(self).variant(),
                    old(self).spec_capacity(),
                    room,
                )
            }),
    {
        let n = self.len();
        if start > end || end > n {
            return Err(BoundaryError::OutOfBounds);
        }
        let s = self.as_str();
        if !s.is_char_boundary(start) || !s.is_char_boundary(end) {
            return Err(BoundaryError::NotCharBoundary);
        }
        proof {
            valid_utf8_split(old(self)@, start as int);
            valid_utf8_split(old(self)@, end as int);
            encode_utf8_valid_utf8(text@);
            self.lemma_len_bound();
        }
        self.replace_bytes(start, end, text.as_bytes());
        Ok(())
    }

    /// Inserts `text` at byte `idx`. Fails, changing nothing, past the end or
    /// inside a character.
    pub fn insert_str(&mut self, idx: usize, text: &str) -> (r: Result<(), BoundaryError>)
        requires
            old(self).wf(),
            old(self)@.len() + text.spec_bytes().len() <= MAX_CAPACITY,
        ensures
            final(self).wf(),
            r is Err ==> *final(self) == *old(self),
            r == Err::<(), _>(BoundaryError::OutOfBounds) <==> idx > old(self)@.len(),
            r == Err::<(), _>(BoundaryError::NotCharBoundary) <==> idx <= old(self)@.len()
                && !is_char_boundary(old(self)@, idx as int),
            r is Ok ==> final(self)@ == spliced(
                old(self)@,
                idx as int,
                idx as int,
                text.spec_bytes(),
            ),
            r is Ok ==> final(self).variant() == variant_after_room(
                old(self).variant(),
                old(self)@.len() + text.spec_bytes().len(),
            ),
            r is Ok ==> final(self).spec_capacity() == capacity_after_room(
                old(self).variant(),
                old(self).spec_capacity(),
                old(self)@.len() + text.spec_bytes().len(),
            ),
    {
        self.replace_range(idx, idx, text)
    }

    /// Inserts the character `c` at byte `idx`. Fails, changing nothing, past
    /// the end or inside a character.
    pub fn insert(&mut self, idx: usize, c: char) -> (r: Result<(), BoundaryError>)
        requires
            old(self).wf(),
            old(self)@.len() + encode_utf8(seq![c]).len() <= MAX_CAPACITY,
        ensures
            final(self).wf(),
            r is Err ==> *final(self) == *old(self),
            r == Err::<(), _>(BoundaryError::OutOfBounds) <==> idx > old(self)@.len(),
            r == Err::<(), _>(BoundaryError::NotCharBoundary) <==> idx <= old(self)@.len()
                && !is_char_boundary(old(self)@, idx as int),
            r is Ok ==> final(self)@ == spliced(
                old(self)@,
                idx as int,
                idx as int,
                encode_utf8(seq![c]),
            ),
            r is Ok ==> final(self).variant() == variant_after_room(
                old(self).variant(),
                old(self)@.len() + encode_utf8(seq![c]).len(),
            ),
            r is Ok ==> final(self).spec_capacity() == capacity_after_room(
                old(self).variant(),
                old(self).spec_capacity(),
                old(self)@.len() + encode_utf8(seq![c]).len(),
            ),
    {
        let n = self.len();
        if idx > n {
            return Err(BoundaryError::OutOfBounds);
        }
        if !self.as_str().is_char_boundary(idx) {
            return Err(BoundaryError::NotCharBoundary);
        }
        let b = encode_char(c);
        proof {
            valid_utf8_split(old(self)@, idx as int);
            encode_utf8_valid_utf8(seq![c]);
        }
        self.replace_bytes(idx, idx, b.as_slice());
        Ok(())
    }

    /// Removes and returns the character that starts at byte `idx`. Fails,
    /// changing nothing, at or past the end or inside a character.
    pub fn remove(&mut self, idx: usize) -> (r: Result<char, BoundaryError>)
        requires
            old(self).wf(),
        ensures
            final(self).wf(),
            r is Err ==> *final(self) == *old(self),
            r == Err::<char, _>(BoundaryError::OutOfBounds) <==> idx >= old(self)@.len(),
            r == Err::<char, _>(BoundaryError::NotCharBoundary) <==> idx < old(self)@.len()
                && !is_char_boundary(old(self)@, idx as int),
            r is Ok ==> {
                let c = r->Ok_0;
                &&& c == decode_utf8(old(self)@.subrange(idx as int, old(self)@.len() as int))[0]
                &&& final(self)@ == spliced(
                    old(self)@,
                    idx as int,
                    idx + encode_utf8(seq![c]).len(),
                    Seq::empty(),
                )
                &&& final(self).variant() == variant_after_room(
                    old(self).variant(),
                    old(self)@.len(),
                )
                &&& final(self).spec_capacity() == capacity_after_room(
                    old(self).variant(),
                    old(self).spec_capacity(),
                    old(self)@.len(),
                )
            },
    {
        let n = self.len();
        if idx >= n {
            return Err(BoundaryError::OutOfBounds);
        }
        let s = self.as_str();
        if !s.is_char_boundary(idx) {
            return Err(BoundaryError::NotCharBoundary);
        }
        let (_, rest) = s.split_at(idx);
        let ghost chars = rest@;
        proof {
            if chars.len() == 0 {
                assert(encode_utf8(chars) =~= Seq::<u8>::empty());
            }
        }
        let c = rest.get_char(0);
        let b = encode_char(c);
        let ghost tail = old(self)@.subrange(idx as int, n as int);
        proof {
            valid_utf8_split(old(self)@, idx as int);
            self.lemma_len_bound();
            assert(seq![c] + chars.drop_first() =~= chars);
            lemma_encode_concat(seq![c], chars.drop_first());
            encode_utf8_decode_utf8(chars);
            encode_utf8_valid_utf8(chars.drop_first());
            assert(old(self)@.subrange(idx + b@.len(), n as int) =~= tail.subrange(
                b@.len() as int,
                tail.len() as int,
            ));
            assert(tail.subrange(b@.len() as int, tail.len() as int) =~= encode_utf8(
                chars.drop_first(),
            ));
            lemma_empty_valid();
        }
        let empty: Vec<u8> = Vec::new();
        self.replace_bytes(idx, idx + b.len(), empty.as_slice());
        Ok(c)
    }

    /// Removes bytes `start..end` and returns them as a new value. Owned
    /// storage is kept. Fails, changing nothing, when the range is reversed or
    /// past the end, or an end is inside a character.
    pub fn drain(&mut self, start: usize, end: usize) -> (r: Result<Repr, BoundaryError>)
        requires
            old(self).wf(),
        ensures
            final(self).wf(),
            r is Err ==> *final(self) == *old(self),
            r == Err::<Repr, _>(BoundaryError::OutOfBounds) <==> start > end || end > old(
                self,
            )@.len(),
            r == Err::<Repr, _>(BoundaryError::NotCharBoundary) <==> start <= end <= old(
                self,
            )@.len() && !(is_char_boundary(old(self)@, start as int) && is_char_boundary(
                old(self)@,
                end as int,
            )),
            r is Ok ==> {
                &&& r->Ok_0.wf()
                &&& r->Ok_0@ == old(self)@.subrange(start as int, end as int)
                &&& final(self)@ == spliced(old(self)@, start as int, end as int, Seq::empty())
                &&& final(self).variant() == variant_after_room(
                    old(self).variant(),
                    old(self)@.len(),
                )
                &&& old(self).variant() != Variant::Static ==> final(self).spec_capacity()
                    == old(self).spec_capacity()
            },
    {
        let n = self.len();
        if start > end || end > n {
            return Err(BoundaryError::OutOfBounds);
        }
        let s = self.as_str();
        if !s.is_char_boundary(start) || !s.is_char_boundary(end) {
            return Err(BoundaryError::NotCharBoundary);
        }
        proof {
            valid_utf8_split(old(self)@, start as int);
            valid_utf8_split(old(self)@, end as int);
            self.lemma_len_bound();
            lemma_empty_valid();
        }
        let removed = {
            let mid = slice_subrange(self.as_slice(), start, end);
            proof {
                let tail = old(self)@.subrange(start as int, n as int);
                if end < n {
                    is_char_boundary_iff_not_is_continuation_byte(old(self)@, end as int);
                    is_char_boundary_iff_not_is_continuation_byte(tail, (end - start) as int);
                } else {
                    is_char_boundary_start_end_of_seq(tail);
                }
                valid_utf8_split(tail, (end - start) as int);
                assert(tail.subrange(0, (end - start) as int) =~= mid@);
            }
            Repr::from_valid_bytes(mid)
        };
        let empty: Vec<u8> = Vec::new();
        self.replace_bytes(start, end, empty.as_slice());
        Ok(removed)
    }
}


/// `b` written `n` times over.
pub open spec fn repeated(b: Seq<u8>, n: nat) -> Seq<u8>
    decreases n,
{
    if n == 0 {
        Seq::empty()
    } else {
        repeated(b, (n - 1) as nat) + b
    }
}

proof fn lemma_repeated_len(b: Seq<u8>, n: nat)
    ensures
        repeated(b, n).len() == b.len() * n,
    decreases n,
{
    if n > 0 {
        lemma_repeated_len(b, (n - 1) as nat);
        assert(b.len() * n == b.len() * (n - 1) + b.len()) by (nonlinear_arith);
    } else {
        assert(b.len() * n == 0) by (nonlinear_arith)
            requires
                n == 0,
        ;
    }
}

impl Repr {
    /// The content written `times` over, as a new value: inline when it fits,
    /// else on the heap. Fails past `MAX_CAPACITY`.
    pub fn repeat(&self, times: usize) -> (r: Result<Repr, ReserveError>)
        requires
            self.wf(),
        ensures
            r is Err <==> self@.len() * times > MAX_CAPACITY,
            r is Ok ==> {
                let v = r->Ok_0;
                &&& v.wf()
                &&& v@ == repeated(self@, times as nat)
                &&& v.variant() == if self@.len() * times <= MAX_INLINE_LENGTH {
                    Variant::Inline
                } else {
                    Variant::Heap
                }
            },
    {
        let n = self.len();
        if times != 0 && n > MAX_CAPACITY / times {
            proof {
                let q = MAX_CAPACITY as int / times as int;
                let m = MAX_CAPACITY as int % times as int;
                lemma_fundamental_div_mod(MAX_CAPACITY as int, times as int);
                lemma_mod_pos_bound(MAX_CAPACITY as int, times as int);
                assert(n * times > MAX_CAPACITY) by (nonlinear_arith)
                    requires
                        n >= q + 1,
                        times > 0,
                        MAX_CAPACITY == times * q + m,
                        m < times,
                ;
            }
            return Err(ReserveError::CapacityOverflow);
        }
        proof {
            if times != 0 {
                let q = MAX_CAPACITY as int / times as int;
                lemma_fundamental_div_mod(MAX_CAPACITY as int, times as int);
                assert(n * times <= q * times) by (nonlinear_arith)
                    requires
                        n <= q,
                        times > 0,
                ;
            }
        }
        let total = n * times;
        let mut out = match Repr::with_capacity(total) {
            Ok(v) => v,
            Err(e) => {
                return Err(e);
            },
        };
        let bytes = self.as_slice();
        let ghost cap = out.spec_capacity();
        let ghost kind = out.variant();
        let mut i: usize = 0;
        proof {
            assert(repeated(self@, 0) =~= Seq::<u8>::empty());
            encode_utf8_valid_utf8(Seq::<char>::empty());
        }
        while i < times
            invariant
                i <= times,
                total == n * times,
                n == self@.len(),
                bytes@ == self@,
                valid_utf8(self@),
                out.wf(),
                out@ == repeated(self@, i as nat),
                out.variant() == kind,
                out.spec_capacity() == cap,
                total <= cap,
                total <= MAX_CAPACITY,
                kind == if total <= MAX_INLINE_LENGTH {
                    Variant::Inline
                } else {
                    Variant::Heap
                },
            decreases times - i,
        {
            proof {
                lemma_repeated_len(self@, i as nat);
                assert(n * i + n <= n * times) by (nonlinear_arith)
                    requires
                        i < times,
                ;
            }
            out.append_valid(bytes);
            i = i + 1;
        }
        Ok(out)
    }
}



/// The characters of `chars` whose flag in `keep` is set, in order.
pub open spec fn kept(chars: Seq<char>, keep: Seq<bool>) -> Seq<char>
    decreases chars.len(),
{
    if chars.len() == 0 {
        Seq::empty()
    } else {
        kept(chars.drop_last(), keep.drop_last()) + if keep.last() {
            seq![chars.last()]
        } else {
            Seq::empty()
        }
    }
}

/// The bytes of the strings, one after another.
pub open spec fn joined(strs: Seq<&str>) -> Seq<u8>
    decreases strs.len(),
{
    if strs.len() == 0 {
        Seq::empty()
    } else {
        joined(strs.drop_last()) + strs.last().spec_bytes()
    }
}

proof fn lemma_joined_prefix(strs: Seq<&str>, k: int)
    requires
        0 <= k <= strs.len(),
    ensures
        joined(strs.take(k)).len() <= joined(strs).len(),
    decreases strs.len(),
{
    if k == strs.len() {
        assert(strs.take(k) =~= strs);
    } else {
        assert(strs.drop_last().take(k) =~= strs.take(k));
        lemma_joined_prefix(strs.drop_last(), k);
    }
}

/// The bytes of a character are the first scalar of any text it starts.
proof fn lemma_first_char_bytes(chars: Seq<char>)
    requires
        chars.len() > 0,
    ensures
        encode_utf8(chars) == encode_utf8(seq![chars[0]]) + encode_utf8(chars.drop_first()),
{
    assert(seq![chars[0]] + chars.drop_first() =~= chars);
    lemma_encode_concat(seq![chars[0]], chars.drop_first());
}

impl Repr {
    /// Appends the characters in order, deciding the variant once for the
    /// whole addition.
    pub fn extend_chars(&mut self, chars: &[char])
        requires
            old(self).wf(),
            old(self)@.len() + encode_utf8(chars@).len() <= MAX_CAPACITY,
        ensures
            final(self).wf(),
            final(self)@ == old(self)@ + encode_utf8(chars@),
            final(self).variant() == variant_after_room(
                old(self).variant(),
                old(self)@.len() + encode_utf8(chars@).len(),
            ),
            final(self).spec_capacity() == capacity_after_room(
                old(self).variant(),
                old(self).spec_capacity(),
                old(self)@.len() + encode_utf8(chars@).len(),
            ),
    {
        let mut bytes: Vec<u8> = Vec::new();
        let mut i: usize = 0;
        proof {
            assert(chars@.take(0) =~= Seq::<char>::empty());
            assert(encode_utf8(Seq::<char>::empty()) =~= Seq::<u8>::empty());
        }
        while i < chars.len()
            invariant
                i <= chars@.len(),
                bytes@ == encode_utf8(chars@.take(i as int)),
                old(self)@.len() + encode_utf8(chars@).len() <= MAX_CAPACITY,
            decreases chars@.len() - i,
        {
            let c = chars[i];
            let b = encode_char(c);
            proof {
                assert(chars@.take(i + 1) =~= chars@.take(i as int) + seq![c]);
                lemma_encode_concat(chars@.take(i as int), seq![c]);
                assert(chars@.take(i + 1) + chars@.skip(i + 1) =~= chars@);
                lemma_encode_concat(chars@.take(i + 1), chars@.skip(i + 1));
            }
            bytes.extend_from_slice(b.as_slice());
            i = i + 1;
        }
        proof {
            assert(chars@.take(i as int) =~= chars@);
            encode_utf8_valid_utf8(chars@);
        }
        self.append_valid(bytes.as_slice());
    }

    /// Appends the strings in order, deciding the variant once for the whole
    /// addition.
    pub fn extend_str(&mut self, strs: &[&str])
        requires
            old(self).wf(),
            old(self)@.len() + joined(strs@).len() <= MAX_CAPACITY,
        ensures
            final(self).wf(),
            final(self)@ == old(self)@ + joined(strs@),
            final(self).variant() == variant_after_room(
                old(self).variant(),
                old(self)@.len() + joined(strs@).len(),
            ),
            final(self).spec_capacity() == capacity_after_room(
                old(self).variant(),
                old(self).spec_capacity(),
                old(self)@.len() + joined(strs@).len(),
            ),
    {
        let mut bytes: Vec<u8> = Vec::new();
        let mut i: usize = 0;
        proof {
            assert(strs@.take(0) =~= Seq::<&str>::empty());
            lemma_empty_valid();
        }
        while i < strs.len()
            invariant
                i <= strs@.len(),
                bytes@ == joined(strs@.take(i as int)),
                valid_utf8(bytes@),
                old(self)@.len() + joined(strs@).len() <= MAX_CAPACITY,
            decreases strs@.len() - i,
        {
            let t: &str = strs[i];
            proof {
                assert(strs@.take(i + 1).drop_last() =~= strs@.take(i as int));
                lemma_joined_prefix(strs@, i + 1);
                encode_utf8_valid_utf8(t@);
                valid_utf8_concat(bytes@, t.spec_bytes());
            }
            let tb = t.as_bytes();
            bytes.extend_from_slice(tb);
            assert(bytes@ =~= joined(strs@.take(i as int)) + t.spec_bytes());
            i = i + 1;
        }
        proof {
            assert(strs@.take(i as int) =~= strs@);
        }
        self.append_valid(bytes.as_slice());
    }

    /// Keeps the characters for which `f` holds. `f` is called once per
    /// character, first to last, and the kept characters stay in order. Owned
    /// storage is kept.
    pub fn retain<F: Fn(char) -> bool>(&mut self, f: F)
        requires
            old(self).wf(),
            forall|c: char| f.requires((c,)),
        ensures
            final(self).wf(),
            exists|keep: Seq<bool>|
                {
                    &&& keep.len() == decode_utf8(old(self)@).len()
                    &&& forall|j: int|
                        0 <= j < keep.len() ==> f.ensures(
                            (decode_utf8(old(self)@)[j],),
                            #[trigger] keep[j],
                        )
                    &&& final(self)@ == encode_utf8(#[trigger] kept(decode_utf8(old(self)@), keep))
                },
            final(self).variant() == variant_after_room(old(self).variant(), old(self)@.len()),
            old(self).variant() != Variant::Static ==> final(self).spec_capacity()
                == old(self).spec_capacity(),
    {
        let n = self.len();
        let mut out: Vec<u8> = Vec::new();
        let ghost mut keep: Seq<bool> = Seq::empty();
        let ghost chars: Seq<char>;
        let ghost mut i: int = 0;
        {
            let s = self.as_str();
            proof {
                chars = s@;
                encode_utf8_decode_utf8(s@);
                assert(chars.take(0) =~= Seq::<char>::empty());
                assert(encode_utf8(Seq::<char>::empty()) =~= Seq::<u8>::empty());
                assert(chars.subrange(0, chars.len() as int) =~= chars);
            }
            let mut rest: &str = s;
            while !rest.is_empty()
                invariant
                    0 <= i <= chars.len(),
                    rest@ == chars.subrange(i, chars.len() as int),
                    keep.len() == i,
                    forall|j: int| 0 <= j < i ==> f.ensures((chars[j],), keep[j]),
                    forall|c: char| f.requires((c,)),
                    out@ == encode_utf8(kept(chars.take(i), keep)),
                    out@.len() + rest.spec_bytes().len() <= n,
                decreases rest@.len(),
            {
                let c = rest.get_char(0);
                let b = f(c);
                let enc = encode_char(c);
                let ghost rbytes = rest.spec_bytes();
                proof {
                    lemma_first_char_bytes(rest@);
                    encode_utf8_first_scalar(rest@);
                    encode_utf8_valid_utf8(rest@);
                    reveal_with_fuel(encode_utf8, 2);
                    reveal_with_fuel(is_char_boundary, 2);
                    assert(enc@ =~= encode_scalar(c as u32));
                    assert(enc@.len() > 0);
                    assert(is_char_boundary(rbytes, enc@.len() as int));
                    let before = chars.take(i);
                    assert(chars.take(i + 1) =~= before + seq![c]);
                    assert(chars.take(i + 1).drop_last() =~= before);
                    assert(keep.push(b).drop_last() =~= keep);
                    if b {
                        lemma_encode_concat(kept(before, keep), seq![c]);
                    } else {
                        assert(kept(before, keep) + Seq::<char>::empty() =~= kept(before, keep));
                    }
                }
                if b {
                    out.extend_from_slice(enc.as_slice());
                }
                let (_, next) = rest.split_at(enc.len());
                proof {
                    assert(next.spec_bytes() =~= encode_utf8(rest@.drop_first()));
                    encode_utf8_decode_utf8(next@);
                    encode_utf8_decode_utf8(rest@.drop_first());
                    assert(rest@.drop_first() =~= chars.subrange(i + 1, chars.len() as int));
                    keep = keep.push(b);
                    i = i + 1;
                }
                rest = next;
            }
            proof {
                assert(chars.take(i) =~= chars);
            }
        }
        proof {
            self.lemma_len_bound();
            encode_utf8_valid_utf8(kept(chars, keep));
            if out@.len() > 0 {
                lemma_last_byte_below_length_mask(out@);
            }
        }
        self.make_room(n);
        self.splice_tail(0, out.as_slice());
        assert(self@ =~= out@);
    }
}

} // verus!
