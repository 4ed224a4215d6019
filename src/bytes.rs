use vstd::prelude::*;
use vstd::utf8::valid_utf8;

use crate::layout::{LENGTH_MASK, MAX_CAPACITY, MAX_INLINE_LENGTH, MAX_SIZE};
use crate::repr::{lemma_last_byte_below_length_mask, lemma_max_capacity_bound, Repr, Variant};
use crate::utf8::{check_utf8, Utf8Error};

verus! {

/// The bytes of a chunked source, chunk after chunk.
pub open spec fn flatten(chunks: Seq<Seq<u8>>) -> Seq<u8>
    decreases chunks.len(),
{
    if chunks.len() == 0 {
        Seq::empty()
    } else {
        flatten(chunks.drop_last()) + chunks.last()
    }
}

/// The chunks as byte sequences.
pub open spec fn chunk_views(chunks: Seq<Vec<u8>>) -> Seq<Seq<u8>> {
    chunks.map_values(|c: Vec<u8>| c@)
}

/// A prefix of the chunks holds no more bytes than all of them.
pub proof fn lemma_flatten_prefix_len(chunks: Seq<Seq<u8>>, k: int)
    requires
        0 <= k <= chunks.len(),
    ensures
        flatten(chunks.take(k)).len() <= flatten(chunks).len(),
    decreases chunks.len(),
{
    if k == chunks.len() {
        assert(chunks.take(k) =~= chunks);
    } else {
        assert(chunks.drop_last().take(k) =~= chunks.take(k));
        lemma_flatten_prefix_len(chunks.drop_last(), k);
    }
}

/// The variant that ingesting `b` ends in: the heap past `MAX_SIZE` bytes,
/// or at exactly `MAX_SIZE` when the last byte cannot end UTF-8 (and so
/// cannot sit in the discriminator); inline otherwise.
pub open spec fn ingest_variant(b: Seq<u8>) -> Variant {
    if b.len() > MAX_SIZE || (b.len() == MAX_SIZE && b[MAX_SIZE - 1] >= LENGTH_MASK) {
        Variant::Heap
    } else {
        Variant::Inline
    }
}

impl Repr {
    /// Copies the chunks into a new value, chunk by chunk, without checking
    /// that they form UTF-8; also returns the number of bytes written.
    ///
    /// A byte that cannot end UTF-8 (`LENGTH_MASK` or above, `HEAP_MASK`
    /// among them) must not land in the discriminator of an inline value,
    /// where it would be read as a tag: before such a byte is written there,
    /// the value is moved to the heap. So the value always decodes to exactly
    /// the bytes that were read.
    pub fn collect_buf(chunks: &[Vec<u8>]) -> (r: (Repr, usize))
        requires
            flatten(chunk_views(chunks@)).len() <= MAX_CAPACITY,
        ensures
            r.0.well_classified(),
            r.0.variant() == ingest_variant(flatten(chunk_views(chunks@))),
            r.0@ == flatten(chunk_views(chunks@)),
            r.1 == r.0@.len(),
    {
        let ghost views = chunk_views(chunks@);
        let mut repr = Repr::new_empty();
        let mut written: usize = 0;
        let mut k: usize = 0;
        proof {
            lemma_max_capacity_bound();
            assert(views.take(0) =~= Seq::<Seq<u8>>::empty());
        }
        while k < chunks.len()
            invariant
                views == chunk_views(chunks@),
                flatten(views).len() <= MAX_CAPACITY,
                MAX_CAPACITY >= 0xFF_FFFF,
                k <= chunks@.len(),
                repr.well_classified(),
                repr.variant() == ingest_variant(repr@),
                repr@ == flatten(views.take(k as int)),
                written == repr@.len(),
            decreases chunks@.len() - k,
        {
            let chunk = &chunks[k];
            let clen = chunk.len();
            proof {
                assert(views.take(k + 1).drop_last() =~= views.take(k as int));
                assert(views.take(k + 1).last() == chunk@);
                lemma_flatten_prefix_len(views, k + 1);
            }
            let total = written + clen;
            let ghost before = repr@;
            let ghost after = before + chunk@;
            proof {
                if written >= MAX_SIZE {
                    assert(after[MAX_SIZE - 1] == before[MAX_SIZE - 1]);
                }
                if written < MAX_SIZE && total == MAX_SIZE {
                    assert(after[MAX_SIZE - 1] == chunk@[clen - 1]);
                }
            }
            if written < MAX_SIZE && total == MAX_SIZE && chunk[clen - 1] >= LENGTH_MASK {
                repr.make_room(MAX_SIZE + 1);
            }
            repr.make_room(total);
            proof {
                if repr.variant() == Variant::Inline && total == MAX_SIZE {
                    if clen == 0 {
                        repr.lemma_packed_last();
                        assert(repr@.subrange(0, written as int) + chunk@ =~= repr@);
                    } else {
                        assert((repr@.subrange(0, written as int) + chunk@).last() == chunk@.last());
                    }
                }
            }
            repr.splice_tail(written, chunk.as_slice());
            assert(repr@ =~= after);
            written = total;
            k = k + 1;
            assert(repr@ =~= flatten(views.take(k as int)));
        }
        assert(views.take(k as int) =~= views);
        (repr, written)
    }

    /// Reads a chunked source into a new value and checks that the bytes form
    /// UTF-8: inline when they fit, else on the heap. Fails when they are not
    /// UTF-8, giving the length of the longest well-formed prefix.
    pub fn from_utf8_buf(chunks: &[Vec<u8>]) -> (r: Result<Repr, Utf8Error>)
        requires
            flatten(chunk_views(chunks@)).len() <= MAX_CAPACITY,
        ensures
            r is Ok <==> valid_utf8(flatten(chunk_views(chunks@))),
            r is Ok ==> {
                let v = r->Ok_0;
                &&& v.wf()
                &&& v@ == flatten(chunk_views(chunks@))
                &&& v.variant() == if v@.len() <= MAX_INLINE_LENGTH {
                    Variant::Inline
                } else {
                    Variant::Heap
                }
            },
            r is Err ==> {
                let b = flatten(chunk_views(chunks@));
                let off = r->Err_0.valid_up_to as int;
                &&& off <= b.len()
                &&& valid_utf8(b.subrange(0, off))
                &&& forall|j: int| off < j <= b.len() ==> !valid_utf8(#[trigger] b.subrange(0, j))
            },
    {
        let (repr, _written) = Repr::collect_buf(chunks);
        let checked = check_utf8(repr.as_slice());
        match checked {
            Ok(_) => {},
            Err(off) => {
                return Err(Utf8Error { valid_up_to: off });
            },
        }
        proof {
            if repr@.len() > 0 {
                lemma_last_byte_below_length_mask(repr@);
            }
        }
        Ok(repr)
    }

    /// Reads a chunked source that is known to hold UTF-8 into a new value:
    /// inline when it fits, else on the heap.
    pub fn from_utf8_buf_unchecked(chunks: &[Vec<u8>]) -> (r: Repr)
        requires
            flatten(chunk_views(chunks@)).len() <= MAX_CAPACITY,
            valid_utf8(flatten(chunk_views(chunks@))),
        ensures
            r.wf(),
            r@ == flatten(chunk_views(chunks@)),
            r.variant() == if r@.len() <= MAX_INLINE_LENGTH {
                Variant::Inline
            } else {
                Variant::Heap
            },
    {
        let (repr, _written) = Repr::collect_buf(chunks);
        proof {
            if repr@.len() > 0 {
                lemma_last_byte_below_length_mask(repr@);
            }
        }
        repr
    }
}

} // verus!
