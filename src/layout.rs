use vstd::prelude::*;

verus! {

/// Number of bytes in a `Repr`: two machine words on a 64-bit target.
pub const MAX_SIZE: usize = 24;

/// Longest content that is stored inline; a string of exactly `MAX_SIZE` bytes
/// is "packed", its last byte doubling as the discriminator.
pub const MAX_INLINE_LENGTH: usize = 24;

/// Discriminator bits of an inline value shorter than `MAX_SIZE`: the last
/// byte is `LENGTH_MASK | len`.
pub const LENGTH_MASK: u8 = 0xC0;

/// Discriminator of the heap variant. It is never a byte of well-formed UTF-8.
pub const HEAP_MASK: u8 = 0xFF;

/// Discriminator of the borrowed `'static` variant. Never a byte of UTF-8 either.
pub const STATIC_MASK: u8 = 0xFE;

/// Largest heap capacity: the discriminator byte takes the top byte of a word,
/// which leaves `WORD * 8 - 8` bits for the capacity.
pub const MAX_CAPACITY: usize = usize::MAX / 256;

/// Whether `tag` marks a short inline value (the length is in its low bits).
pub open spec fn is_length_tag(tag: u8) -> bool {
    LENGTH_MASK <= tag < LENGTH_MASK + MAX_SIZE
}

} // verus!
