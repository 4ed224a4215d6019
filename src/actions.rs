use vstd::prelude::*;
use vstd::string::{StrSliceExecFns, StringSliceAdditionalSpecFns};
use vstd::arithmetic::div_mod::lemma_small_mod;
use vstd::utf8::encode_utf8;

verus! {

/// One step applied alike to a compact string and to a reference string.
#[derive(Debug)]
pub enum Action<'a> {
    /// Push a character.
    Push(char),
    /// Pop a number of characters.
    Pop(u8),
    /// Push a string.
    PushStr(&'a str),
    /// Extend with a collection of characters.
    ExtendChars(Vec<char>),
    /// Extend with a collection of strings.
    ExtendStr(Vec<&'a str>),
    /// Compare a subslice of both strings.
    CheckSubslice(u8, u8),
    /// Make both strings ASCII uppercase.
    MakeUppercase,
    /// Replace the range between two character indices with a string.
    ReplaceRange(u8, u8, &'a str),
    /// Reserve space.
    Reserve(u16),
    /// Truncate to a character index.
    Truncate(u8),
    /// Insert a string at a character index.
    InsertStr(u8, &'a str),
    /// Insert a character at a character index.
    Insert(u8, char),
    /// Reduce the length to zero.
    Clear,
    /// Split at a character index.
    SplitOff(u8),
    /// Remove the range between two character indices.
    Drain(u8, u8),
    /// Remove the character at a character index.
    Remove(u8),
    /// Reserve, then shrink to a smaller capacity, then shrink to fit.
    ShrinkTo(u16, u16),
    /// Remove every nth character, and every character above a code point.
    Retain(u8, char),
    /// Replace each string by a clone of it.
    CloneAndDrop,
    /// Convert to bytes and back.
    RoundTripIntoBytes,
    /// Repeat the string.
    Repeat(usize),
    /// Zero out the storage.
    Zeroize,
}

/// The byte offset of character number `idx`, counting the end of `s` as one
/// more position and wrapping around past it.

pub fn to_index(s: &str, idx: u8) -> (r: usize)
    ensures
        r == encode_utf8(s@.subrange(0, idx as int % (s@.len() + 1) as int)).len(),
{
    let n = s.unicode_len();
    let j = if n == usize::MAX { idx as usize } else { idx as usize % (n + 1) };
    proof {
        if n == usize::MAX {
            lemma_small_mod(idx as nat, (n + 1) as nat);
        }
        assert(j == idx as int % (s@.len() + 1) as int);
    }
    s.substring_char(0, j).as_bytes().len()
}

} // verus!
