use vstd::prelude::*;
use vstd::string::StringSliceAdditionalSpecFns;
use vstd::utf8::{encode_utf8, encode_utf8_valid_utf8, valid_utf8};

verus! {

/// Returned when bytes are not well-formed UTF-8: `valid_up_to` is the length
/// of the longest prefix that is.
#[derive(Clone, Copy, Debug, PartialEq, Eq, Structural)]
pub struct Utf8Error {
    pub valid_up_to: usize,
}

/// Relies on `core::str::from_utf8`: it succeeds exactly on well-formed UTF-8,
/// and then views the same bytes as a string slice. On failure,
/// `Utf8Error::valid_up_to` is the largest index up to which the bytes are
/// well-formed UTF-8.
#[verifier::external_body]
pub(crate) fn check_utf8(b: &[u8]) -> (r: Result<&str, usize>)
    ensures
        r is Ok == valid_utf8(b@),
        r is Ok ==> r->Ok_0.spec_bytes() == b@,
        r is Err ==> {
            let off = r->Err_0 as int;
            &&& off <= b@.len()
            &&& valid_utf8(b@.subrange(0, off))
            &&& forall|j: int| off < j <= b@.len() ==> !valid_utf8(#[trigger] b@.subrange(0, j))
        },
{
    match core::str::from_utf8(b) {
        Ok(s) => Ok(s),
        Err(e) => Err(e.valid_up_to()),
    }
}

} // verus!

verus! {

/// Relies on `char::encode_utf8`: the UTF-8 bytes of one character.
#[verifier::external_body]
pub(crate) fn encode_char(c: char) -> (r: Vec<u8>)
    ensures
        r@ == encode_utf8(seq![c]),
{
    let mut b = [0u8; 4];
    c.encode_utf8(&mut b).as_bytes().to_vec()
}

/// The encoding of a concatenation is the concatenation of the encodings.
pub proof fn lemma_encode_concat(a: Seq<char>, b: Seq<char>)
    ensures
        encode_utf8(a + b) == encode_utf8(a) + encode_utf8(b),
    decreases a.len(),
{
    if a.len() == 0 {
        assert(a + b =~= b);
        assert(encode_utf8(a) + encode_utf8(b) =~= encode_utf8(b));
    } else {
        assert((a + b).drop_first() =~= a.drop_first() + b);
        lemma_encode_concat(a.drop_first(), b);
        assert(encode_utf8(a + b) =~= encode_utf8(a) + encode_utf8(b));
    }
}

/// The empty byte string is well-formed UTF-8.
pub proof fn lemma_empty_valid()
    ensures
        valid_utf8(Seq::<u8>::empty()),
{
    encode_utf8_valid_utf8(Seq::<char>::empty());
    assert(encode_utf8(Seq::<char>::empty()) =~= Seq::<u8>::empty());
}

} // verus!
