//! Small byte-level helpers every other module leans on.

use vstd::prelude::*;

verus! {

/// A copy of `input`, byte for byte.
pub fn copy(input: &[u8]) -> (out: Vec<u8>)
    ensures
        out@ == input@,
{
    let mut out: Vec<u8> = Vec::new();
    let mut at: usize = 0;
    while at < input.len()
        invariant
            at <= input@.len(),
            out@ == input@.subrange(0, at as int),
        decreases input@.len() - at,
    {
        out.push(input[at]);
        at = at + 1;
    }
    out
}

/// Append `more` to `out`.
pub fn extend(out: &mut Vec<u8>, more: &[u8])
    ensures
        final(out)@ == old(out)@ + more@,
{
    let mut at: usize = 0;
    while at < more.len()
        invariant
            at <= more@.len(),
            out@ == old(out)@ + more@.subrange(0, at as int),
        decreases more@.len() - at,
    {
        out.push(more[at]);
        at = at + 1;
        assert(more@.subrange(0, at as int) == more@.subrange(0, at - 1).push(more@[at - 1]));
    }
    assert(more@.subrange(0, more@.len() as int) == more@);
}

/// What `String::from_utf8_lossy` makes of bytes that are not UTF-8: their
/// characters, with U+FFFD standing for each run that is not.
pub uninterp spec fn repaired(bytes: Seq<u8>) -> Seq<char>;

/// What `String::from_utf8_lossy` makes of some bytes: the characters they
/// spell where they are UTF-8, and [`repaired`] where they are not.
#[verifier::opaque]
pub open spec fn lossy(bytes: Seq<u8>) -> Seq<char> {
    if vstd::utf8::valid_utf8(bytes) {
        vstd::utf8::decode_utf8(bytes)
    } else {
        repaired(bytes)
    }
}

/// Every byte below 128.
pub open spec fn ascii(bytes: Seq<u8>) -> bool {
    forall|i: int| 0 <= i < bytes.len() ==> #[trigger] bytes[i] < 128
}

/// ASCII bytes, as the characters they are.
pub open spec fn chars_of(bytes: Seq<u8>) -> Seq<char> {
    bytes.map_values(|byte: u8| byte as char)
}

/// Bytes as text, the way a message a person reads shows them.
///
/// Calls `String::from_utf8_lossy` and takes the result as an owned `String`.
/// The contract states what std documents: bytes that are UTF-8 come back as
/// the string they spell — ASCII among them, as the characters its bytes are
/// — and it names what becomes of any other bytes [`repaired`], a function of
/// the bytes alone; which characters stand in for a bad run is left unsaid.
#[verifier::external_body]
pub fn text_of(bytes: &[u8]) -> (text: String)
    ensures
        text@ == lossy(bytes@),
        vstd::utf8::valid_utf8(bytes@) ==> text@ == vstd::utf8::decode_utf8(bytes@),
        !vstd::utf8::valid_utf8(bytes@) ==> text@ == repaired(bytes@),
        ascii(bytes@) ==> text@ == chars_of(bytes@),
{
    String::from_utf8_lossy(bytes).into_owned()
}

} // verus!
