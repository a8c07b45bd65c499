//! Byte order of a container, and 16-bit words read and written in it.

use vstd::prelude::*;

verus! {

/// The byte order that a container declares for all of its multi-byte fields.
#[derive(Debug, Clone, Copy, PartialEq, Eq, Structural)]
pub enum Endianness {
    /// Least significant byte first.
    Little,
    /// Most significant byte first.
    Big,
}

/// The 16-bit word whose first byte in the stream is `first` and whose second is `second`.
pub open spec fn word_of(first: u8, second: u8, endianness: Endianness) -> u16 {
    match endianness {
        Endianness::Little => (first as int + 256 * (second as int)) as u16,
        Endianness::Big => (256 * (first as int) + second as int) as u16,
    }
}

/// The word stored at `pos` and `pos + 1` of `bytes`.
pub open spec fn word_at(bytes: Seq<u8>, pos: int, endianness: Endianness) -> u16
    recommends
        0 <= pos,
        pos + 2 <= bytes.len(),
{
    word_of(bytes[pos], bytes[pos + 1], endianness)
}

/// The two bytes that store `word`.
pub open spec fn word_bytes(word: u16, endianness: Endianness) -> Seq<u8> {
    match endianness {
        Endianness::Little => seq![(word % 256) as u8, (word / 256) as u8],
        Endianness::Big => seq![(word / 256) as u8, (word % 256) as u8],
    }
}

/// Reading back the bytes of a word gives the word.
pub proof fn lemma_word_bytes_roundtrip(word: u16, endianness: Endianness)
    ensures
        word_bytes(word, endianness).len() == 2,
        word_at(word_bytes(word, endianness), 0, endianness) == word,
{
}

/// Storing the word read from two bytes gives the two bytes.
pub proof fn lemma_word_of_roundtrip(first: u8, second: u8, endianness: Endianness)
    ensures
        word_bytes(word_of(first, second, endianness), endianness) == seq![first, second],
{
    assert(word_bytes(word_of(first, second, endianness), endianness) =~= seq![first, second]);
}

/// Reads one word through `byteordered::Endian::read_u16`, called on a
/// `byteordered::Endianness` with the bytes of `bytes` that start at `pos` as
/// its reader. The crate takes two bytes from the reader and combines them
/// in that byte order; the contract states that value. Two bytes must be
/// there to take.
#[verifier::external_body]
pub(crate) fn read_word(bytes: &[u8], pos: usize, endianness: Endianness) -> (word: u16)
    requires
        pos + 2 <= bytes@.len(),
    ensures
        word == word_at(bytes@, pos as int, endianness),
{
    let order = match endianness {
        Endianness::Little => byteordered::Endianness::Little,
        Endianness::Big => byteordered::Endianness::Big,
    };
    byteordered::Endian::read_u16(order, &bytes[pos..]).unwrap()
}

/// Appends one word through `byteordered::Endian::write_u16`, called on a
/// `byteordered::Endianness` with `out` as its writer. The crate lays the
/// word out as two bytes in that byte order and hands them to the vector,
/// which appends them.
#[verifier::external_body]
pub(crate) fn write_word(out: &mut Vec<u8>, word: u16, endianness: Endianness)
    ensures
        final(out)@ == old(out)@ + word_bytes(word, endianness),
{
    let order = match endianness {
        Endianness::Little => byteordered::Endianness::Little,
        Endianness::Big => byteordered::Endianness::Big,
    };
    byteordered::Endian::write_u16(order, out, word).unwrap()
}

} // verus!
