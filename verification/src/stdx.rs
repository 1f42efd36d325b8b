//! Contracts for the few `std` string operations that vstd leaves unspecified.

use vstd::prelude::*;

verus! {

/// What `str::to_lowercase` returns: the Unicode lower-case mapping of every
/// character, which may change the number of characters.
pub uninterp spec fn unicode_lowercase(s: Seq<char>) -> Seq<char>;

/// Calls `str::to_lowercase`. Claimed: the result is the Unicode lower-case
/// mapping of the input, a function of the input characters alone; it is
/// empty only for an empty input (each character maps to one or more
/// characters, as `char::to_lowercase` documents); and an ASCII input maps
/// character by character to its ASCII lower case, as `to_ascii_lowercase`
/// would give (the Unicode mapping of an ASCII character is its ASCII one).
#[verifier::external_body]
pub(crate) fn to_lowercase(s: &str) -> (r: String)
    ensures
        r@ == unicode_lowercase(s@),
        (r@.len() == 0) == (s@.len() == 0),
        vstd::utf8::is_ascii_chars(s@) ==> r@ == s@.map_values(|c: char| crate::text::lower_char(c)),
{
    s.to_lowercase()
}

/// Calls `String::push`. Claimed: the character is appended at the end.
#[verifier::external_body]
pub(crate) fn push_char(s: &mut String, c: char)
    ensures
        final(s)@ == old(s)@.push(c),
{
    s.push(c)
}

} // verus!

verus! {

/// What `rustc_hash::FxHasher` produces for one `write` of `bytes` on a
/// machine whose words are `word_bits` wide.
pub uninterp spec fn fx_hash_of(bytes: Seq<u8>, word_bits: u32) -> u64;

/// Calls `rustc_hash::FxHasher::default`, `write(bytes)` and `finish`.
/// Claimed: the digest depends only on the bytes and on the word size
/// (the hasher is not seeded per process).
#[verifier::external_body]
pub(crate) fn fx_hash(bytes: &[u8]) -> (r: u64)
    ensures
        r == fx_hash_of(bytes@, usize::BITS),
{
    let mut h = rustc_hash::FxHasher::default();
    std::hash::Hasher::write(&mut h, bytes);
    std::hash::Hasher::finish(&h)
}

/// The CRC-32 (IEEE) checksum of a byte sequence.
pub uninterp spec fn crc32_of(bytes: Seq<u8>) -> u32;

/// Calls `crc32fast::hash`. Claimed: the checksum is a function of the
/// bytes alone.
#[verifier::external_body]
pub(crate) fn crc32(bytes: &[u8]) -> (r: u32)
    ensures
        r == crc32_of(bytes@),
{
    crc32fast::hash(bytes)
}

} // verus!

verus! {

/// What `String::from_utf8_lossy` makes of a byte sequence that is not
/// valid UTF-8 (each invalid run replaced by U+FFFD).
pub uninterp spec fn utf8_lossy_invalid(bytes: Seq<u8>) -> Seq<char>;

/// The text `String::from_utf8_lossy` reads from a byte sequence: the
/// decoded characters when the bytes are valid UTF-8.
pub open spec fn utf8_lossy(bytes: Seq<u8>) -> Seq<char> {
    if vstd::utf8::valid_utf8(bytes) {
        vstd::utf8::decode_utf8(bytes)
    } else {
        utf8_lossy_invalid(bytes)
    }
}

/// Calls `String::from_utf8_lossy` and takes ownership of the text.
/// Claimed: valid UTF-8 is decoded as it stands (as the documentation
/// says); otherwise the result depends on the bytes alone.
#[verifier::external_body]
pub(crate) fn string_from_utf8_lossy(bytes: &[u8]) -> (r: String)
    ensures
        vstd::utf8::valid_utf8(bytes@) ==> r@ == vstd::utf8::decode_utf8(bytes@),
        !vstd::utf8::valid_utf8(bytes@) ==> r@ == utf8_lossy_invalid(bytes@),
{
    String::from_utf8_lossy(bytes).into_owned()
}

} // verus!

