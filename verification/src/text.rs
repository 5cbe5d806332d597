//! Lowercase hexadecimal rendering of byte strings.

use vstd::prelude::*;

verus! {

/// The lowercase hexadecimal digit that stands for a value below sixteen.
pub open spec fn hex_digit(n: int) -> char {
    seq!['0', '1', '2', '3', '4', '5', '6', '7', '8', '9', 'a', 'b', 'c', 'd', 'e', 'f'][n]
}

/// Two lowercase hexadecimal digits per byte, the high half first.
pub open spec fn hex_text(bytes: Seq<u8>) -> Seq<char> {
    Seq::new(
        2 * bytes.len(),
        |i: int|
            if i % 2 == 0 {
                hex_digit(bytes[i / 2] as int / 16)
            } else {
                hex_digit(bytes[i / 2] as int % 16)
            },
    )
}

/// Calls `hex::encode`. Trusted: the result is the lowercase rendering of the
/// bytes, two digits for each byte in order, the high four bits first.
#[verifier::external_body]
pub(crate) fn hex_encode(bytes: &[u8]) -> (text: String)
    ensures
        text@ == hex_text(bytes@),
{
    hex::encode(bytes)
}

/// Renders an address or a hash as lowercase hexadecimal text.
pub fn address_pretty(bytes: &[u8]) -> (text: String)
    ensures
        text@ == hex_text(bytes@),
        text@.len() == 2 * bytes@.len(),
{
    hex_encode(bytes)
}

/// Whether the bytes render as the given lowercase hexadecimal text.
pub fn renders_as(bytes: &[u8], known: &str) -> (same: bool)
    ensures
        same == (hex_text(bytes@) == known@),
{
    let text = hex_encode(bytes);
    let wanted = String::from_str(known);
    text.eq(&wanted)
}

/// Joins two pieces of text.
pub fn join(head: &str, tail: &str) -> (text: String)
    ensures
        text@ == head@ + tail@,
{
    let mut text = String::from_str(head);
    text.append(tail);
    text
}

} // verus!
