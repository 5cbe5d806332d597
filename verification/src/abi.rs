//! Decoding of ABI-encoded words and dynamic strings.

use vstd::prelude::*;

verus! {

/// The number that the bytes spell, most significant byte first.
pub open spec fn be_value(bytes: Seq<u8>) -> nat
    decreases bytes.len(),
{
    if bytes.len() == 0 {
        0
    } else {
        be_value(bytes.drop_last()) * 256 + bytes.last() as nat
    }
}

/// Whether the first `n` bytes are all zero.
pub open spec fn leading_zeros(bytes: Seq<u8>, n: int) -> bool {
    forall|i: int| 0 <= i < n ==> bytes[i] == 0
}

/// The unsigned 32-bit number in the low four bytes of a 32-byte word.
pub open spec fn low_u32(word: Seq<u8>) -> nat {
    (word[28] as nat) * 16777216 + (word[29] as nat) * 65536 + (word[30] as nat) * 256
        + word[31] as nat
}

/// Reads the low four bytes of a 32-byte word as a big-endian number.
pub fn decode_uint32(word: &[u8]) -> (value: u32)
    requires
        word@.len() == 32,
    ensures
        value as nat == low_u32(word@),
{
    let a: u32 = word[28] as u32;
    let b: u32 = word[29] as u32;
    let c: u32 = word[30] as u32;
    let d: u32 = word[31] as u32;
    a * 16777216 + b * 65536 + c * 256 + d
}

fn zero_prefix(bytes: &[u8], n: usize) -> (zero: bool)
    requires
        n <= bytes@.len(),
    ensures
        zero == leading_zeros(bytes@, n as int),
{
    let mut i: usize = 0;
    while i < n
        invariant
            i <= n <= bytes@.len(),
            leading_zeros(bytes@, i as int),
        decreases n - i,
    {
        if bytes[i] != 0 {
            return false;
        }
        i = i + 1;
    }
    true
}


/// The text that a lossy UTF-8 decoding of the bytes gives.
pub uninterp spec fn lossy_text(bytes: Seq<u8>) -> Seq<char>;

/// Calls `String::from_utf8_lossy`. Trusted: the text depends on the bytes
/// alone, and bytes that are valid UTF-8 give the text they encode. What
/// invalid bytes give is not spelled out here.
#[verifier::external_body]
pub(crate) fn text_from_utf8(bytes: &[u8]) -> (text: String)
    ensures
        text@ == lossy_text(bytes@),
        vstd::utf8::valid_utf8(bytes@) ==> text@ == vstd::utf8::decode_utf8(bytes@),
{
    String::from_utf8_lossy(bytes).into_owned()
}

/// The length that a dynamic string's payload declares for its text.
pub open spec fn declared_len(raw: Seq<u8>) -> nat {
    low_u32(raw.subrange(32, 64))
}

/// A dynamic string payload is well formed where it holds the offset word, the
/// length word and a data region, the length fits in 32 bits, and the declared
/// text lies within the payload.
pub open spec fn string_ok(raw: Seq<u8>) -> bool {
    &&& raw.len() >= 96
    &&& leading_zeros(raw.subrange(32, 64), 28)
    &&& 64 + declared_len(raw) <= raw.len()
}

/// The bytes of the text that a well-formed payload carries.
pub open spec fn string_bytes(raw: Seq<u8>) -> Seq<u8> {
    raw.subrange(64, 64 + declared_len(raw) as int)
}

/// Decodes a dynamic string: the offset word is passed over, the length word
/// says how many bytes of text follow it.
pub fn decode_string(raw: &[u8]) -> (text: Option<String>)
    ensures
        text.is_some() == string_ok(raw@),
        text matches Some(s) ==> s@ == lossy_text(string_bytes(raw@)),
        text matches Some(s) ==> (vstd::utf8::valid_utf8(string_bytes(raw@)) ==> s@
            == vstd::utf8::decode_utf8(string_bytes(raw@))),
{
    if raw.len() < 96 {
        return None;
    }
    let field = vstd::slice::slice_subrange(raw, 32, 64);
    if !zero_prefix(field, 28) {
        return None;
    }
    let size: u32 = decode_uint32(field);
    let size: usize = size as usize;
    if size > raw.len() - 64 {
        return None;
    }
    let data = vstd::slice::slice_subrange(raw, 64, 64 + size);
    Some(text_from_utf8(data))
}

/// A copy of the bytes.
pub fn copy_bytes(bytes: &[u8]) -> (copy: Vec<u8>)
    ensures
        copy@ == bytes@,
{
    let mut copy: Vec<u8> = Vec::new();
    let mut i: usize = 0;
    while i < bytes.len()
        invariant
            i <= bytes@.len(),
            copy@ == bytes@.subrange(0, i as int),
        decreases bytes@.len() - i,
    {
        copy.push(bytes[i]);
        assert(copy@ =~= bytes@.subrange(0, i + 1));
        i = i + 1;
    }
    assert(copy@ =~= bytes@);
    copy
}

} // verus!
