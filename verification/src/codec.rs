//! The bytes that records are stored as: numbers as eight bytes, most
//! significant first; text as the number of its UTF-8 bytes, then the bytes.

use vstd::prelude::*;
use vstd::utf8::{decode_utf8, encode_utf8, valid_utf8};
use crate::abi::{be_value, lossy_text, text_from_utf8};
use crate::records::{Pair, PairView, Token, TokenView};

verus! {

pub open spec fn pow256(n: nat) -> nat
    decreases n,
{
    if n == 0 {
        1
    } else {
        256 * pow256((n - 1) as nat)
    }
}

/// The `n` bytes that spell `v`, most significant first.
pub open spec fn be_bytes(v: nat, n: nat) -> Seq<u8>
    decreases n,
{
    if n == 0 {
        Seq::empty()
    } else {
        be_bytes(v / 256, (n - 1) as nat).push((v % 256) as u8)
    }
}

pub proof fn lemma_be_bytes_value(v: nat, n: nat)
    requires
        v < pow256(n),
    ensures
        be_bytes(v, n).len() == n,
        be_value(be_bytes(v, n)) == v,
    decreases n,
{
    if n > 0 {
        lemma_be_bytes_value(v / 256, (n - 1) as nat);
        assert(be_bytes(v, n).drop_last() =~= be_bytes(v / 256, (n - 1) as nat));
    }
}

pub proof fn lemma_be_bytes_len(v: nat, n: nat)
    ensures
        be_bytes(v, n).len() == n,
    decreases n,
{
    if n > 0 {
        lemma_be_bytes_len(v / 256, (n - 1) as nat);
    }
}

pub open spec fn u64_bytes(v: u64) -> Seq<u8> {
    be_bytes(v as nat, 8)
}

/// The text that stored bytes stand for: what they encode where they are valid
/// UTF-8, and their lossy decoding otherwise.
pub open spec fn text_of(bytes: Seq<u8>) -> Seq<char> {
    if valid_utf8(bytes) {
        decode_utf8(bytes)
    } else {
        lossy_text(bytes)
    }
}

pub open spec fn text_bytes(text: Seq<char>) -> Seq<u8> {
    u64_bytes(encode_utf8(text).len() as u64) + encode_utf8(text)
}

pub open spec fn token_bytes(token: TokenView) -> Seq<u8> {
    text_bytes(token.address) + text_bytes(token.name) + text_bytes(token.symbol) + u64_bytes(
        token.decimals,
    )
}

pub open spec fn pair_bytes(pair: PairView) -> Seq<u8> {
    text_bytes(pair.address) + token_bytes(pair.token0) + token_bytes(pair.token1) + text_bytes(
        pair.creation_transaction_id,
    ) + u64_bytes(pair.block_num) + u64_bytes(pair.log_ordinal)
}

/// The number stored at `at`, and where the next field starts.
pub open spec fn read_u64(bytes: Seq<u8>, at: int) -> Option<(u64, int)> {
    if 0 <= at && at + 8 <= bytes.len() {
        Some((be_value(bytes.subrange(at, at + 8)) as u64, at + 8))
    } else {
        None
    }
}

/// The text stored at `at`, and where the next field starts.
pub open spec fn read_text(bytes: Seq<u8>, at: int) -> Option<(Seq<char>, int)> {
    match read_u64(bytes, at) {
        Some((n, start)) => if start + n <= bytes.len() {
            Some((text_of(bytes.subrange(start, start + n)), start + n))
        } else {
            None
        },
        None => None,
    }
}

/// The token stored at `at`, and where the next field starts.
#[verifier::opaque]
pub open spec fn read_token(bytes: Seq<u8>, at: int) -> Option<(TokenView, int)> {
    match read_text(bytes, at) {
        Some((address, at1)) => match read_text(bytes, at1) {
            Some((name, at2)) => match read_text(bytes, at2) {
                Some((symbol, at3)) => match read_u64(bytes, at3) {
                    Some((decimals, at4)) => Some(
                        (TokenView { address, name, symbol, decimals }, at4),
                    ),
                    None => None,
                },
                None => None,
            },
            None => None,
        },
        None => None,
    }
}

/// The pair stored at `at`, and where the next field starts.
#[verifier::opaque]
pub open spec fn read_pair(bytes: Seq<u8>, at: int) -> Option<(PairView, int)> {
    match read_text(bytes, at) {
        Some((address, at1)) => match read_token(bytes, at1) {
            Some((token0, at2)) => match read_token(bytes, at2) {
                Some((token1, at3)) => match read_text(bytes, at3) {
                    Some((creation_transaction_id, at4)) => match read_u64(bytes, at4) {
                        Some((block_num, at5)) => match read_u64(bytes, at5) {
                            Some((log_ordinal, at6)) => Some(
                                (
                                    PairView {
                                        address,
                                        token0,
                                        token1,
                                        creation_transaction_id,
                                        block_num,
                                        log_ordinal,
                                    },
                                    at6,
                                ),
                            ),
                            None => None,
                        },
                        None => None,
                    },
                    None => None,
                },
                None => None,
            },
            None => None,
        },
        None => None,
    }
}

/// The token that the bytes store, where they store exactly one.
pub open spec fn token_of_bytes(bytes: Seq<u8>) -> Option<TokenView> {
    match read_token(bytes, 0) {
        Some((token, end)) => if end == bytes.len() {
            Some(token)
        } else {
            None
        },
        None => None,
    }
}

/// The pair that the bytes store, where they store exactly one.
pub open spec fn pair_of_bytes(bytes: Seq<u8>) -> Option<PairView> {
    match read_pair(bytes, 0) {
        Some((pair, end)) => if end == bytes.len() {
            Some(pair)
        } else {
            None
        },
        None => None,
    }
}

fn put_be(out: &mut Vec<u8>, v: u64, n: usize)
    ensures
        final(out)@ == old(out)@ + be_bytes(v as nat, n as nat),
    decreases n,
{
    if n > 0 {
        put_be(out, v / 256, n - 1);
        out.push((v % 256) as u8);
        assert(out@ =~= old(out)@ + be_bytes(v as nat, n as nat));
    } else {
        assert(out@ =~= old(out)@ + be_bytes(v as nat, 0));
    }
}

fn put_u64(out: &mut Vec<u8>, v: u64)
    ensures
        final(out)@ == old(out)@ + u64_bytes(v),
{
    put_be(out, v, 8);
}

fn put_text(out: &mut Vec<u8>, text: &str)
    ensures
        final(out)@ == old(out)@ + text_bytes(text@),
        storable_text(text@),
{
    let bytes = text.as_bytes();
    put_u64(out, bytes.len() as u64);
    out.extend_from_slice(bytes);
    assert(out@ =~= old(out)@ + text_bytes(text@));
}

fn put_token(out: &mut Vec<u8>, token: &Token)
    ensures
        final(out)@ == old(out)@ + token_bytes(token@),
        storable_token(token@),
{
    put_text(out, token.address.as_str());
    put_text(out, token.name.as_str());
    put_text(out, token.symbol.as_str());
    put_u64(out, token.decimals);
    assert(out@ =~= old(out)@ + token_bytes(token@));
}

/// The bytes that a token is stored as; they read back as the token.
pub fn encode_token(token: &Token) -> (bytes: Vec<u8>)
    ensures
        bytes@ == token_bytes(token@),
        token_of_bytes(bytes@) == Some(token@),
{
    let mut out: Vec<u8> = Vec::new();
    put_token(&mut out, token);
    assert(out@ =~= token_bytes(token@));
    proof {
        lemma_token_round_trip(token@);
    }
    out
}

/// The bytes that a pair is stored as; they read back as the pair.
pub fn encode_pair(pair: &Pair) -> (bytes: Vec<u8>)
    ensures
        bytes@ == pair_bytes(pair@),
        pair_of_bytes(bytes@) == Some(pair@),
{
    let mut out: Vec<u8> = Vec::new();
    put_text(&mut out, pair.address.as_str());
    put_token(&mut out, &pair.token0);
    put_token(&mut out, &pair.token1);
    put_text(&mut out, pair.creation_transaction_id.as_str());
    put_u64(&mut out, pair.block_num);
    put_u64(&mut out, pair.log_ordinal);
    assert(out@ =~= pair_bytes(pair@));
    proof {
        lemma_pair_round_trip(pair@);
    }
    out
}

fn get_u64(bytes: &[u8], at: usize) -> (found: Option<(u64, usize)>)
    requires
        at <= bytes@.len(),
    ensures
        match found {
            Some((v, next)) => read_u64(bytes@, at as int) == Some((v, next as int)),
            None => read_u64(bytes@, at as int).is_none(),
        },
{
    let total = bytes.len();
    if total - at < 8 {
        return None;
    }
    let ghost field = bytes@.subrange(at as int, at + 8);
    let mut acc: u64 = 0;
    let mut i: usize = 0;
    while i < 8
        invariant
            i <= 8,
            total == bytes@.len(),
            at + 8 <= bytes@.len(),
            field == bytes@.subrange(at as int, at + 8),
            acc as nat == be_value(field.subrange(0, i as int)),
            (acc as nat) < pow256(i as nat),
        decreases 8 - i,
    {
        proof {
            reveal_with_fuel(pow256, 10);
            let next = field.subrange(0, i + 1);
            assert(next.drop_last() =~= field.subrange(0, i as int));
            assert(next.last() == bytes@[at + i]);
        }
        acc = acc * 256 + bytes[at + i] as u64;
        i = i + 1;
    }
    assert(field.subrange(0, 8) =~= field);
    Some((acc, at + 8))
}

fn get_text(bytes: &[u8], at: usize) -> (found: Option<(String, usize)>)
    requires
        at <= bytes@.len(),
    ensures
        match found {
            Some((text, next)) => read_text(bytes@, at as int) == Some((text@, next as int))
                && next <= bytes@.len(),
            None => read_text(bytes@, at as int).is_none(),
        },
{
    let (n, start) = match get_u64(bytes, at) {
        Some(pair) => pair,
        None => {
            return None;
        },
    };
    if n > (bytes.len() - start) as u64 {
        return None;
    }
    let end = start + n as usize;
    let text = text_from_utf8(vstd::slice::slice_subrange(bytes, start, end));
    Some((text, end))
}

fn get_token(bytes: &[u8], at: usize) -> (found: Option<(Token, usize)>)
    requires
        at <= bytes@.len(),
    ensures
        match found {
            Some((token, next)) => read_token(bytes@, at as int) == Some((token@, next as int))
                && next <= bytes@.len(),
            None => read_token(bytes@, at as int).is_none(),
        },
{
    reveal(read_token);
    let (address, at1) = match get_text(bytes, at) {
        Some(pair) => pair,
        None => {
            return None;
        },
    };
    let (name, at2) = match get_text(bytes, at1) {
        Some(pair) => pair,
        None => {
            return None;
        },
    };
    let (symbol, at3) = match get_text(bytes, at2) {
        Some(pair) => pair,
        None => {
            return None;
        },
    };
    let (decimals, at4) = match get_u64(bytes, at3) {
        Some(pair) => pair,
        None => {
            return None;
        },
    };
    Some((Token { address, name, symbol, decimals }, at4))
}

/// Reads back a stored token. Bytes that do not hold exactly one token give
/// none.
pub fn decode_token(bytes: &[u8]) -> (token: Option<Token>)
    ensures
        match token {
            Some(t) => token_of_bytes(bytes@) == Some(t@),
            None => token_of_bytes(bytes@).is_none(),
        },
{
    match get_token(bytes, 0) {
        Some((token, end)) => if end == bytes.len() {
            Some(token)
        } else {
            None
        },
        None => None,
    }
}

/// Reads back a stored pair. Bytes that do not hold exactly one pair give none.
pub fn decode_pair(bytes: &[u8]) -> (pair: Option<Pair>)
    ensures
        match pair {
            Some(p) => pair_of_bytes(bytes@) == Some(p@),
            None => pair_of_bytes(bytes@).is_none(),
        },
{
    reveal(read_pair);
    let (address, at1) = match get_text(bytes, 0) {
        Some(pair) => pair,
        None => {
            return None;
        },
    };
    let (token0, at2) = match get_token(bytes, at1) {
        Some(pair) => pair,
        None => {
            return None;
        },
    };
    let (token1, at3) = match get_token(bytes, at2) {
        Some(pair) => pair,
        None => {
            return None;
        },
    };
    let (creation_transaction_id, at4) = match get_text(bytes, at3) {
        Some(pair) => pair,
        None => {
            return None;
        },
    };
    let (block_num, at5) = match get_u64(bytes, at4) {
        Some(pair) => pair,
        None => {
            return None;
        },
    };
    let (log_ordinal, at6) = match get_u64(bytes, at5) {
        Some(pair) => pair,
        None => {
            return None;
        },
    };
    if at6 != bytes.len() {
        return None;
    }
    Some(Pair { address, token0, token1, creation_transaction_id, block_num, log_ordinal })
}


/// A text can be stored where the number of its UTF-8 bytes fits the length
/// field.
pub open spec fn storable_text(text: Seq<char>) -> bool {
    encode_utf8(text).len() <= u64::MAX
}

pub open spec fn storable_token(token: TokenView) -> bool {
    storable_text(token.address) && storable_text(token.name) && storable_text(token.symbol)
}

pub open spec fn storable_pair(pair: PairView) -> bool {
    &&& storable_text(pair.address)
    &&& storable_token(pair.token0)
    &&& storable_token(pair.token1)
    &&& storable_text(pair.creation_transaction_id)
}

/// A number written between any bytes is read back from where it starts.
pub proof fn lemma_read_back_u64(pre: Seq<u8>, v: u64, post: Seq<u8>)
    ensures
        u64_bytes(v).len() == 8,
        read_u64(pre + u64_bytes(v) + post, pre.len() as int) == Some((v, pre.len() as int + 8)),
{
    reveal_with_fuel(pow256, 10);
    lemma_be_bytes_value(v as nat, 8);
    let all = pre + u64_bytes(v) + post;
    assert(all.subrange(pre.len() as int, pre.len() as int + 8) =~= u64_bytes(v));
}

/// A text written between any bytes is read back from where it starts.
pub proof fn lemma_read_back_text(pre: Seq<u8>, text: Seq<char>, post: Seq<u8>)
    requires
        storable_text(text),
    ensures
        read_text(pre + text_bytes(text) + post, pre.len() as int) == Some(
            (text, pre.len() as int + text_bytes(text).len()),
        ),
{
    let enc = encode_utf8(text);
    let n = enc.len() as u64;
    let all = pre + text_bytes(text) + post;
    lemma_read_back_u64(pre, n, enc + post);
    assert(all =~= pre + u64_bytes(n) + (enc + post));
    assert(all.subrange(pre.len() as int + 8, pre.len() as int + 8 + n as int) =~= enc);
    vstd::utf8::encode_utf8_valid_utf8(text);
    vstd::utf8::encode_utf8_decode_utf8(text);
}

/// A token written between any bytes is read back from where it starts.
pub proof fn lemma_read_back_token(pre: Seq<u8>, token: TokenView, post: Seq<u8>)
    requires
        storable_token(token),
    ensures
        read_token(pre + token_bytes(token) + post, pre.len() as int) == Some(
            (token, pre.len() as int + token_bytes(token).len()),
        ),
{
    reveal(read_token);
    let a = text_bytes(token.address);
    let n = text_bytes(token.name);
    let s = text_bytes(token.symbol);
    let d = u64_bytes(token.decimals);
    let all = pre + token_bytes(token) + post;
    lemma_read_back_text(pre, token.address, n + s + d + post);
    assert(all =~= pre + a + (n + s + d + post));
    lemma_read_back_text(pre + a, token.name, s + d + post);
    assert(all =~= (pre + a) + n + (s + d + post));
    lemma_read_back_text(pre + a + n, token.symbol, d + post);
    assert(all =~= (pre + a + n) + s + (d + post));
    lemma_read_back_u64(pre + a + n + s, token.decimals, post);
    assert(all =~= (pre + a + n + s) + d + post);
}

/// A stored token is read back unchanged.
pub proof fn lemma_token_round_trip(token: TokenView)
    requires
        storable_token(token),
    ensures
        token_of_bytes(token_bytes(token)) == Some(token),
{
    let none = Seq::<u8>::empty();
    lemma_read_back_token(none, token, none);
    assert(none + token_bytes(token) + none =~= token_bytes(token));
}

/// Six pieces in a row, grouped around each piece in turn.
proof fn lemma_regroup(
    a: Seq<u8>,
    t0: Seq<u8>,
    t1: Seq<u8>,
    c: Seq<u8>,
    b: Seq<u8>,
    l: Seq<u8>,
)
    ensures
        a + t0 + t1 + c + b + l == Seq::<u8>::empty() + a + (t0 + t1 + c + b + l),
        a + t0 + t1 + c + b + l == a + t0 + (t1 + c + b + l),
        a + t0 + t1 + c + b + l == (a + t0) + t1 + (c + b + l),
        a + t0 + t1 + c + b + l == (a + t0 + t1) + c + (b + l),
        a + t0 + t1 + c + b + l == (a + t0 + t1 + c) + b + l,
        a + t0 + t1 + c + b + l == (a + t0 + t1 + c + b) + l + Seq::<u8>::empty(),
        (a + t0 + t1 + c + b + l).len() == a.len() + t0.len() + t1.len() + c.len() + b.len()
            + l.len(),
{
    let all = a + t0 + t1 + c + b + l;
    assert(all =~= Seq::<u8>::empty() + a + (t0 + t1 + c + b + l));
    assert(all =~= a + t0 + (t1 + c + b + l));
    assert(all =~= (a + t0) + t1 + (c + b + l));
    assert(all =~= (a + t0 + t1) + c + (b + l));
    assert(all =~= (a + t0 + t1 + c + b) + l + Seq::<u8>::empty());
}

/// What each field of a stored pair reads back as.
proof fn lemma_pair_fields(pair: PairView)
    requires
        storable_pair(pair),
    ensures
        ({
            let all = pair_bytes(pair);
            let at1 = text_bytes(pair.address).len() as int;
            let at2 = at1 + token_bytes(pair.token0).len();
            let at3 = at2 + token_bytes(pair.token1).len();
            let at4 = at3 + text_bytes(pair.creation_transaction_id).len();
            &&& read_text(all, 0) == Some((pair.address, at1))
            &&& read_token(all, at1) == Some((pair.token0, at2))
            &&& read_token(all, at2) == Some((pair.token1, at3))
            &&& read_text(all, at3) == Some((pair.creation_transaction_id, at4))
            &&& read_u64(all, at4) == Some((pair.block_num, at4 + 8))
            &&& read_u64(all, at4 + 8) == Some((pair.log_ordinal, at4 + 16))
            &&& all.len() == at4 + 16
        }),
{
    let a = text_bytes(pair.address);
    let t0 = token_bytes(pair.token0);
    let t1 = token_bytes(pair.token1);
    let c = text_bytes(pair.creation_transaction_id);
    let b = u64_bytes(pair.block_num);
    let l = u64_bytes(pair.log_ordinal);
    let none = Seq::<u8>::empty();
    lemma_regroup(a, t0, t1, c, b, l);
    lemma_read_back_text(none, pair.address, t0 + t1 + c + b + l);
    lemma_read_back_token(a, pair.token0, t1 + c + b + l);
    lemma_read_back_token(a + t0, pair.token1, c + b + l);
    lemma_read_back_text(a + t0 + t1, pair.creation_transaction_id, b + l);
    lemma_read_back_u64(a + t0 + t1 + c, pair.block_num, l);
    lemma_read_back_u64(a + t0 + t1 + c + b, pair.log_ordinal, none);
}

/// A stored pair is read back unchanged.
pub proof fn lemma_pair_round_trip(pair: PairView)
    requires
        storable_pair(pair),
    ensures
        pair_of_bytes(pair_bytes(pair)) == Some(pair),
{
    reveal(read_pair);
    lemma_pair_fields(pair);
}

/// The payload of an entry that holds a text: its UTF-8 bytes.
pub fn encode_text(text: &str) -> (bytes: Vec<u8>)
    ensures
        bytes@ == encode_utf8(text@),
{
    crate::abi::copy_bytes(text.as_bytes())
}

} // verus!
