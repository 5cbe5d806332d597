//! The versioned key-value store as the stages see it: an append-only list of
//! writes, read by "latest value under this key".

use vstd::prelude::*;
use crate::text::join;

verus! {

/// One write: a new version of `key`, tagged with the ordinal it was written at.
#[derive(Debug, PartialEq, Eq)]
pub struct StoreWrite {
    pub ordinal: u64,
    pub key: String,
    pub value: Vec<u8>,
}

pub struct WriteView {
    pub ordinal: u64,
    pub key: Seq<char>,
    pub value: Seq<u8>,
}

/// A store entry that does not hold what its key promises. Nothing can be
/// derived from a store in this state.
#[derive(Clone, Copy, Debug, PartialEq, Eq, Structural)]
pub enum StoreError {
    Corrupt,
}

impl View for StoreWrite {
    type V = WriteView;

    open spec fn view(&self) -> WriteView {
        WriteView { ordinal: self.ordinal, key: self.key@, value: self.value@ }
    }
}

pub open spec fn writes_view(writes: Seq<StoreWrite>) -> Seq<WriteView> {
    Seq::new(writes.len(), |i: int| writes[i]@)
}

/// The value of the most recent write under `key`, if there is one.
pub open spec fn latest(writes: Seq<WriteView>, key: Seq<char>) -> Option<Seq<u8>>
    decreases writes.len(),
{
    if writes.len() == 0 {
        None
    } else if writes.last().key == key {
        Some(writes.last().value)
    } else {
        latest(writes.drop_last(), key)
    }
}

/// An in-memory store: every write ever made, oldest first.
pub struct Store {
    pub writes: Vec<StoreWrite>,
}

impl View for Store {
    type V = Seq<WriteView>;

    open spec fn view(&self) -> Seq<WriteView> {
        writes_view(self.writes@)
    }
}

impl Store {
    /// A store without entries.
    pub fn new() -> (store: Store)
        ensures
            store@ == Seq::<WriteView>::empty(),
    {
        let store = Store { writes: Vec::new() };
        assert(store@ =~= Seq::<WriteView>::empty());
        store
    }

    /// Appends a new version of `key`.
    pub fn set(&mut self, ordinal: u64, key: String, value: Vec<u8>)
        ensures
            final(self)@ == old(self)@.push(WriteView { ordinal, key: key@, value: value@ }),
    {
        let write = StoreWrite { ordinal, key, value };
        self.writes.push(write);
        assert(self@ =~= old(self)@.push(write@));
    }

    /// Appends one write.
    pub fn apply(&mut self, write: StoreWrite)
        ensures
            final(self)@ == old(self)@.push(write@),
    {
        self.writes.push(write);
        assert(self@ =~= old(self)@.push(write@));
    }

    /// Appends the writes, in order.
    pub fn apply_all(&mut self, writes: Vec<StoreWrite>)
        ensures
            final(self)@ == old(self)@ + writes_view(writes@),
    {
        let ghost added = writes_view(writes@);
        let mut writes = writes;
        self.writes.append(&mut writes);
        assert(self@ =~= old(self)@ + added);
    }

    /// The most recent value written under `key`.
    pub fn get_last(&self, key: &str) -> (found: Option<&Vec<u8>>)
        ensures
            match found {
                Some(value) => latest(self@, key@) == Some(value@),
                None => latest(self@, key@).is_none(),
            },
    {
        let wanted = String::from_str(key);
        let mut i: usize = self.writes.len();
        assert(self@.subrange(0, i as int) =~= self@);
        while i > 0
            invariant
                i <= self.writes.len(),
                wanted@ == key@,
                latest(self@, key@) == latest(self@.subrange(0, i as int), key@),
            decreases i,
        {
            let write = &self.writes[i - 1];
            proof {
                let prefix = self@.subrange(0, i as int);
                assert(prefix.last() == write@);
                assert(prefix.drop_last() =~= self@.subrange(0, i - 1));
            }
            if write.key.eq(&wanted) {
                return Some(&write.value);
            }
            i = i - 1;
        }
        assert(self@.subrange(0, 0).len() == 0);
        None
    }
}

/// The key of a pair's primary record.
pub open spec fn pair_key(address: Seq<char>) -> Seq<char> {
    "pair:"@ + address
}

/// The key under which a token's metadata is stored.
pub open spec fn token_key(address: Seq<char>) -> Seq<char> {
    "token:"@ + address
}

pub fn make_pair_key(address: &str) -> (key: String)
    ensures
        key@ == pair_key(address@),
{
    join("pair:", address)
}

pub fn make_token_key(address: &str) -> (key: String)
    ensures
        key@ == token_key(address@),
{
    join("token:", address)
}


/// Whether `a` comes before `b` in the order of their bytes: at the first
/// position where they differ `a` holds the smaller byte, or `a` ends first.
pub open spec fn lex_less(a: Seq<u8>, b: Seq<u8>) -> bool
    decreases a.len(),
{
    if b.len() == 0 {
        false
    } else if a.len() == 0 {
        true
    } else if a[0] != b[0] {
        a[0] < b[0]
    } else {
        lex_less(a.subrange(1, a.len() as int), b.subrange(1, b.len() as int))
    }
}

/// Whether `a` comes before `b` in the order of their bytes.
pub fn bytes_before(a: &[u8], b: &[u8]) -> (before: bool)
    ensures
        before == lex_less(a@, b@),
{
    let mut i: usize = 0;
    assert(a@.subrange(0, a@.len() as int) =~= a@);
    assert(b@.subrange(0, b@.len() as int) =~= b@);
    while i < a.len() && i < b.len()
        invariant
            i <= a@.len(),
            i <= b@.len(),
            lex_less(a@, b@) == lex_less(
                a@.subrange(i as int, a@.len() as int),
                b@.subrange(i as int, b@.len() as int),
            ),
        decreases a@.len() - i,
    {
        let ghost ra = a@.subrange(i as int, a@.len() as int);
        let ghost rb = b@.subrange(i as int, b@.len() as int);
        assert(ra[0] == a@[i as int] && rb[0] == b@[i as int]);
        assert(ra.subrange(1, ra.len() as int) =~= a@.subrange(i + 1, a@.len() as int));
        assert(rb.subrange(1, rb.len() as int) =~= b@.subrange(i + 1, b@.len() as int));
        if a[i] != b[i] {
            return a[i] < b[i];
        }
        i = i + 1;
    }
    i < b.len()
}

/// The pair of token addresses in canonical order, joined by a colon: the
/// address whose UTF-8 bytes come first in byte order stands first.
pub open spec fn canonical_tokens(token0: Seq<char>, token1: Seq<char>) -> Seq<char> {
    if lex_less(vstd::utf8::encode_utf8(token1), vstd::utf8::encode_utf8(token0)) {
        token1 + ":"@ + token0
    } else {
        token0 + ":"@ + token1
    }
}

/// The canonical composite of two token addresses.
pub fn generate_tokens_key(token0: &str, token1: &str) -> (key: String)
    ensures
        key@ == canonical_tokens(token0@, token1@),
{
    if bytes_before(token1.as_bytes(), token0.as_bytes()) {
        let head = join(token1, ":");
        join(head.as_str(), token0)
    } else {
        let head = join(token0, ":");
        join(head.as_str(), token1)
    }
}

/// The key of the lookup index from a pair's tokens to the pair.
pub open spec fn tokens_key(token0: Seq<char>, token1: Seq<char>) -> Seq<char> {
    "tokens:"@ + canonical_tokens(token0, token1)
}

/// The key of the price of `base` in `quote`.
pub open spec fn price_key(base: Seq<char>, quote: Seq<char>) -> Seq<char> {
    "price:"@ + base + ":"@ + quote
}

/// The key of a pair's reserve of one of its tokens.
pub open spec fn reserve_key(pair: Seq<char>, token: Seq<char>) -> Seq<char> {
    "reserve:"@ + pair + ":"@ + token
}

pub fn make_tokens_key(token0: &str, token1: &str) -> (key: String)
    ensures
        key@ == tokens_key(token0@, token1@),
{
    let tail = generate_tokens_key(token0, token1);
    join("tokens:", tail.as_str())
}

pub fn make_price_key(base: &str, quote: &str) -> (key: String)
    ensures
        key@ == price_key(base@, quote@),
{
    let a = join("price:", base);
    let b = join(a.as_str(), ":");
    join(b.as_str(), quote)
}

pub fn make_reserve_key(pair: &str, token: &str) -> (key: String)
    ensures
        key@ == reserve_key(pair@, token@),
{
    let a = join("reserve:", pair);
    let b = join(a.as_str(), ":");
    join(b.as_str(), token)
}

} // verus!
