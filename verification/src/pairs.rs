//! Trading pairs: their discovery in the factory's logs, and their store
//! entries.

use vstd::prelude::*;
use crate::block::{is_log, Block, Log, Transaction};
use crate::codec::{decode_token, encode_pair, encode_text, pair_bytes, token_of_bytes};
use crate::records::{Pair, PairView, Token, TokenView, pairs_view, unresolved};
use crate::store::{latest, make_pair_key, make_token_key, make_tokens_key, pair_key, token_key, tokens_key, writes_view, Store, StoreError, StoreWrite, WriteView};
use crate::text::{address_pretty, hex_text, renders_as};

verus! {

/// The factory's address, as lowercase hexadecimal text.
pub open spec fn factory_address() -> Seq<char> {
    "ca143ce32fe78f1f7019d7d551a6402fc5350c73"@
}

/// The signature hash of the event that announces a new pair.
pub open spec fn pair_created_signature() -> Seq<char> {
    "0d3648bd0f6ba80134a33ba9275ac585d9d315f0ad8355cddefde31afa28d0e9"@
}

/// Whether the text is the signature hash of the pair-created event.
pub fn is_pair_created_event(sig: &str) -> (known: bool)
    ensures
        known == (sig@ == pair_created_signature()),
{
    let given = String::from_str(sig);
    let wanted = String::from_str(
        "0d3648bd0f6ba80134a33ba9275ac585d9d315f0ad8355cddefde31afa28d0e9",
    );
    given.eq(&wanted)
}

/// Why a log gave no pair.
#[derive(Clone, Copy, Debug, PartialEq, Eq, Structural)]
pub enum PairSkip {
    /// The transaction was not sent to the factory.
    NotFactory,
    /// The log has no topic, or its first topic is another event's.
    NotPairCreated,
    /// The event's topics or payload are too short to hold the addresses.
    Malformed,
    /// The store's entry for one of the tokens does not hold a token.
    CorruptEntry,
}

/// Whether the store's latest entry for the token at `address` is there but
/// does not hold a token.
pub open spec fn token_entry_corrupt(store: Seq<WriteView>, address: Seq<u8>) -> bool {
    match latest(store, token_key(hex_text(address))) {
        Some(bytes) => token_of_bytes(bytes).is_none(),
        None => false,
    }
}

/// The metadata stored for the token at `address`, or the unresolved reference
/// where the store holds none.
pub open spec fn resolved(store: Seq<WriteView>, address: Seq<u8>) -> TokenView {
    match latest(store, token_key(hex_text(address))) {
        Some(bytes) => match token_of_bytes(bytes) {
            Some(token) => token,
            None => unresolved(hex_text(address)),
        },
        None => unresolved(hex_text(address)),
    }
}

/// Looks a token up in the store by its address. A token that the store does
/// not know comes back unresolved; an entry that holds no token is an error.
pub fn get_token(store: &Store, address: &[u8]) -> (token: Result<Token, StoreError>)
    ensures
        token.is_err() == token_entry_corrupt(store@, address@),
        token matches Ok(t) ==> t@ == resolved(store@, address@),
{
    let text = address_pretty(address);
    let key = make_token_key(text.as_str());
    match store.get_last(key.as_str()) {
        Some(bytes) => match decode_token(bytes.as_slice()) {
            Some(token) => Ok(token),
            None => Err(StoreError::Corrupt),
        },
        None => Ok(Token::placeholder(text)),
    }
}

pub open spec fn sent_to_factory(trx: Transaction) -> bool {
    hex_text(trx.to@) == factory_address()
}

pub open spec fn announces_pair(log: Log) -> bool {
    log.topics@.len() >= 1 && hex_text(log.topics@[0]@) == pair_created_signature()
}

/// A pair-created event names the tokens in two further 32-byte topics and the
/// pair in the first word of its payload.
pub open spec fn pair_shape_ok(log: Log) -> bool {
    &&& log.topics@.len() >= 3
    &&& log.topics@[1]@.len() == 32
    &&& log.topics@[2]@.len() == 32
    &&& log.data@.len() >= 32
}

/// What one log of one transaction gives: the pair it announces, or why none.
pub open spec fn pair_outcome(
    block_num: u64,
    trx: Transaction,
    log: Log,
    store: Seq<WriteView>,
) -> Result<PairView, PairSkip> {
    if !sent_to_factory(trx) {
        Err(PairSkip::NotFactory)
    } else if !announces_pair(log) {
        Err(PairSkip::NotPairCreated)
    } else if !pair_shape_ok(log) {
        Err(PairSkip::Malformed)
    } else if token_entry_corrupt(store, log.topics@[1]@.subrange(12, 32)) || token_entry_corrupt(
        store,
        log.topics@[2]@.subrange(12, 32),
    ) {
        Err(PairSkip::CorruptEntry)
    } else {
        Ok(
            PairView {
                address: hex_text(log.data@.subrange(12, 32)),
                token0: resolved(store, log.topics@[1]@.subrange(12, 32)),
                token1: resolved(store, log.topics@[2]@.subrange(12, 32)),
                creation_transaction_id: hex_text(trx.hash@),
                block_num,
                log_ordinal: log.block_index as u64,
            },
        )
    }
}

/// Whether the transaction was sent to the factory.
pub fn is_factory(trx: &Transaction) -> (known: bool)
    ensures
        known == sent_to_factory(*trx),
{
    renders_as(trx.to.as_slice(), "ca143ce32fe78f1f7019d7d551a6402fc5350c73")
}

/// Decodes one log of one transaction.
pub fn pair_from_log(block_num: u64, trx: &Transaction, log: &Log, store: &Store) -> (outcome:
    Result<Pair, PairSkip>)
    ensures
        match outcome {
            Ok(pair) => pair_outcome(block_num, *trx, *log, store@) == Ok::<PairView, PairSkip>(
                pair@,
            ),
            Err(skip) => pair_outcome(block_num, *trx, *log, store@) == Err::<PairView, PairSkip>(
                skip,
            ),
        },
{
    if !is_factory(trx) {
        return Err(PairSkip::NotFactory);
    }
    pair_from_factory_log(block_num, trx, log, store)
}

fn pair_from_factory_log(block_num: u64, trx: &Transaction, log: &Log, store: &Store) -> (outcome:
    Result<Pair, PairSkip>)
    requires
        sent_to_factory(*trx),
    ensures
        match outcome {
            Ok(pair) => pair_outcome(block_num, *trx, *log, store@) == Ok::<PairView, PairSkip>(
                pair@,
            ),
            Err(skip) => pair_outcome(block_num, *trx, *log, store@) == Err::<PairView, PairSkip>(
                skip,
            ),
        },
{
    if log.topics.len() < 1 {
        return Err(PairSkip::NotPairCreated);
    }
    let sig = address_pretty(log.topics[0].as_slice());
    if !is_pair_created_event(sig.as_str()) {
        return Err(PairSkip::NotPairCreated);
    }
    if log.topics.len() < 3 || log.topics[1].len() != 32 || log.topics[2].len() != 32
        || log.data.len() < 32 {
        return Err(PairSkip::Malformed);
    }
    let address = address_pretty(vstd::slice::slice_subrange(log.data.as_slice(), 12, 32));
    let token0 = match get_token(
        store,
        vstd::slice::slice_subrange(log.topics[1].as_slice(), 12, 32),
    ) {
        Ok(token) => token,
        Err(_) => {
            return Err(PairSkip::CorruptEntry);
        },
    };
    let token1 = match get_token(
        store,
        vstd::slice::slice_subrange(log.topics[2].as_slice(), 12, 32),
    ) {
        Ok(token) => token,
        Err(_) => {
            return Err(PairSkip::CorruptEntry);
        },
    };
    Ok(
        Pair {
            address,
            token0,
            token1,
            creation_transaction_id: address_pretty(trx.hash.as_slice()),
            block_num,
            log_ordinal: log.block_index as u64,
        },
    )
}

/// The pairs that the first `n` logs of a transaction announce, in order.
pub open spec fn pairs_in_logs(
    block_num: u64,
    trx: Transaction,
    store: Seq<WriteView>,
    n: nat,
) -> Seq<PairView>
    decreases n,
{
    if n == 0 {
        Seq::empty()
    } else {
        let before = pairs_in_logs(block_num, trx, store, (n - 1) as nat);
        match pair_outcome(block_num, trx, trx.logs()[n - 1], store) {
            Ok(pair) => before.push(pair),
            Err(_) => before,
        }
    }
}

/// The pairs that the first `n` transactions of a block announce, in order.
pub open spec fn pairs_in(block: Block, store: Seq<WriteView>, n: nat) -> Seq<PairView>
    decreases n,
{
    if n == 0 {
        Seq::empty()
    } else {
        let trx = block.transaction_traces@[n - 1];
        pairs_in(block, store, (n - 1) as nat) + pairs_in_logs(
            block.number,
            trx,
            store,
            trx.logs().len(),
        )
    }
}

/// Every pair that the block announces, in block order.
pub open spec fn pairs_of(block: Block, store: Seq<WriteView>) -> Seq<PairView> {
    pairs_in(block, store, block.transaction_traces@.len())
}

/// A transaction that was not sent to the factory announces no pair.
pub proof fn lemma_no_pairs_elsewhere(
    block_num: u64,
    trx: Transaction,
    store: Seq<WriteView>,
    n: nat,
)
    requires
        !sent_to_factory(trx),
    ensures
        pairs_in_logs(block_num, trx, store, n) == Seq::<PairView>::empty(),
    decreases n,
{
    if n > 0 {
        lemma_no_pairs_elsewhere(block_num, trx, store, (n - 1) as nat);
    }
}

/// Whether the log at position `l` of transaction `t` names a token whose
/// store entry holds no token.
pub open spec fn pair_corrupt_at(block: Block, store: Seq<WriteView>, t: int, l: int) -> bool {
    pair_outcome(
        block.number,
        block.transaction_traces@[t],
        block.transaction_traces@[t].logs()[l],
        store,
    ) == Err::<PairView, PairSkip>(PairSkip::CorruptEntry)
}

/// Whether the extraction meets a store entry that holds no token.
pub open spec fn pairs_corrupt(block: Block, store: Seq<WriteView>) -> bool {
    exists|t: int, l: int| is_log(block, t, l) && #[trigger] pair_corrupt_at(block, store, t, l)
}

/// Scans a block for the pairs that the factory created in it. Tokens are looked
/// up in `store`; one that is not there passes through unresolved. A store
/// entry that holds no token fails the whole extraction.
pub fn map_pairs(block: &Block, store: &Store) -> (outcome: Result<Vec<Pair>, StoreError>)
    ensures
        outcome.is_err() == pairs_corrupt(*block, store@),
        outcome matches Ok(pairs) ==> pairs_view(pairs@) == pairs_of(*block, store@),
{
    let mut pairs: Vec<Pair> = Vec::new();
    let mut t: usize = 0;
    assert(pairs_view(pairs@) =~= pairs_in(*block, store@, 0));
    while t < block.transaction_traces.len()
        invariant
            t <= block.transaction_traces@.len(),
            pairs_view(pairs@) == pairs_in(*block, store@, t as nat),
            forall|t2: int, l2: int|
                0 <= t2 < t && is_log(*block, t2, l2) ==> !#[trigger] pair_corrupt_at(
                    *block,
                    store@,
                    t2,
                    l2,
                ),
        decreases block.transaction_traces@.len() - t,
    {
        let trx = &block.transaction_traces[t];
        let ghost before = pairs_view(pairs@);
        if is_factory(trx) {
            let count = trx.log_count();
            let mut l: usize = 0;
            assert(pairs_view(pairs@) =~= before + pairs_in_logs(block.number, *trx, store@, 0));
            while l < count
                invariant
                    l <= count,
                    count == trx.logs().len(),
                    t < block.transaction_traces@.len(),
                    *trx == block.transaction_traces@[t as int],
                    sent_to_factory(*trx),
                    pairs_view(pairs@) == before + pairs_in_logs(
                        block.number,
                        *trx,
                        store@,
                        l as nat,
                    ),
                    forall|l2: int|
                        0 <= l2 < l ==> !#[trigger] pair_corrupt_at(*block, store@, t as int, l2),
                decreases count - l,
            {
                let log = trx.log_at(l);
                match pair_from_factory_log(block.number, trx, log, store) {
                    Ok(pair) => {
                        let ghost earlier = pairs@;
                        pairs.push(pair);
                        assert(pairs_view(pairs@) =~= pairs_view(earlier).push(pair@));
                        assert(pairs_view(pairs@) =~= before + pairs_in_logs(
                            block.number,
                            *trx,
                            store@,
                            (l + 1) as nat,
                        ));
                    },
                    Err(PairSkip::CorruptEntry) => {
                        assert(is_log(*block, t as int, l as int));
                        assert(pair_corrupt_at(*block, store@, t as int, l as int));
                        return Err(StoreError::Corrupt);
                    },
                    Err(_) => {},
                }
                l = l + 1;
            }
        } else {
            proof {
                lemma_no_pairs_elsewhere(block.number, *trx, store@, trx.logs().len());
                assert(before + Seq::<PairView>::empty() =~= before);
            }
        }
        t = t + 1;
    }
    Ok(pairs)
}

/// The two store entries of a pair, both at the pair's log ordinal: the stored
/// form of the record under the pair's key, and the pair's address under its
/// tokens' key.
pub open spec fn pair_writes(pair: PairView) -> Seq<WriteView> {
    seq![
        WriteView {
            ordinal: pair.log_ordinal,
            key: pair_key(pair.address),
            value: pair_bytes(pair),
        },
        WriteView {
            ordinal: pair.log_ordinal,
            key: tokens_key(pair.token0.address, pair.token1.address),
            value: vstd::utf8::encode_utf8(pair.address),
        },
    ]
}

/// The entries of the first `n` pairs, in order.
pub open spec fn pairs_writes(pairs: Seq<PairView>, n: nat) -> Seq<WriteView>
    decreases n,
{
    if n == 0 {
        Seq::empty()
    } else {
        pairs_writes(pairs, (n - 1) as nat) + pair_writes(pairs[n - 1])
    }
}

/// The store entries of the pairs, in input order.
pub fn build_pairs_state(pairs: &Vec<Pair>) -> (writes: Vec<StoreWrite>)
    ensures
        writes_view(writes@) == pairs_writes(pairs_view(pairs@), pairs@.len()),
{
    let mut writes: Vec<StoreWrite> = Vec::new();
    let mut i: usize = 0;
    assert(writes_view(writes@) =~= pairs_writes(pairs_view(pairs@), 0));
    while i < pairs.len()
        invariant
            i <= pairs@.len(),
            writes_view(writes@) == pairs_writes(pairs_view(pairs@), i as nat),
        decreases pairs@.len() - i,
    {
        let pair = &pairs[i];
        let record = StoreWrite {
            ordinal: pair.log_ordinal,
            key: make_pair_key(pair.address.as_str()),
            value: encode_pair(pair),
        };
        let index = StoreWrite {
            ordinal: pair.log_ordinal,
            key: make_tokens_key(pair.token0.address.as_str(), pair.token1.address.as_str()),
            value: encode_text(pair.address.as_str()),
        };
        let ghost earlier = writes_view(writes@);
        let ghost first = record@;
        let ghost second = index@;
        writes.push(record);
        writes.push(index);
        assert(pairs_view(pairs@)[i as int] == pair@);
        assert(writes_view(writes@) =~= earlier + pair_writes(pair@));
        i = i + 1;
    }
    writes
}


/// The store keys under which the tokens of a log's pair would be found: none
/// where the log is too short to name two tokens.
pub open spec fn token_keys_of(log: Log) -> Seq<Seq<char>> {
    if pair_shape_ok(log) {
        seq![
            token_key(hex_text(log.topics@[1]@.subrange(12, 32))),
            token_key(hex_text(log.topics@[2]@.subrange(12, 32))),
        ]
    } else {
        Seq::empty()
    }
}

pub open spec fn keys_view(keys: Seq<String>) -> Seq<Seq<char>> {
    Seq::new(keys.len(), |i: int| keys[i]@)
}

/// The keys that the pair extractor reads from the store for one log.
pub fn token_lookup_keys(log: &Log) -> (keys: Vec<String>)
    ensures
        keys_view(keys@) == token_keys_of(*log),
{
    let mut keys: Vec<String> = Vec::new();
    if log.topics.len() < 3 || log.topics[1].len() != 32 || log.topics[2].len() != 32
        || log.data.len() < 32 {
        assert(keys_view(keys@) =~= token_keys_of(*log));
        return keys;
    }
    let first = address_pretty(vstd::slice::slice_subrange(log.topics[1].as_slice(), 12, 32));
    let second = address_pretty(vstd::slice::slice_subrange(log.topics[2].as_slice(), 12, 32));
    keys.push(make_token_key(first.as_str()));
    keys.push(make_token_key(second.as_str()));
    assert(keys_view(keys@) =~= token_keys_of(*log));
    keys
}

} // verus!
