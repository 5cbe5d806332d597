//! Reserves and spot prices: their extraction from the sync events of known
//! pairs, and their store entries.

use vstd::prelude::*;
use crate::abi::be_value;
use crate::amount::{convert_token_to_decimal, get_token_price, Amount};
use crate::block::{is_log, Block, Log};
use crate::codec::{decode_pair, encode_text, pair_of_bytes};
use crate::decimal::{fixed_text, price_mantissa, MAX_DECIMALS, PRICE_SCALE};
use crate::records::{Pair, PairView, Reserve, ReserveView, reserves_view};
use crate::store::{latest, make_pair_key, make_price_key, make_reserve_key, pair_key, price_key, reserve_key, writes_view, Store, StoreError, StoreWrite, WriteView};
use crate::text::{address_pretty, hex_text};

verus! {

/// The signature hash of the event that reports a pair's reserves.
pub open spec fn sync_signature() -> Seq<char> {
    "1c411e9a96e071241c2f21f7726b17ae89e3cab4c78be50e062b03a9fffbbad1"@
}

/// Whether the text is the signature hash of the sync event.
pub fn is_new_pair_sync_event(sig: &str) -> (known: bool)
    ensures
        known == (sig@ == sync_signature()),
{
    let given = String::from_str(sig);
    let wanted = String::from_str(
        "1c411e9a96e071241c2f21f7726b17ae89e3cab4c78be50e062b03a9fffbbad1",
    );
    given.eq(&wanted)
}

/// Why a log gave no reserve.
#[derive(Clone, Copy, Debug, PartialEq, Eq, Structural)]
pub enum ReserveSkip {
    /// The store knows no pair at the log's address.
    UnknownPair,
    /// The log has no topic, or its first topic is another event's.
    NotSync,
    /// The payload is too short to hold two amounts, or a token of the pair
    /// declares more decimals than a token can have.
    Malformed,
    /// The store's entry for the log's address does not hold a pair.
    CorruptEntry,
}

/// Whether the store's latest entry for the pair at `address` is there but
/// does not hold a pair.
pub open spec fn pair_entry_corrupt(store: Seq<WriteView>, address: Seq<char>) -> bool {
    match latest(store, pair_key(address)) {
        Some(bytes) => pair_of_bytes(bytes).is_none(),
        None => false,
    }
}

/// The pair stored at `address`, if the store knows one.
pub open spec fn known_pair(store: Seq<WriteView>, address: Seq<char>) -> Option<PairView> {
    match latest(store, pair_key(address)) {
        Some(bytes) => pair_of_bytes(bytes),
        None => None,
    }
}

/// Looks a pair up in the store by the text of its address. An entry that
/// holds no pair is an error.
pub fn get_pair(store: &Store, address: &str) -> (pair: Result<Option<Pair>, StoreError>)
    ensures
        pair.is_err() == pair_entry_corrupt(store@, address@),
        match pair {
            Ok(Some(p)) => known_pair(store@, address@) == Some(p@),
            Ok(None) => known_pair(store@, address@).is_none(),
            Err(_) => true,
        },
{
    let key = make_pair_key(address);
    match store.get_last(key.as_str()) {
        Some(bytes) => match decode_pair(bytes.as_slice()) {
            Some(pair) => Ok(Some(pair)),
            None => Err(StoreError::Corrupt),
        },
        None => Ok(None),
    }
}

pub open spec fn reports_sync(log: Log) -> bool {
    log.topics@.len() >= 1 && hex_text(log.topics@[0]@) == sync_signature()
}

/// A sync event holds two reserve words; each token's decimals must lie in the
/// domain of decimals.
pub open spec fn sync_shape_ok(log: Log, pair: PairView) -> bool {
    &&& log.data@.len() >= 64
    &&& pair.token0.decimals <= MAX_DECIMALS
    &&& pair.token1.decimals <= MAX_DECIMALS
}

/// The reserve that a well-formed sync event of `pair` reports: both amounts
/// scaled by their token's decimals, and each token's price in the other.
pub open spec fn reserve_of(log: Log, pair: PairView) -> ReserveView {
    let raw0 = be_value(log.data@.subrange(0, 32));
    let raw1 = be_value(log.data@.subrange(32, 64));
    let dec0 = pair.token0.decimals as nat;
    let dec1 = pair.token1.decimals as nat;
    ReserveView {
        pair_address: pair.address,
        reserve0: fixed_text(raw0, dec0),
        reserve1: fixed_text(raw1, dec1),
        token0_price: fixed_text(price_mantissa(raw0, dec0, raw1, dec1), PRICE_SCALE as nat),
        token1_price: fixed_text(price_mantissa(raw1, dec1, raw0, dec0), PRICE_SCALE as nat),
        log_ordinal: log.block_index as u64,
    }
}

/// What one log gives: the reserve it reports, or why none.
pub open spec fn reserve_outcome(log: Log, store: Seq<WriteView>) -> Result<
    ReserveView,
    ReserveSkip,
> {
    match known_pair(store, hex_text(log.address@)) {
        None => if pair_entry_corrupt(store, hex_text(log.address@)) {
            Err(ReserveSkip::CorruptEntry)
        } else {
            Err(ReserveSkip::UnknownPair)
        },
        Some(pair) => if !reports_sync(log) {
            Err(ReserveSkip::NotSync)
        } else if !sync_shape_ok(log, pair) {
            Err(ReserveSkip::Malformed)
        } else {
            Ok(reserve_of(log, pair))
        },
    }
}

/// Decodes one log against the pairs that the store knows.
pub fn reserve_from_log(log: &Log, store: &Store) -> (outcome: Result<Reserve, ReserveSkip>)
    ensures
        match outcome {
            Ok(reserve) => reserve_outcome(*log, store@) == Ok::<ReserveView, ReserveSkip>(
                reserve@,
            ),
            Err(skip) => reserve_outcome(*log, store@) == Err::<ReserveView, ReserveSkip>(skip),
        },
{
    let addr = address_pretty(log.address.as_slice());
    let pair = match get_pair(store, addr.as_str()) {
        Ok(Some(pair)) => pair,
        Ok(None) => {
            return Err(ReserveSkip::UnknownPair);
        },
        Err(_) => {
            return Err(ReserveSkip::CorruptEntry);
        },
    };
    if log.topics.len() < 1 {
        return Err(ReserveSkip::NotSync);
    }
    let sig = address_pretty(log.topics[0].as_slice());
    if !is_new_pair_sync_event(sig.as_str()) {
        return Err(ReserveSkip::NotSync);
    }
    if log.data.len() < 64 {
        return Err(ReserveSkip::Malformed);
    }
    let raw0 = Amount::from_be_bytes(vstd::slice::slice_subrange(log.data.as_slice(), 0, 32));
    let raw1 = Amount::from_be_bytes(vstd::slice::slice_subrange(log.data.as_slice(), 32, 64));
    let dec0 = pair.token0.decimals;
    let dec1 = pair.token1.decimals;
    if dec0 > MAX_DECIMALS || dec1 > MAX_DECIMALS {
        return Err(ReserveSkip::Malformed);
    }
    Ok(
        Reserve {
            pair_address: pair.address.clone(),
            reserve0: convert_token_to_decimal(&raw0, dec0),
            reserve1: convert_token_to_decimal(&raw1, dec1),
            token0_price: get_token_price(&raw0, dec0, &raw1, dec1),
            token1_price: get_token_price(&raw1, dec1, &raw0, dec0),
            log_ordinal: log.block_index as u64,
        },
    )
}

/// The reserves that the first `n` logs report, in order.
pub open spec fn reserves_in_logs(logs: Seq<Log>, store: Seq<WriteView>, n: nat) -> Seq<
    ReserveView,
>
    decreases n,
{
    if n == 0 {
        Seq::empty()
    } else {
        let before = reserves_in_logs(logs, store, (n - 1) as nat);
        match reserve_outcome(logs[n - 1], store) {
            Ok(reserve) => before.push(reserve),
            Err(_) => before,
        }
    }
}

/// The reserves that the first `n` transactions of a block report, in order.
pub open spec fn reserves_in(block: Block, store: Seq<WriteView>, n: nat) -> Seq<ReserveView>
    decreases n,
{
    if n == 0 {
        Seq::empty()
    } else {
        let logs = block.transaction_traces@[n - 1].logs();
        reserves_in(block, store, (n - 1) as nat) + reserves_in_logs(logs, store, logs.len())
    }
}

/// Every reserve that the block reports, in block order.
pub open spec fn reserves_of(block: Block, store: Seq<WriteView>) -> Seq<ReserveView> {
    reserves_in(block, store, block.transaction_traces@.len())
}

/// Whether the log at position `l` of transaction `t` comes from an address
/// whose store entry holds no pair.
pub open spec fn reserve_corrupt_at(block: Block, store: Seq<WriteView>, t: int, l: int) -> bool {
    pair_entry_corrupt(store, hex_text(block.transaction_traces@[t].logs()[l].address@))
}

/// Whether the extraction meets a store entry that holds no pair.
pub open spec fn reserves_corrupt(block: Block, store: Seq<WriteView>) -> bool {
    exists|t: int, l: int| is_log(block, t, l) && #[trigger] reserve_corrupt_at(block, store, t, l)
}

/// Scans a block for the sync events of the pairs that `store` knows. A store
/// entry that holds no pair fails the whole extraction.
pub fn map_reserves(block: &Block, store: &Store) -> (outcome: Result<Vec<Reserve>, StoreError>)
    ensures
        outcome.is_err() == reserves_corrupt(*block, store@),
        outcome matches Ok(reserves) ==> reserves_view(reserves@) == reserves_of(*block, store@),
{
    let mut reserves: Vec<Reserve> = Vec::new();
    let mut t: usize = 0;
    assert(reserves_view(reserves@) =~= reserves_in(*block, store@, 0));
    while t < block.transaction_traces.len()
        invariant
            t <= block.transaction_traces@.len(),
            reserves_view(reserves@) == reserves_in(*block, store@, t as nat),
            forall|t2: int, l2: int|
                0 <= t2 < t && is_log(*block, t2, l2) ==> !#[trigger] reserve_corrupt_at(
                    *block,
                    store@,
                    t2,
                    l2,
                ),
        decreases block.transaction_traces@.len() - t,
    {
        let trx = &block.transaction_traces[t];
        let ghost before = reserves_view(reserves@);
        let count = trx.log_count();
        let mut l: usize = 0;
        assert(reserves_view(reserves@) =~= before + reserves_in_logs(trx.logs(), store@, 0));
        while l < count
            invariant
                l <= count,
                count == trx.logs().len(),
                t < block.transaction_traces@.len(),
                *trx == block.transaction_traces@[t as int],
                reserves_view(reserves@) == before + reserves_in_logs(
                    trx.logs(),
                    store@,
                    l as nat,
                ),
                forall|l2: int|
                    0 <= l2 < l ==> !#[trigger] reserve_corrupt_at(*block, store@, t as int, l2),
            decreases count - l,
        {
            let log = trx.log_at(l);
            match reserve_from_log(log, store) {
                Ok(reserve) => {
                    let ghost earlier = reserves@;
                    reserves.push(reserve);
                    assert(reserves_view(reserves@) =~= reserves_view(earlier).push(reserve@));
                    assert(reserves_view(reserves@) =~= before + reserves_in_logs(
                        trx.logs(),
                        store@,
                        (l + 1) as nat,
                    ));
                },
                Err(ReserveSkip::CorruptEntry) => {
                    assert(is_log(*block, t as int, l as int));
                    assert(reserve_corrupt_at(*block, store@, t as int, l as int));
                    return Err(StoreError::Corrupt);
                },
                Err(_) => {},
            }
            l = l + 1;
        }
        t = t + 1;
    }
    Ok(reserves)
}

/// The four store entries of a reserve of `pair`, all at the reserve's log
/// ordinal: each token's price in the other, and the pair's reserve of each
/// token.
pub open spec fn reserve_writes(reserve: ReserveView, pair: PairView) -> Seq<WriteView> {
    let token0 = pair.token0.address;
    let token1 = pair.token1.address;
    seq![
        WriteView {
            ordinal: reserve.log_ordinal,
            key: price_key(token0, token1),
            value: vstd::utf8::encode_utf8(reserve.token0_price),
        },
        WriteView {
            ordinal: reserve.log_ordinal,
            key: price_key(token1, token0),
            value: vstd::utf8::encode_utf8(reserve.token1_price),
        },
        WriteView {
            ordinal: reserve.log_ordinal,
            key: reserve_key(reserve.pair_address, token0),
            value: vstd::utf8::encode_utf8(reserve.reserve0),
        },
        WriteView {
            ordinal: reserve.log_ordinal,
            key: reserve_key(reserve.pair_address, token1),
            value: vstd::utf8::encode_utf8(reserve.reserve1),
        },
    ]
}

/// The entries of one reserve against the store: those of its pair where the
/// store knows the pair, none otherwise.
pub open spec fn entries_of(reserve: ReserveView, store: Seq<WriteView>) -> Seq<WriteView> {
    match known_pair(store, reserve.pair_address) {
        Some(pair) => reserve_writes(reserve, pair),
        None => Seq::empty(),
    }
}

/// The entries of the first `n` reserves, in order.
pub open spec fn reserves_writes(reserves: Seq<ReserveView>, store: Seq<WriteView>, n: nat) -> Seq<
    WriteView,
>
    decreases n,
{
    if n == 0 {
        Seq::empty()
    } else {
        reserves_writes(reserves, store, (n - 1) as nat) + entries_of(reserves[n - 1], store)
    }
}

fn text_entry(ordinal: u64, key: String, value: &String) -> (write: StoreWrite)
    ensures
        write@ == (WriteView { ordinal, key: key@, value: vstd::utf8::encode_utf8(value@) }),
{
    StoreWrite { ordinal, key, value: encode_text(value.as_str()) }
}

/// Whether the store's entry for the pair of one of the reserves holds no
/// pair.
pub open spec fn state_corrupt(reserves: Seq<ReserveView>, store: Seq<WriteView>) -> bool {
    exists|i: int|
        0 <= i < reserves.len() && pair_entry_corrupt(store, (#[trigger] reserves[i]).pair_address)
}

/// The store entries of the reserves, in input order. A reserve whose pair the
/// store does not know gives none; a store entry that holds no pair fails the
/// whole batch.
pub fn build_reserves_state(reserves: &Vec<Reserve>, store: &Store) -> (outcome: Result<
    Vec<StoreWrite>,
    StoreError,
>)
    ensures
        outcome.is_err() == state_corrupt(reserves_view(reserves@), store@),
        outcome matches Ok(writes) ==> writes_view(writes@) == reserves_writes(
            reserves_view(reserves@),
            store@,
            reserves@.len(),
        ),
{
    let mut writes: Vec<StoreWrite> = Vec::new();
    let mut i: usize = 0;
    let ghost all = reserves_view(reserves@);
    assert(writes_view(writes@) =~= reserves_writes(all, store@, 0));
    while i < reserves.len()
        invariant
            i <= reserves@.len(),
            all == reserves_view(reserves@),
            writes_view(writes@) == reserves_writes(all, store@, i as nat),
            forall|j: int|
                0 <= j < i ==> !pair_entry_corrupt(store@, (#[trigger] all[j]).pair_address),
        decreases reserves@.len() - i,
    {
        let reserve = &reserves[i];
        assert(all[i as int] == reserve@);
        let ghost earlier = writes_view(writes@);
        match get_pair(store, reserve.pair_address.as_str()) {
            Err(_) => {
                assert(pair_entry_corrupt(store@, all[i as int].pair_address));
                return Err(StoreError::Corrupt);
            },
            Ok(None) => {
                assert(earlier + Seq::<WriteView>::empty() =~= earlier);
            },
            Ok(Some(pair)) => {
                let token0 = pair.token0.address.as_str();
                let token1 = pair.token1.address.as_str();
                let at = reserve.log_ordinal;
                let own = reserve.pair_address.as_str();
                writes.push(text_entry(at, make_price_key(token0, token1), &reserve.token0_price));
                writes.push(text_entry(at, make_price_key(token1, token0), &reserve.token1_price));
                writes.push(text_entry(at, make_reserve_key(own, token0), &reserve.reserve0));
                writes.push(text_entry(at, make_reserve_key(own, token1), &reserve.reserve1));
                assert(writes_view(writes@) =~= earlier + reserve_writes(reserve@, pair@));
            },
        }
        i = i + 1;
    }
    Ok(writes)
}


/// The key that the reserve extractor reads from the store for one log: that
/// of the pair at the log's address.
pub fn pair_lookup_key(log: &Log) -> (key: String)
    ensures
        key@ == pair_key(hex_text(log.address@)),
{
    let addr = address_pretty(log.address.as_slice());
    make_pair_key(addr.as_str())
}

} // verus!
