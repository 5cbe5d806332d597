use pcs_pipeline::abi::{copy_bytes, decode_string, decode_uint32};
use pcs_pipeline::amount::{convert_token_to_decimal, get_token_price, price_digits, Amount};
use pcs_pipeline::block::{Block, Call, CallType, Log, Receipt, Transaction};
use pcs_pipeline::codec::{decode_pair, decode_token, encode_pair, encode_text, encode_token};
use pcs_pipeline::decimal::render_fixed;
use pcs_pipeline::pairs::{
    build_pairs_state, get_token, is_factory, is_pair_created_event, map_pairs, pair_from_log,
    PairSkip,
};
use pcs_pipeline::records::{Pair, Reserve, Token};
use pcs_pipeline::reserves::{
    build_reserves_state, get_pair, is_new_pair_sync_event, map_reserves, reserve_from_log,
    ReserveSkip,
};
use pcs_pipeline::store::{
    bytes_before, generate_tokens_key, make_pair_key, make_price_key, make_reserve_key,
    make_token_key, make_tokens_key, Store, StoreError, StoreWrite,
};
use pcs_pipeline::text::{address_pretty, join, renders_as};
use pcs_pipeline::tokens::{
    block_to_tokens, build_tokens_state, create_rpc_calls, probe_result, probe_targets,
    token_from_probe, ProbeResponse, TokenSkip, TOKEN_ORDINAL,
};

const FACTORY: &str = "ca143ce32fe78f1f7019d7d551a6402fc5350c73";
const PAIR_CREATED: &str = "0d3648bd0f6ba80134a33ba9275ac585d9d315f0ad8355cddefde31afa28d0e9";
const SYNC: &str = "1c411e9a96e071241c2f21f7726b17ae89e3cab4c78be50e062b03a9fffbbad1";

fn unhex(text: &str) -> Vec<u8> {
    hex::decode(text).unwrap()
}

fn word_of_address(address: &[u8]) -> Vec<u8> {
    let mut word = vec![0u8; 32 - address.len()];
    word.extend_from_slice(address);
    word
}

fn word_of_amount(amount: u128) -> Vec<u8> {
    let mut word = vec![0u8; 16];
    word.extend_from_slice(&amount.to_be_bytes());
    word
}

fn amt(amount: u128) -> Amount {
    Amount::from_be_bytes(&amount.to_be_bytes())
}

const WORD_MAX: &str =
    "115792089237316195423570985008687907853269984665640564039457584007913129639935";

fn pair_created_log(pair: u8, token0: u8, token1: u8, index: u32) -> Log {
    let mut data = word_of_address(&[pair; 20]);
    data.extend_from_slice(&word_of_amount(7));
    Log {
        address: unhex(FACTORY),
        topics: vec![
            unhex(PAIR_CREATED),
            word_of_address(&[token0; 20]),
            word_of_address(&[token1; 20]),
        ],
        data,
        block_index: index,
    }
}

fn sync_log(pair: u8, reserve0: u128, reserve1: u128, index: u32) -> Log {
    let mut data = word_of_amount(reserve0);
    data.extend_from_slice(&word_of_amount(reserve1));
    Log { address: vec![pair; 20], topics: vec![unhex(SYNC)], data, block_index: index }
}

fn transaction(to: Vec<u8>, logs: Vec<Log>) -> Transaction {
    Transaction { to, hash: vec![0x11; 32], calls: vec![], receipt: Some(Receipt { logs }) }
}

fn block_of(transactions: Vec<Transaction>) -> Block {
    Block { number: 6810080, transaction_traces: transactions }
}

fn token(address: &str, name: &str, symbol: &str, decimals: u64) -> Token {
    Token {
        address: address.to_string(),
        name: name.to_string(),
        symbol: symbol.to_string(),
        decimals,
    }
}

fn pair_with_decimals(address: u8, decimals0: u64, decimals1: u64) -> Pair {
    Pair {
        address: hex::encode([address; 20]),
        token0: token(&hex::encode([0xb0u8; 20]), "Zero", "ZRO", decimals0),
        token1: token(&hex::encode([0xb1u8; 20]), "One", "ONE", decimals1),
        creation_transaction_id: hex::encode([0x11u8; 32]),
        block_num: 6810080,
        log_ordinal: 3,
    }
}

fn store_with_pair(pair: Pair) -> Store {
    let mut store = Store::new();
    store.apply_all(build_pairs_state(&vec![pair]));
    store
}

fn dynamic_string(text: &str) -> Vec<u8> {
    let mut raw = word_of_amount(32);
    raw.extend_from_slice(&word_of_amount(text.len() as u128));
    raw.extend_from_slice(text.as_bytes());
    while raw.len() < 96 || raw.len() % 32 != 0 {
        raw.push(0);
    }
    raw
}

fn answer(raw: Vec<u8>) -> ProbeResponse {
    ProbeResponse { failed: false, raw }
}

fn good_answers() -> Vec<ProbeResponse> {
    vec![
        answer(word_of_amount(18)),
        answer(dynamic_string("Wrapped BNB")),
        answer(dynamic_string("WBNB")),
    ]
}

fn creation(address: u8, reverted: bool) -> Call {
    Call { call_type: CallType::Create, state_reverted: reverted, address: vec![address; 20] }
}

fn block_with_calls(calls: Vec<Call>) -> Block {
    Block {
        number: 1,
        transaction_traces: vec![Transaction {
            to: vec![0x01; 20],
            hash: vec![0x22; 32],
            calls,
            receipt: None,
        }],
    }
}

#[test]
fn address_pretty_renders_lowercase_hex() {
    assert_eq!(address_pretty(&[0x00, 0x0f, 0xa0, 0xff, 0x1b]), "000fa0ff1b");
    assert_eq!(address_pretty(&[]), "");
    assert_eq!(address_pretty(&[0xAA; 20]), "aaaaaaaaaaaaaaaaaaaaaaaaaaaaaaaaaaaaaaaa");
}

#[test]
fn renders_as_compares_the_hex_text() {
    assert!(renders_as(&[0xca, 0x14], "ca14"));
    assert!(!renders_as(&[0xca, 0x14], "CA14"));
    assert!(!renders_as(&[0xca, 0x14], "ca15"));
}

#[test]
fn join_concatenates() {
    assert_eq!(join("pair:", "abc"), "pair:abc");
    assert_eq!(join("", ""), "");
}

#[test]
fn pair_created_log_gives_one_pair() {
    let block = block_of(vec![transaction(
        unhex(FACTORY),
        vec![pair_created_log(0xAA, 0xb0, 0xb1, 5)],
    )]);
    let pairs = map_pairs(&block, &Store::new()).unwrap();
    assert_eq!(pairs.len(), 1);
    assert_eq!(pairs[0].address, "aaaaaaaaaaaaaaaaaaaaaaaaaaaaaaaaaaaaaaaa");
    assert_eq!(pairs[0].token0.address, "b0b0b0b0b0b0b0b0b0b0b0b0b0b0b0b0b0b0b0b0");
    assert_eq!(pairs[0].token1.address, "b1b1b1b1b1b1b1b1b1b1b1b1b1b1b1b1b1b1b1b1");
    assert_eq!(pairs[0].token0.name, "");
    assert_eq!(pairs[0].token0.decimals, 0);
    assert_eq!(
        pairs[0].creation_transaction_id,
        "1111111111111111111111111111111111111111111111111111111111111111"
    );
    assert_eq!(pairs[0].block_num, 6810080);
    assert_eq!(pairs[0].log_ordinal, 5);
}

#[test]
fn map_pairs_twice_gives_identical_pairs() {
    let block = block_of(vec![
        transaction(unhex(FACTORY), vec![pair_created_log(0xa1, 1, 2, 0)]),
        transaction(vec![0x02; 20], vec![pair_created_log(0xa2, 3, 4, 1)]),
        transaction(unhex(FACTORY), vec![sync_log(0xa3, 1, 1, 2), pair_created_log(0xa4, 5, 6, 3)]),
    ]);
    let store = Store::new();
    let first = map_pairs(&block, &store).unwrap();
    let second = map_pairs(&block, &store).unwrap();
    assert_eq!(first, second);
    assert_eq!(first.len(), 2);
    assert_eq!(first[0].address, hex::encode([0xa1u8; 20]));
    assert_eq!(first[1].address, hex::encode([0xa4u8; 20]));
}

#[test]
fn pair_ordinals_increase_in_log_order() {
    let block = block_of(vec![
        transaction(
            unhex(FACTORY),
            vec![pair_created_log(0xa1, 1, 2, 2), pair_created_log(0xa2, 1, 3, 4)],
        ),
        transaction(unhex(FACTORY), vec![pair_created_log(0xa3, 2, 3, 9)]),
    ]);
    let pairs = map_pairs(&block, &Store::new()).unwrap();
    let ordinals: Vec<u64> = pairs.iter().map(|p| p.log_ordinal).collect();
    assert_eq!(ordinals, vec![2, 4, 9]);
}

#[test]
fn reserve_ordinals_increase_in_log_order() {
    let store = store_with_pair(pair_with_decimals(0xa1, 0, 0));
    let block = block_of(vec![
        transaction(vec![0x02; 20], vec![sync_log(0xa1, 1, 2, 1), sync_log(0xa1, 2, 3, 6)]),
        transaction(vec![0x03; 20], vec![sync_log(0xa1, 3, 4, 8)]),
    ]);
    let reserves = map_reserves(&block, &store).unwrap();
    let ordinals: Vec<u64> = reserves.iter().map(|r| r.log_ordinal).collect();
    assert_eq!(ordinals, vec![1, 6, 8]);
}

#[test]
fn transaction_without_receipt_has_no_logs() {
    let block = Block {
        number: 9,
        transaction_traces: vec![Transaction {
            to: unhex(FACTORY),
            hash: vec![0x11; 32],
            calls: vec![],
            receipt: None,
        }],
    };
    assert_eq!(block.transaction_traces[0].log_count(), 0);
    assert!(map_pairs(&block, &Store::new()).unwrap().is_empty());
    assert!(map_reserves(&block, &Store::new()).unwrap().is_empty());
}

#[test]
fn log_at_gives_the_log_at_that_position() {
    let trx = transaction(vec![0x02; 20], vec![sync_log(1, 1, 1, 4), sync_log(2, 1, 1, 5)]);
    assert_eq!(trx.log_count(), 2);
    assert_eq!(trx.log_at(1).block_index, 5);
}

#[test]
fn pair_from_log_names_each_skip() {
    let store = Store::new();
    let factory = transaction(unhex(FACTORY), vec![]);
    let other = transaction(vec![0x02; 20], vec![]);
    let good = pair_created_log(0xAA, 1, 2, 0);
    assert_eq!(pair_from_log(1, &other, &good, &store), Err(PairSkip::NotFactory));
    assert_eq!(
        pair_from_log(1, &factory, &sync_log(0xAA, 1, 1, 0), &store),
        Err(PairSkip::NotPairCreated)
    );
    let mut bare = pair_created_log(0xAA, 1, 2, 0);
    bare.topics.clear();
    assert_eq!(pair_from_log(1, &factory, &bare, &store), Err(PairSkip::NotPairCreated));
    let mut short = pair_created_log(0xAA, 1, 2, 0);
    short.data.truncate(31);
    assert_eq!(pair_from_log(1, &factory, &short, &store), Err(PairSkip::Malformed));
    let mut two_topics = pair_created_log(0xAA, 1, 2, 0);
    two_topics.topics.truncate(2);
    assert_eq!(pair_from_log(1, &factory, &two_topics, &store), Err(PairSkip::Malformed));
    let mut narrow = pair_created_log(0xAA, 1, 2, 0);
    narrow.topics[2] = vec![2; 20];
    assert_eq!(pair_from_log(1, &factory, &narrow, &store), Err(PairSkip::Malformed));
    let pair = pair_from_log(77, &factory, &good, &store).unwrap();
    assert_eq!(pair.address, hex::encode([0xAAu8; 20]));
    assert_eq!(pair.block_num, 77);
}

#[test]
fn factory_and_signatures_are_recognised() {
    assert!(is_factory(&transaction(unhex(FACTORY), vec![])));
    assert!(!is_factory(&transaction(vec![0xca; 20], vec![])));
    assert!(is_pair_created_event(PAIR_CREATED));
    assert!(!is_pair_created_event(SYNC));
    assert!(is_new_pair_sync_event(SYNC));
    assert!(!is_new_pair_sync_event(PAIR_CREATED));
    assert!(!is_new_pair_sync_event(""));
}

#[test]
fn pair_tokens_are_resolved_from_the_store() {
    let known = token(&hex::encode([0xb0u8; 20]), "Wrapped BNB", "WBNB", 18);
    let mut store = Store::new();
    store.apply_all(build_tokens_state(&vec![known.duplicate()], TOKEN_ORDINAL));
    let block = block_of(vec![transaction(
        unhex(FACTORY),
        vec![pair_created_log(0xAA, 0xb0, 0xb1, 5)],
    )]);
    let pairs = map_pairs(&block, &store).unwrap();
    assert_eq!(pairs[0].token0, known);
    assert_eq!(pairs[0].token1, Token::placeholder(hex::encode([0xb1u8; 20])));
    assert_eq!(get_token(&store, &[0xb0; 20]), Ok(known));
    assert_eq!(get_token(&store, &[0xb2; 20]), Ok(token(&hex::encode([0xb2u8; 20]), "", "", 0)));
}

#[test]
fn build_pairs_state_writes_record_and_index() {
    let pair = pair_with_decimals(0xa1, 18, 6);
    let writes = build_pairs_state(&vec![pair.duplicate()]);
    assert_eq!(writes.len(), 2);
    assert_eq!(writes[0].ordinal, 3);
    assert_eq!(writes[0].key, format!("pair:{}", hex::encode([0xa1u8; 20])));
    assert_eq!(writes[0].value, encode_pair(&pair));
    assert_eq!(decode_pair(&writes[0].value), Some(pair.duplicate()));
    assert_eq!(writes[1].ordinal, 3);
    assert_eq!(
        writes[1].key,
        format!("tokens:{}:{}", hex::encode([0xb0u8; 20]), hex::encode([0xb1u8; 20]))
    );
    assert_eq!(writes[1].value, hex::encode([0xa1u8; 20]).into_bytes());
    assert!(build_pairs_state(&vec![]).is_empty());
}

#[test]
fn tokens_key_is_the_same_in_both_directions() {
    assert_eq!(generate_tokens_key("bb", "aa"), "aa:bb");
    assert_eq!(generate_tokens_key("aa", "bb"), "aa:bb");
    assert_eq!(generate_tokens_key("aa", "aa"), "aa:aa");
    assert_eq!(generate_tokens_key("a", "ab"), "a:ab");
    assert_eq!(generate_tokens_key("ab", "a"), "a:ab");
    assert_eq!(make_tokens_key("0f", "0e"), "tokens:0e:0f");
}

#[test]
fn bytes_before_orders_by_first_difference() {
    assert!(bytes_before(b"abc", b"abd"));
    assert!(!bytes_before(b"abd", b"abc"));
    assert!(bytes_before(b"ab", b"abc"));
    assert!(!bytes_before(b"abc", b"ab"));
    assert!(!bytes_before(b"abc", b"abc"));
    assert!(bytes_before(b"", b"a"));
    assert!(!bytes_before(b"", b""));
}

#[test]
fn keys_follow_the_naming_scheme() {
    assert_eq!(make_pair_key("aa"), "pair:aa");
    assert_eq!(make_token_key("aa"), "token:aa");
    assert_eq!(make_price_key("aa", "bb"), "price:aa:bb");
    assert_eq!(make_reserve_key("cc", "aa"), "reserve:cc:aa");
}

#[test]
fn pair_round_trips_through_store() {
    let pair = pair_with_decimals(0xa1, 18, 6);
    let store = store_with_pair(pair.duplicate());
    let found = get_pair(&store, &hex::encode([0xa1u8; 20]));
    assert_eq!(found, Ok(Some(pair)));
    assert_eq!(get_pair(&store, &hex::encode([0xa2u8; 20])), Ok(None));
}

#[test]
fn store_reads_the_latest_write() {
    let mut store = Store::new();
    assert_eq!(store.get_last("k"), None);
    store.set(1, "k".to_string(), b"one".to_vec());
    store.set(2, "other".to_string(), b"x".to_vec());
    store.set(3, "k".to_string(), b"two".to_vec());
    assert_eq!(store.get_last("k"), Some(&b"two".to_vec()));
    assert_eq!(store.get_last("other"), Some(&b"x".to_vec()));
    assert_eq!(store.get_last("missing"), None);
    store.apply(StoreWrite { ordinal: 4, key: "other".to_string(), value: b"y".to_vec() });
    assert_eq!(store.get_last("other"), Some(&b"y".to_vec()));
    assert_eq!(store.writes.len(), 4);
}

#[test]
fn sync_log_of_unknown_pair_gives_nothing() {
    let store = Store::new();
    let block = block_of(vec![transaction(vec![0x02; 20], vec![sync_log(0xa1, 10, 20, 0)])]);
    let reserves = map_reserves(&block, &store).unwrap();
    assert!(reserves.is_empty());
    assert!(build_reserves_state(&reserves, &store).unwrap().is_empty());
    assert_eq!(
        reserve_from_log(&sync_log(0xa1, 10, 20, 0), &store),
        Err(ReserveSkip::UnknownPair)
    );
}

#[test]
fn reserve_amounts_and_prices_are_exact() {
    let store = store_with_pair(pair_with_decimals(0xa1, 6, 18));
    let log = sync_log(0xa1, 1_000_000, 2_500_000_000_000_000_000, 12);
    let reserve = reserve_from_log(&log, &store).unwrap();
    assert_eq!(reserve.pair_address, hex::encode([0xa1u8; 20]));
    assert_eq!(reserve.reserve0, "1.000000");
    assert_eq!(reserve.reserve1, "2.500000000000000000");
    assert_eq!(reserve.token0_price, "2.500000000000000000");
    assert_eq!(reserve.token1_price, "0.400000000000000000");
    assert_eq!(reserve.log_ordinal, 12);
    let block = block_of(vec![transaction(vec![0x02; 20], vec![log])]);
    assert_eq!(map_reserves(&block, &store).unwrap(), vec![reserve]);
}

#[test]
fn price_of_an_empty_reserve_is_zero() {
    let store = store_with_pair(pair_with_decimals(0xa1, 18, 18));
    let reserve = reserve_from_log(&sync_log(0xa1, 0, 5_000_000_000_000_000_000, 1), &store)
        .unwrap();
    assert_eq!(reserve.reserve0, "0.000000000000000000");
    assert_eq!(reserve.reserve1, "5.000000000000000000");
    assert_eq!(reserve.token0_price, "0.000000000000000000");
    assert_eq!(reserve.token1_price, "0.000000000000000000");
    assert_eq!(get_token_price(&amt(0), 18, &amt(0), 18), "0.000000000000000000");
    assert_eq!(get_token_price(&amt(0), 0, &amt(7), 30), "0.000000000000000000");
}

#[test]
fn reserve_from_log_names_each_skip() {
    let store = store_with_pair(pair_with_decimals(0xa1, 18, 18));
    let mut other = sync_log(0xa1, 1, 1, 0);
    other.topics = vec![unhex(PAIR_CREATED)];
    assert_eq!(reserve_from_log(&other, &store), Err(ReserveSkip::NotSync));
    let mut bare = sync_log(0xa1, 1, 1, 0);
    bare.topics.clear();
    assert_eq!(reserve_from_log(&bare, &store), Err(ReserveSkip::NotSync));
    let mut short = sync_log(0xa1, 1, 1, 0);
    short.data.truncate(63);
    assert_eq!(reserve_from_log(&short, &store), Err(ReserveSkip::Malformed));
    let wild = store_with_pair(pair_with_decimals(0xa1, 256, 18));
    assert_eq!(reserve_from_log(&sync_log(0xa1, 1, 1, 0), &wild), Err(ReserveSkip::Malformed));
    assert_eq!(
        reserve_from_log(&sync_log(0xa2, 1, 1, 0), &store),
        Err(ReserveSkip::UnknownPair)
    );
}

#[test]
fn a_corrupt_pair_entry_fails_the_stage() {
    let mut store = Store::new();
    store.set(1, make_pair_key(&hex::encode([0xa1u8; 20])), b"x".to_vec());
    assert_eq!(get_pair(&store, &hex::encode([0xa1u8; 20])), Err(StoreError::Corrupt));
    assert_eq!(
        reserve_from_log(&sync_log(0xa1, 1, 1, 0), &store),
        Err(ReserveSkip::CorruptEntry)
    );
    let block = block_of(vec![transaction(vec![0x02; 20], vec![sync_log(0xa1, 1, 1, 0)])]);
    assert_eq!(map_reserves(&block, &store), Err(StoreError::Corrupt));
    let elsewhere = block_of(vec![transaction(vec![0x02; 20], vec![sync_log(0xa2, 1, 1, 0)])]);
    assert_eq!(map_reserves(&elsewhere, &store), Ok(vec![]));
    let reserve = Reserve {
        pair_address: hex::encode([0xa1u8; 20]),
        reserve0: "1".to_string(),
        reserve1: "1".to_string(),
        token0_price: "1".to_string(),
        token1_price: "1".to_string(),
        log_ordinal: 1,
    };
    assert_eq!(build_reserves_state(&vec![reserve], &store), Err(StoreError::Corrupt));
}

#[test]
fn a_corrupt_token_entry_fails_the_stage() {
    let mut store = Store::new();
    store.set(1, make_token_key(&hex::encode([0xb0u8; 20])), vec![1, 2, 3]);
    assert_eq!(get_token(&store, &[0xb0; 20]), Err(StoreError::Corrupt));
    let factory = transaction(unhex(FACTORY), vec![pair_created_log(0xAA, 0xb0, 0xb1, 5)]);
    assert_eq!(
        pair_from_log(1, &factory, &pair_created_log(0xAA, 0xb0, 0xb1, 5), &store),
        Err(PairSkip::CorruptEntry)
    );
    assert_eq!(
        pair_from_log(1, &factory, &pair_created_log(0xAA, 0xb1, 0xb0, 5), &store),
        Err(PairSkip::CorruptEntry)
    );
    assert_eq!(map_pairs(&block_of(vec![factory]), &store), Err(StoreError::Corrupt));
    let other = transaction(vec![0x02; 20], vec![pair_created_log(0xAA, 0xb0, 0xb1, 5)]);
    assert_eq!(map_pairs(&block_of(vec![other]), &store), Ok(vec![]));
}

#[test]
fn build_reserves_state_writes_four_entries() {
    let store = store_with_pair(pair_with_decimals(0xa1, 6, 18));
    let reserve = Reserve {
        pair_address: hex::encode([0xa1u8; 20]),
        reserve0: "1.000000".to_string(),
        reserve1: "2.500000000000000000".to_string(),
        token0_price: "2.500000000000000000".to_string(),
        token1_price: "0.400000000000000000".to_string(),
        log_ordinal: 12,
    };
    let stray = Reserve {
        pair_address: hex::encode([0xa9u8; 20]),
        reserve0: "1".to_string(),
        reserve1: "1".to_string(),
        token0_price: "1".to_string(),
        token1_price: "1".to_string(),
        log_ordinal: 13,
    };
    let writes = build_reserves_state(&vec![stray, reserve], &store).unwrap();
    let t0 = hex::encode([0xb0u8; 20]);
    let t1 = hex::encode([0xb1u8; 20]);
    let own = hex::encode([0xa1u8; 20]);
    assert_eq!(writes.len(), 4);
    assert!(writes.iter().all(|w| w.ordinal == 12));
    assert_eq!(writes[0].key, format!("price:{}:{}", t0, t1));
    assert_eq!(writes[0].value, b"2.500000000000000000".to_vec());
    assert_eq!(writes[1].key, format!("price:{}:{}", t1, t0));
    assert_eq!(writes[1].value, b"0.400000000000000000".to_vec());
    assert_eq!(writes[2].key, format!("reserve:{}:{}", own, t0));
    assert_eq!(writes[2].value, b"1.000000".to_vec());
    assert_eq!(writes[3].key, format!("reserve:{}:{}", own, t1));
    assert_eq!(writes[3].value, b"2.500000000000000000".to_vec());
}

#[test]
fn amounts_are_scaled_by_the_decimals() {
    assert_eq!(convert_token_to_decimal(&amt(0), 0), "0");
    assert_eq!(convert_token_to_decimal(&amt(123), 0), "123");
    assert_eq!(convert_token_to_decimal(&amt(123), 2), "1.23");
    assert_eq!(convert_token_to_decimal(&amt(123), 3), "0.123");
    assert_eq!(convert_token_to_decimal(&amt(123), 5), "0.00123");
    assert_eq!(
        convert_token_to_decimal(&amt(1_500_000_000_000_000_000), 18),
        "1.500000000000000000"
    );
    assert_eq!(
        convert_token_to_decimal(&amt(u128::MAX), 1),
        "34028236692093846346337460743176821145.5"
    );
    let tiny = convert_token_to_decimal(&amt(1), 255);
    assert_eq!(tiny.len(), 257);
    assert!(tiny.starts_with("0.000"));
    assert!(tiny.ends_with("01"));
}

#[test]
fn a_full_word_is_an_amount() {
    let most = Amount::from_be_bytes(&[0xff; 32]);
    assert_eq!(convert_token_to_decimal(&most, 0), WORD_MAX);
    assert_eq!(
        convert_token_to_decimal(&most, 18),
        format!("{}.{}", &WORD_MAX[..60], &WORD_MAX[60..])
    );
    assert_eq!(get_token_price(&amt(1), 0, &most, 0), format!("{}.000000000000000000", WORD_MAX));
    assert_eq!(get_token_price(&most, 0, &most, 0), "1.000000000000000000");
    assert_eq!(get_token_price(&most, 0, &amt(1), 0), "0.000000000000000000");
    let store = store_with_pair(pair_with_decimals(0xa1, 0, 0));
    let mut log = sync_log(0xa1, 1, 1, 0);
    for i in 0..32 {
        log.data[i] = 0xff;
    }
    let reserve = reserve_from_log(&log, &store).unwrap();
    assert_eq!(reserve.reserve0, WORD_MAX);
    assert_eq!(reserve.reserve1, "1");
    assert_eq!(reserve.token0_price, "0.000000000000000000");
    assert_eq!(reserve.token1_price, format!("{}.000000000000000000", WORD_MAX));
}

#[test]
fn amounts_hold_their_digits_lowest_first() {
    assert_eq!(Amount::from_be_bytes(&[]).digits, Vec::<u8>::new());
    assert_eq!(Amount::from_be_bytes(&[0, 0]).digits, Vec::<u8>::new());
    assert_eq!(Amount::from_be_bytes(&[0x01, 0x02]).digits, vec![8, 5, 2]);
    assert_eq!(amt(1203).canonical_digits(), vec![1, 2, 0, 3]);
    assert_eq!(amt(0).canonical_digits(), vec![0]);
    assert_eq!(amt(9).canonical_digits(), vec![9]);
    assert!(amt(0).is_zero());
    assert!(Amount { digits: vec![0, 0, 0] }.is_zero());
    assert!(!amt(10).is_zero());
    let mut quarter = vec![2u8, 5];
    quarter.resize(18, 0);
    assert_eq!(price_digits(&amt(4), 0, &amt(1), 0), quarter);
    assert_eq!(copy_bytes(&[1, 2, 3]), vec![1, 2, 3]);
}

#[test]
fn prices_are_rounded_down_at_the_last_digit() {
    assert_eq!(get_token_price(&amt(3), 0, &amt(1), 0), "0.333333333333333333");
    assert_eq!(get_token_price(&amt(3), 0, &amt(2), 0), "0.666666666666666666");
    assert_eq!(get_token_price(&amt(1), 0, &amt(3), 0), "3.000000000000000000");
    assert_eq!(
        get_token_price(&amt(2), 0, &amt(1_000_000_000_000_000_000_000), 20),
        "5.000000000000000000"
    );
    assert_eq!(get_token_price(&amt(1_000_000), 6, &amt(2_500_000), 6), "2.500000000000000000");
    assert_eq!(get_token_price(&amt(7), 0, &amt(1), 19), "0.000000000000000000");
    assert_eq!(get_token_price(&amt(7), 0, &amt(123), 255), "0.000000000000000000");
    assert_eq!(get_token_price(&amt(u128::MAX), 0, &amt(u128::MAX), 0), "1.000000000000000000");
    assert_eq!(
        get_token_price(&amt(1), 18, &amt(2), 0),
        "2000000000000000000.000000000000000000"
    );
    assert_eq!(get_token_price(&amt(2), 0, &amt(1), 18), "0.000000000000000000");
    assert_eq!(get_token_price(&amt(2), 0, &amt(3), 18), "0.000000000000000001");
}

#[test]
fn price_times_reserve_gives_the_other_reserve() {
    let a: u128 = 7_000_000;
    let b: u128 = 22_000_000;
    let price = get_token_price(&amt(a), 6, &amt(b), 6);
    assert_eq!(price, "3.142857142857142857");
    let mantissa: u128 = 3_142_857_142_857_142_857;
    let scale: u128 = 1_000_000_000_000_000_000;
    assert!(mantissa * a <= b * scale);
    assert!((mantissa + 1) * a > b * scale);
}

#[test]
fn digits_render_as_fixed_text() {
    assert_eq!(render_fixed(&vec![1, 2, 3], 1), "12.3");
    assert_eq!(render_fixed(&vec![1, 2, 3], 0), "123");
    assert_eq!(render_fixed(&vec![0], 2), "0.00");
    assert_eq!(render_fixed(&vec![], 0), "0");
}

#[test]
fn words_decode_as_big_endian_numbers() {
    assert_eq!(decode_uint32(&word_of_amount(18)), 18);
    assert_eq!(decode_uint32(&word_of_amount(0x0102_0304)), 0x0102_0304);
    assert_eq!(decode_uint32(&word_of_amount(0x01_0000_0005)), 5);
}

#[test]
fn dynamic_strings_decode_to_their_text() {
    assert_eq!(decode_string(&dynamic_string("Wrapped BNB")), Some("Wrapped BNB".to_string()));
    assert_eq!(decode_string(&dynamic_string("")), Some(String::new()));
    let long = "a token with a name longer than one word of thirty-two bytes";
    assert_eq!(decode_string(&dynamic_string(long)), Some(long.to_string()));
    assert_eq!(decode_string(&dynamic_string("x")[..95]), None);
    let mut overlong = dynamic_string("abc");
    overlong[63] = 33;
    assert_eq!(decode_string(&overlong), None);
    let mut exact = dynamic_string("abc");
    exact[63] = 32;
    assert_eq!(decode_string(&exact).map(|s| s.len()), Some(32));
    let mut huge = dynamic_string("abc");
    huge[40] = 1;
    assert_eq!(decode_string(&huge), None);
    let mut broken = dynamic_string("ab");
    broken[64] = 0xff;
    assert_eq!(decode_string(&broken), Some("\u{fffd}b".to_string()));
}

#[test]
fn probe_asks_for_decimals_name_and_symbol() {
    let calls = create_rpc_calls(&[0xc0; 20]);
    assert_eq!(calls.len(), 3);
    assert!(calls.iter().all(|c| c.to_addr == vec![0xc0; 20]));
    assert_eq!(calls[0].method_signature, unhex("313ce567"));
    assert_eq!(calls[1].method_signature, unhex("06fdde03"));
    assert_eq!(calls[2].method_signature, unhex("95d89b41"));
}

#[test]
fn probe_targets_are_the_unreverted_creations() {
    let block = block_with_calls(vec![
        creation(0xc1, false),
        Call { call_type: CallType::Call, state_reverted: false, address: vec![0xc2; 20] },
        creation(0xc3, true),
        creation(0xc4, false),
    ]);
    assert_eq!(probe_targets(&block), vec![vec![0xc1u8; 20], vec![0xc4u8; 20]]);
}

#[test]
fn a_probe_with_three_good_answers_gives_a_token() {
    let found = token_from_probe(&[0xc1; 20], &good_answers());
    assert_eq!(found, Some(token(&hex::encode([0xc1u8; 20]), "Wrapped BNB", "WBNB", 18)));
}

#[test]
fn failed_decimals_probe_gives_no_token() {
    let mut answers = good_answers();
    answers[0].failed = true;
    assert_eq!(token_from_probe(&[0xc1; 20], &answers), None);
    let block = block_with_calls(vec![creation(0xc1, false)]);
    assert!(block_to_tokens(&block, &vec![answers]).is_empty());
}

#[test]
fn any_failed_or_malformed_answer_gives_no_token() {
    for i in 0..3 {
        let mut answers = good_answers();
        answers[i].failed = true;
        assert_eq!(token_from_probe(&[0xc1; 20], &answers), None);
    }
    let mut answers = good_answers();
    answers[0].raw.push(0);
    assert_eq!(token_from_probe(&[0xc1; 20], &answers), None);
    let mut answers = good_answers();
    answers[1].raw.truncate(95);
    assert_eq!(token_from_probe(&[0xc1; 20], &answers), None);
    let mut answers = good_answers();
    answers[2].raw.truncate(64);
    assert_eq!(token_from_probe(&[0xc1; 20], &answers), None);
    let mut answers = good_answers();
    answers.pop();
    assert_eq!(token_from_probe(&[0xc1; 20], &answers), None);
    let mut answers = good_answers();
    answers.push(answer(vec![]));
    assert_eq!(token_from_probe(&[0xc1; 20], &answers), None);
}

#[test]
fn block_to_tokens_pairs_targets_with_answers_by_position() {
    let block = block_with_calls(vec![
        creation(0xc1, false),
        creation(0xc2, false),
        creation(0xc3, false),
    ]);
    let mut bad = good_answers();
    bad[2].failed = true;
    let tokens = block_to_tokens(&block, &vec![good_answers(), bad, good_answers()]);
    assert_eq!(tokens.len(), 2);
    assert_eq!(tokens[0].address, hex::encode([0xc1u8; 20]));
    assert_eq!(tokens[1].address, hex::encode([0xc3u8; 20]));
    assert_eq!(tokens[1].symbol, "WBNB");
    let fewer = block_to_tokens(&block, &vec![good_answers()]);
    assert_eq!(fewer.len(), 1);
}

#[test]
fn build_tokens_state_writes_each_token_under_its_key() {
    let first = token("aa", "A", "AA", 18);
    let second = token("bb", "B", "BB", 6);
    let writes = build_tokens_state(&vec![first.duplicate(), second.duplicate()], TOKEN_ORDINAL);
    assert_eq!(TOKEN_ORDINAL, 1);
    assert_eq!(writes.len(), 2);
    assert_eq!(
        writes[0],
        StoreWrite { ordinal: 1, key: "token:aa".to_string(), value: encode_token(&first) }
    );
    assert_eq!(writes[1].key, "token:bb");
    assert_eq!(decode_token(&writes[1].value), Some(second));
    let later = build_tokens_state(&vec![token("cc", "C", "CC", 0)], 42);
    assert_eq!(later[0].ordinal, 42);
}

#[test]
fn probe_result_names_each_skip() {
    let mut answers = good_answers();
    answers.pop();
    assert_eq!(probe_result(&[0xc1; 20], &answers), Err(TokenSkip::Incomplete));
    assert_eq!(probe_result(&[0xc1; 20], &vec![]), Err(TokenSkip::Incomplete));
    let mut answers = good_answers();
    answers[1].failed = true;
    answers[1].raw.clear();
    assert_eq!(probe_result(&[0xc1; 20], &answers), Err(TokenSkip::Failed));
    let mut answers = good_answers();
    answers[0].raw.truncate(31);
    assert_eq!(probe_result(&[0xc1; 20], &answers), Err(TokenSkip::Malformed));
    let mut answers = good_answers();
    answers[2].raw[63] = 200;
    assert_eq!(probe_result(&[0xc1; 20], &answers), Err(TokenSkip::Malformed));
    assert_eq!(
        probe_result(&[0xc1; 20], &good_answers()),
        Ok(token(&hex::encode([0xc1u8; 20]), "Wrapped BNB", "WBNB", 18))
    );
}

#[test]
fn a_token_is_stored_field_by_field() {
    let stored = encode_token(&token("ab", "", "X", 258));
    let mut expected = vec![0, 0, 0, 0, 0, 0, 0, 2, b'a', b'b'];
    expected.extend_from_slice(&[0; 8]);
    expected.extend_from_slice(&[0, 0, 0, 0, 0, 0, 0, 1, b'X']);
    expected.extend_from_slice(&[0, 0, 0, 0, 0, 0, 1, 2]);
    assert_eq!(stored, expected);
    assert_eq!(decode_token(&stored), Some(token("ab", "", "X", 258)));
}

#[test]
fn stored_records_read_back_unchanged() {
    let pair = pair_with_decimals(0xa1, 18, 6);
    assert_eq!(decode_pair(&encode_pair(&pair)), Some(pair.duplicate()));
    let odd = token("0x", "B\u{e9}ta \u{1f680}", "", u64::MAX);
    assert_eq!(decode_token(&encode_token(&odd)), Some(odd));
    assert_eq!(encode_text("1.50"), b"1.50".to_vec());
    assert_eq!(encode_text("\u{e9}"), vec![0xc3, 0xa9]);
}

#[test]
fn bytes_that_hold_no_record_decode_to_none() {
    let pair = pair_with_decimals(0xa1, 18, 6);
    let stored = encode_pair(&pair);
    assert_eq!(decode_pair(&[]), None);
    assert_eq!(decode_pair(&stored[..stored.len() - 1]), None);
    let mut longer = stored.clone();
    longer.push(0);
    assert_eq!(decode_pair(&longer), None);
    let mut wrong = stored.clone();
    wrong[0] = 0xff;
    assert_eq!(decode_pair(&wrong), None);
    assert_eq!(decode_token(&stored), None);
    assert_eq!(decode_token(&[0; 7]), None);
}

#[test]
fn extraction_reads_only_the_entries_it_names() {
    let pair = pair_with_decimals(0xa1, 6, 18);
    let small = store_with_pair(pair.duplicate());
    let mut large = Store::new();
    large.set(1, "pair:ffff".to_string(), b"junk".to_vec());
    large.apply_all(build_pairs_state(&vec![pair]));
    large.set(9, "token:00".to_string(), vec![]);
    let block = block_of(vec![
        transaction(vec![2; 20], vec![sync_log(0xa1, 5, 7, 3)]),
        transaction(unhex(FACTORY), vec![pair_created_log(0xa5, 0xb0, 0xb1, 4)]),
    ]);
    let reserves = map_reserves(&block, &small);
    assert_eq!(reserves.as_ref().map(|r| r.len()), Ok(1));
    assert_eq!(reserves, map_reserves(&block, &large));
    let pairs = map_pairs(&block, &small);
    assert_eq!(pairs.as_ref().map(|p| p.len()), Ok(1));
    assert_eq!(pairs, map_pairs(&block, &large));
}
