//! What holds of the stages whatever the block and the store.

use vstd::prelude::*;
use vstd::arithmetic::div_mod::{lemma_fundamental_div_mod, lemma_mod_bound};
use crate::block::{is_log, Block, Transaction};
use crate::decimal::{fixed_text, lemma_pow10_positive, pow10, price_mantissa, PRICE_SCALE};
use crate::pairs::{pair_corrupt_at, pair_outcome, pair_shape_ok, pair_writes, pairs_corrupt, pairs_in, pairs_in_logs, pairs_of};
use crate::records::{Pair, PairView, ReserveView, pairs_view};
use crate::codec::{lemma_pair_round_trip, storable_pair};
use crate::reserves::{known_pair, pair_entry_corrupt, reserve_corrupt_at, reserve_outcome, reserve_writes, reserves_corrupt, reserves_in, reserves_in_logs, reserves_of};
use crate::text::hex_text;
use crate::store::{canonical_tokens, latest, lex_less, pair_key, token_key, WriteView};
use crate::tokens::{probe_ok, ProbeResponse};
use crate::block::Log;

verus! {

/// Two runs of the pair extractor on one block and one store give the same
/// pairs in the same order.
pub proof fn lemma_extraction_is_determined(
    block: Block,
    store: Seq<WriteView>,
    first: Seq<Pair>,
    second: Seq<Pair>,
)
    requires
        pairs_view(first) == pairs_of(block, store),
        pairs_view(second) == pairs_of(block, store),
    ensures
        pairs_view(first) == pairs_view(second),
{
}

/// The position counter of log `l` of transaction `t`.
pub open spec fn log_index(block: Block, t: int, l: int) -> u32 {
    block.transaction_traces@[t].logs()[l].block_index
}

/// The block numbers its logs in the order in which they are met: a log that
/// comes later, in the same transaction or in a later one, has a larger index.
pub open spec fn logs_ordered(block: Block) -> bool {
    forall|t1: int, l1: int, t2: int, l2: int|
        is_log(block, t1, l1) && is_log(block, t2, l2) && (t1 < t2 || (t1 == t2 && l1 < l2))
            ==> #[trigger] log_index(block, t1, l1) < #[trigger] log_index(block, t2, l2)
}

pub open spec fn logs_increase(logs: Seq<Log>) -> bool {
    forall|i: int, j: int|
        0 <= i < j < logs.len() ==> (#[trigger] logs[i]).block_index < (
        #[trigger] logs[j]).block_index
}

pub open spec fn first_within(logs: Seq<Log>, n: nat, lo: int, hi: int) -> bool {
    forall|l: int| 0 <= l < n ==> lo < (#[trigger] logs[l]).block_index < hi
}

pub open spec fn pair_ordinals_increase(pairs: Seq<PairView>) -> bool {
    forall|i: int, j: int|
        0 <= i < j < pairs.len() ==> (#[trigger] pairs[i]).log_ordinal < (
        #[trigger] pairs[j]).log_ordinal
}

pub open spec fn pair_ordinals_within(pairs: Seq<PairView>, lo: int, hi: int) -> bool {
    forall|k: int| 0 <= k < pairs.len() ==> lo < (#[trigger] pairs[k]).log_ordinal < hi
}

pub open spec fn reserve_ordinals_increase(reserves: Seq<ReserveView>) -> bool {
    forall|i: int, j: int|
        0 <= i < j < reserves.len() ==> (#[trigger] reserves[i]).log_ordinal < (
        #[trigger] reserves[j]).log_ordinal
}

pub open spec fn reserve_ordinals_within(reserves: Seq<ReserveView>, lo: int, hi: int) -> bool {
    forall|k: int| 0 <= k < reserves.len() ==> lo < (#[trigger] reserves[k]).log_ordinal < hi
}

proof fn lemma_pairs_of_logs_increase(
    block_num: u64,
    trx: Transaction,
    store: Seq<WriteView>,
    n: nat,
    lo: int,
    hi: int,
)
    requires
        n <= trx.logs().len(),
        logs_increase(trx.logs()),
        first_within(trx.logs(), n, lo, hi),
    ensures
        pair_ordinals_increase(pairs_in_logs(block_num, trx, store, n)),
        pair_ordinals_within(pairs_in_logs(block_num, trx, store, n), lo, hi),
    decreases n,
{
    if n > 0 {
        let last = trx.logs()[n - 1];
        lemma_pairs_of_logs_increase(block_num, trx, store, (n - 1) as nat, lo, hi);
        assert(first_within(trx.logs(), (n - 1) as nat, lo, last.block_index as int)) by {
            assert forall|l: int| 0 <= l < n - 1 implies lo < (
            #[trigger] trx.logs()[l]).block_index < last.block_index by {
                assert(trx.logs()[n - 1].block_index == last.block_index);
            }
        }
        lemma_pairs_of_logs_increase(
            block_num,
            trx,
            store,
            (n - 1) as nat,
            lo,
            last.block_index as int,
        );
    }
}

proof fn lemma_pairs_of_block_increase(block: Block, store: Seq<WriteView>, t: nat, hi: int)
    requires
        logs_ordered(block),
        t <= block.transaction_traces@.len(),
        forall|t1: int, l1: int|
            is_log(block, t1, l1) && t1 < t ==> #[trigger] log_index(block, t1, l1) < hi,
    ensures
        pair_ordinals_increase(pairs_in(block, store, t)),
        pair_ordinals_within(pairs_in(block, store, t), -1, hi),
    decreases t,
{
    if t > 0 {
        let trx = block.transaction_traces@[t - 1];
        let logs = trx.logs();
        let n = logs.len();
        if n == 0 {
            lemma_pairs_of_block_increase(block, store, (t - 1) as nat, hi);
            assert(pairs_in(block, store, t) =~= pairs_in(block, store, (t - 1) as nat));
        } else {
            let mid = log_index(block, t - 1, 0) as int;
            assert(is_log(block, t - 1, 0));
            assert forall|t1: int, l1: int| is_log(block, t1, l1) && t1 < t - 1 implies
                #[trigger] log_index(block, t1, l1) < mid by {
                assert(log_index(block, t1, l1) < log_index(block, t - 1, 0));
            }
            lemma_pairs_of_block_increase(block, store, (t - 1) as nat, mid);
            assert(logs_increase(logs)) by {
                assert forall|i: int, j: int| 0 <= i < j < logs.len() implies (
                #[trigger] logs[i]).block_index < (#[trigger] logs[j]).block_index by {
                    assert(is_log(block, t - 1, i) && is_log(block, t - 1, j));
                    assert(log_index(block, t - 1, i) < log_index(block, t - 1, j));
                }
            }
            assert(first_within(logs, n, mid - 1, hi)) by {
                assert forall|l: int| 0 <= l < n implies mid - 1 < (
                #[trigger] logs[l]).block_index < hi by {
                    assert(is_log(block, t - 1, l));
                    assert(log_index(block, t - 1, l) < hi);
                    if l > 0 {
                        assert(log_index(block, t - 1, 0) < log_index(block, t - 1, l));
                    }
                }
            }
            lemma_pairs_of_logs_increase(block.number, trx, store, n, mid - 1, hi);
        }
    }
}

/// Where a block numbers its logs in the order in which they are met, the
/// pairs extracted from it carry strictly increasing log ordinals.
pub proof fn lemma_pair_ordinals_increase(block: Block, store: Seq<WriteView>)
    requires
        logs_ordered(block),
    ensures
        pair_ordinals_increase(pairs_of(block, store)),
{
    lemma_pairs_of_block_increase(block, store, block.transaction_traces@.len(), 0x1_0000_0000);
}

proof fn lemma_reserves_of_logs_increase(
    logs: Seq<Log>,
    store: Seq<WriteView>,
    n: nat,
    lo: int,
    hi: int,
)
    requires
        n <= logs.len(),
        logs_increase(logs),
        first_within(logs, n, lo, hi),
    ensures
        reserve_ordinals_increase(reserves_in_logs(logs, store, n)),
        reserve_ordinals_within(reserves_in_logs(logs, store, n), lo, hi),
    decreases n,
{
    if n > 0 {
        let last = logs[n - 1];
        lemma_reserves_of_logs_increase(logs, store, (n - 1) as nat, lo, hi);
        assert(first_within(logs, (n - 1) as nat, lo, last.block_index as int)) by {
            assert forall|l: int| 0 <= l < n - 1 implies lo < (#[trigger] logs[l]).block_index
                < last.block_index by {
                assert(logs[n - 1].block_index == last.block_index);
            }
        }
        lemma_reserves_of_logs_increase(logs, store, (n - 1) as nat, lo, last.block_index as int);
    }
}

proof fn lemma_reserves_of_block_increase(block: Block, store: Seq<WriteView>, t: nat, hi: int)
    requires
        logs_ordered(block),
        t <= block.transaction_traces@.len(),
        forall|t1: int, l1: int|
            is_log(block, t1, l1) && t1 < t ==> #[trigger] log_index(block, t1, l1) < hi,
    ensures
        reserve_ordinals_increase(reserves_in(block, store, t)),
        reserve_ordinals_within(reserves_in(block, store, t), -1, hi),
    decreases t,
{
    if t > 0 {
        let logs = block.transaction_traces@[t - 1].logs();
        let n = logs.len();
        if n == 0 {
            lemma_reserves_of_block_increase(block, store, (t - 1) as nat, hi);
            assert(reserves_in(block, store, t) =~= reserves_in(block, store, (t - 1) as nat));
        } else {
            let mid = log_index(block, t - 1, 0) as int;
            assert(is_log(block, t - 1, 0));
            assert forall|t1: int, l1: int| is_log(block, t1, l1) && t1 < t - 1 implies
                #[trigger] log_index(block, t1, l1) < mid by {
                assert(log_index(block, t1, l1) < log_index(block, t - 1, 0));
            }
            lemma_reserves_of_block_increase(block, store, (t - 1) as nat, mid);
            assert(logs_increase(logs)) by {
                assert forall|i: int, j: int| 0 <= i < j < logs.len() implies (
                #[trigger] logs[i]).block_index < (#[trigger] logs[j]).block_index by {
                    assert(is_log(block, t - 1, i) && is_log(block, t - 1, j));
                    assert(log_index(block, t - 1, i) < log_index(block, t - 1, j));
                }
            }
            assert(first_within(logs, n, mid - 1, hi)) by {
                assert forall|l: int| 0 <= l < n implies mid - 1 < (
                #[trigger] logs[l]).block_index < hi by {
                    assert(is_log(block, t - 1, l));
                    assert(log_index(block, t - 1, l) < hi);
                    if l > 0 {
                        assert(log_index(block, t - 1, 0) < log_index(block, t - 1, l));
                    }
                }
            }
            lemma_reserves_of_logs_increase(logs, store, n, mid - 1, hi);
        }
    }
}

/// Where a block numbers its logs in the order in which they are met, the
/// reserves extracted from it carry strictly increasing log ordinals.
pub proof fn lemma_reserve_ordinals_increase(block: Block, store: Seq<WriteView>)
    requires
        logs_ordered(block),
    ensures
        reserve_ordinals_increase(reserves_of(block, store)),
{
    lemma_reserves_of_block_increase(
        block,
        store,
        block.transaction_traces@.len(),
        0x1_0000_0000,
    );
}

/// A price times the amount it was divided by gives back the other amount, to
/// within one unit of the price's last digit: with both sides brought to whole
/// numbers, `price * a` does not exceed `b`, and `(price + 1) * a` does.
pub proof fn lemma_price_times_reserve(a: nat, a_dec: nat, b: nat, b_dec: nat)
    requires
        a > 0,
    ensures
        price_mantissa(a, a_dec, b, b_dec) * (a * pow10(b_dec)) <= b * pow10(
            a_dec + PRICE_SCALE as nat,
        ),
        b * pow10(a_dec + PRICE_SCALE as nat) < (price_mantissa(a, a_dec, b, b_dec) + 1) * (a
            * pow10(b_dec)),
{
    lemma_pow10_positive(b_dec);
    let num = (b * pow10(a_dec + PRICE_SCALE as nat)) as int;
    let den = (a * pow10(b_dec)) as int;
    assert(den > 0) by (nonlinear_arith)
        requires
            den == a * pow10(b_dec),
            a > 0,
            pow10(b_dec) > 0,
    ;
    lemma_fundamental_div_mod(num, den);
    lemma_mod_bound(num, den);
    let q = num / den;
    assert(q * den <= num && num < (q + 1) * den) by (nonlinear_arith)
        requires
            num == den * q + num % den,
            0 <= num % den < den,
    ;
}

/// The price of a token whose reserve is zero is zero.
pub proof fn lemma_price_of_nothing(a_dec: nat, b: nat, b_dec: nat)
    ensures
        price_mantissa(0, a_dec, b, b_dec) == 0,
        fixed_text(price_mantissa(0, a_dec, b, b_dec), PRICE_SCALE as nat)
            == "0.000000000000000000"@,
{
    reveal_strlit("0.000000000000000000");
    assert(fixed_text(0, 18) =~= "0.000000000000000000"@);
}

/// A probe with a failed answer gives no token.
pub proof fn lemma_failed_probe_gives_nothing(answers: Seq<ProbeResponse>, i: int)
    requires
        0 <= i < answers.len(),
        answers[i].failed,
    ensures
        !probe_ok(answers),
{
}

/// A reserve of a known pair gives exactly four store entries, and all four
/// carry the reserve's log ordinal.
pub proof fn lemma_reserve_gives_four_entries(reserve: ReserveView, pair: PairView)
    ensures
        reserve_writes(reserve, pair).len() == 4,
        forall|i: int|
            0 <= i < 4 ==> (#[trigger] reserve_writes(reserve, pair)[i]).ordinal
                == reserve.log_ordinal,
{
}

/// A pair that was written to the store is read back unchanged: after its two
/// entries, the lookup of the pair's address finds an entry that holds the pair
/// itself.
pub proof fn lemma_pair_is_read_back(store: Seq<WriteView>, pair: PairView)
    requires
        storable_pair(pair),
    ensures
        known_pair(store + pair_writes(pair), pair.address) == Some(pair),
        !pair_entry_corrupt(store + pair_writes(pair), pair.address),
{
    reveal_strlit("pair:");
    reveal_strlit("tokens:");
    lemma_pair_round_trip(pair);
    let after = store + pair_writes(pair);
    let key = pair_key(pair.address);
    assert(after.last() == pair_writes(pair)[1]);
    assert(after.last().key[0] == 't');
    assert(key[0] == 'p');
    assert(after.last().key != key);
    let shorter = after.drop_last();
    assert(shorter.last() == pair_writes(pair)[0]);
    assert(latest(after, key) == latest(shorter, key));
}

/// Of two different byte strings exactly one comes before the other, and a
/// byte string does not come before itself.
pub proof fn lemma_byte_order_is_total(a: Seq<u8>, b: Seq<u8>)
    ensures
        !(lex_less(a, b) && lex_less(b, a)),
        !lex_less(a, b) && !lex_less(b, a) ==> a == b,
    decreases a.len(),
{
    if a.len() > 0 && b.len() > 0 && a[0] == b[0] {
        let ra = a.subrange(1, a.len() as int);
        let rb = b.subrange(1, b.len() as int);
        lemma_byte_order_is_total(ra, rb);
        if ra == rb {
            assert(a =~= seq![a[0]] + ra);
            assert(b =~= seq![b[0]] + rb);
        }
    } else if a.len() == 0 && b.len() == 0 {
        assert(a =~= b);
    }
}

/// The composite of two token addresses does not depend on the order in which
/// they are given, so that a pair is found from its tokens either way round.
pub proof fn lemma_tokens_key_is_symmetric(token0: Seq<char>, token1: Seq<char>)
    ensures
        canonical_tokens(token0, token1) == canonical_tokens(token1, token0),
{
    let b0 = vstd::utf8::encode_utf8(token0);
    let b1 = vstd::utf8::encode_utf8(token1);
    lemma_byte_order_is_total(b0, b1);
    if !lex_less(b0, b1) && !lex_less(b1, b0) {
        vstd::utf8::encode_utf8_decode_utf8(token0);
        vstd::utf8::encode_utf8_decode_utf8(token1);
        assert(token0 == token1);
    }
}

/// Whether two stores hold the same latest entry for the pair at the address
/// of log `l` of transaction `t`.
pub open spec fn same_pair_entry(
    block: Block,
    first: Seq<WriteView>,
    second: Seq<WriteView>,
    t: int,
    l: int,
) -> bool {
    let address = hex_text(block.transaction_traces@[t].logs()[l].address@);
    latest(first, pair_key(address)) == latest(second, pair_key(address))
}

proof fn lemma_logs_read_only_their_pairs(
    logs: Seq<Log>,
    first: Seq<WriteView>,
    second: Seq<WriteView>,
    n: nat,
)
    requires
        n <= logs.len(),
        forall|l: int|
            0 <= l < logs.len() ==> latest(first, pair_key(hex_text((#[trigger] logs[l]).address@)))
                == latest(second, pair_key(hex_text(logs[l].address@))),
    ensures
        reserves_in_logs(logs, first, n) == reserves_in_logs(logs, second, n),
    decreases n,
{
    if n > 0 {
        lemma_logs_read_only_their_pairs(logs, first, second, (n - 1) as nat);
        let log = logs[n - 1];
        assert(reserve_outcome(log, first) == reserve_outcome(log, second));
    }
}

proof fn lemma_block_reads_only_its_pairs(
    block: Block,
    first: Seq<WriteView>,
    second: Seq<WriteView>,
    t: nat,
)
    requires
        t <= block.transaction_traces@.len(),
        forall|t2: int, l2: int|
            is_log(block, t2, l2) ==> #[trigger] same_pair_entry(block, first, second, t2, l2),
    ensures
        reserves_in(block, first, t) == reserves_in(block, second, t),
    decreases t,
{
    if t > 0 {
        lemma_block_reads_only_its_pairs(block, first, second, (t - 1) as nat);
        let logs = block.transaction_traces@[t - 1].logs();
        assert forall|l: int| 0 <= l < logs.len() implies latest(
            first,
            pair_key(hex_text((#[trigger] logs[l]).address@)),
        ) == latest(second, pair_key(hex_text(logs[l].address@))) by {
            assert(is_log(block, t - 1, l));
            assert(same_pair_entry(block, first, second, t - 1, l));
        }
        lemma_logs_read_only_their_pairs(logs, first, second, logs.len());
    }
}

/// The reserve extractor reads the store only at the pairs of the addresses
/// that emitted the block's logs: two stores that hold the same latest entry
/// for each of them give the same reserves, and fail together.
pub proof fn lemma_reserves_read_only_their_pairs(
    block: Block,
    first: Seq<WriteView>,
    second: Seq<WriteView>,
)
    requires
        forall|t: int, l: int|
            is_log(block, t, l) ==> #[trigger] same_pair_entry(block, first, second, t, l),
    ensures
        reserves_of(block, first) == reserves_of(block, second),
        reserves_corrupt(block, first) == reserves_corrupt(block, second),
{
    lemma_block_reads_only_its_pairs(block, first, second, block.transaction_traces@.len());
    assert forall|t: int, l: int| is_log(block, t, l) implies reserve_corrupt_at(
        block,
        first,
        t,
        l,
    ) == reserve_corrupt_at(block, second, t, l) by {
        assert(same_pair_entry(block, first, second, t, l));
    }
    if reserves_corrupt(block, first) {
        let (t, l) = choose|t: int, l: int|
            is_log(block, t, l) && #[trigger] reserve_corrupt_at(block, first, t, l);
        assert(reserve_corrupt_at(block, second, t, l));
    }
    if reserves_corrupt(block, second) {
        let (t, l) = choose|t: int, l: int|
            is_log(block, t, l) && #[trigger] reserve_corrupt_at(block, second, t, l);
        assert(reserve_corrupt_at(block, first, t, l));
    }
}

/// Whether two stores hold the same latest entries for the two tokens that a
/// log names.
pub open spec fn same_token_entries(log: Log, first: Seq<WriteView>, second: Seq<WriteView>) -> bool {
    pair_shape_ok(log) ==> {
        let token0 = token_key(hex_text(log.topics@[1]@.subrange(12, 32)));
        let token1 = token_key(hex_text(log.topics@[2]@.subrange(12, 32)));
        latest(first, token0) == latest(second, token0) && latest(first, token1) == latest(
            second,
            token1,
        )
    }
}

pub open spec fn same_token_entries_at(
    block: Block,
    first: Seq<WriteView>,
    second: Seq<WriteView>,
    t: int,
    l: int,
) -> bool {
    same_token_entries(block.transaction_traces@[t].logs()[l], first, second)
}

proof fn lemma_logs_read_only_their_tokens(
    block_num: u64,
    trx: Transaction,
    first: Seq<WriteView>,
    second: Seq<WriteView>,
    n: nat,
)
    requires
        n <= trx.logs().len(),
        forall|l: int|
            0 <= l < trx.logs().len() ==> same_token_entries(
                #[trigger] trx.logs()[l],
                first,
                second,
            ),
    ensures
        pairs_in_logs(block_num, trx, first, n) == pairs_in_logs(block_num, trx, second, n),
    decreases n,
{
    if n > 0 {
        lemma_logs_read_only_their_tokens(block_num, trx, first, second, (n - 1) as nat);
        let log = trx.logs()[n - 1];
        assert(same_token_entries(log, first, second));
        assert(pair_outcome(block_num, trx, log, first) == pair_outcome(
            block_num,
            trx,
            log,
            second,
        ));
    }
}

proof fn lemma_block_reads_only_its_tokens(
    block: Block,
    first: Seq<WriteView>,
    second: Seq<WriteView>,
    t: nat,
)
    requires
        t <= block.transaction_traces@.len(),
        forall|t2: int, l2: int|
            is_log(block, t2, l2) ==> #[trigger] same_token_entries_at(
                block,
                first,
                second,
                t2,
                l2,
            ),
    ensures
        pairs_in(block, first, t) == pairs_in(block, second, t),
    decreases t,
{
    if t > 0 {
        lemma_block_reads_only_its_tokens(block, first, second, (t - 1) as nat);
        let trx = block.transaction_traces@[t - 1];
        assert forall|l: int| 0 <= l < trx.logs().len() implies same_token_entries(
            #[trigger] trx.logs()[l],
            first,
            second,
        ) by {
            assert(is_log(block, t - 1, l));
            assert(same_token_entries_at(block, first, second, t - 1, l));
        }
        lemma_logs_read_only_their_tokens(block.number, trx, first, second, trx.logs().len());
    }
}

/// The pair extractor reads the store only at the tokens that the block's logs
/// name: two stores that hold the same latest entries for them give the same
/// pairs, and fail together.
pub proof fn lemma_pairs_read_only_their_tokens(
    block: Block,
    first: Seq<WriteView>,
    second: Seq<WriteView>,
)
    requires
        forall|t: int, l: int|
            is_log(block, t, l) ==> #[trigger] same_token_entries_at(block, first, second, t, l),
    ensures
        pairs_of(block, first) == pairs_of(block, second),
        pairs_corrupt(block, first) == pairs_corrupt(block, second),
{
    lemma_block_reads_only_its_tokens(block, first, second, block.transaction_traces@.len());
    assert forall|t: int, l: int| is_log(block, t, l) implies pair_corrupt_at(block, first, t, l)
        == pair_corrupt_at(block, second, t, l) by {
        assert(same_token_entries_at(block, first, second, t, l));
    }
    if pairs_corrupt(block, first) {
        let (t, l) = choose|t: int, l: int|
            is_log(block, t, l) && #[trigger] pair_corrupt_at(block, first, t, l);
        assert(pair_corrupt_at(block, second, t, l));
    }
    if pairs_corrupt(block, second) {
        let (t, l) = choose|t: int, l: int|
            is_log(block, t, l) && #[trigger] pair_corrupt_at(block, second, t, l);
        assert(pair_corrupt_at(block, first, t, l));
    }
}

} // verus!
