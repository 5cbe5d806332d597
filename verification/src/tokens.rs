//! Token metadata: which contracts to probe, what a probe's answers mean, and
//! the store entries of the tokens found.

use vstd::prelude::*;
use crate::abi::{copy_bytes, decode_string, decode_uint32, lossy_text, low_u32, string_bytes, string_ok};
use crate::block::{Block, Call, CallType};
use crate::records::{Token, TokenView, tokens_view};
use crate::codec::{encode_token, token_bytes};
use crate::store::{make_token_key, token_key, writes_view, StoreWrite, WriteView};
use crate::text::{address_pretty, hex_text};

verus! {

/// One call of a metadata probe: the contract asked and the method's selector.
#[derive(Debug, PartialEq, Eq)]
pub struct ProbeCall {
    pub to_addr: Vec<u8>,
    pub method_signature: Vec<u8>,
}

/// One answer of a probe, at the position of the call it answers.
#[derive(Debug, PartialEq, Eq)]
pub struct ProbeResponse {
    pub failed: bool,
    pub raw: Vec<u8>,
}

/// The selector of `decimals()`.
pub open spec fn decimals_selector() -> Seq<u8> {
    seq![0x31u8, 0x3cu8, 0xe5u8, 0x67u8]
}

/// The selector of `name()`.
pub open spec fn name_selector() -> Seq<u8> {
    seq![0x06u8, 0xfdu8, 0xdeu8, 0x03u8]
}

/// The selector of `symbol()`.
pub open spec fn symbol_selector() -> Seq<u8> {
    seq![0x95u8, 0xd8u8, 0x9bu8, 0x41u8]
}

fn probe_call(address: &[u8], a: u8, b: u8, c: u8, d: u8) -> (call: ProbeCall)
    ensures
        call.to_addr@ == address@,
        call.method_signature@ == seq![a, b, c, d],
{
    let mut selector: Vec<u8> = Vec::new();
    selector.push(a);
    selector.push(b);
    selector.push(c);
    selector.push(d);
    assert(selector@ =~= seq![a, b, c, d]);
    ProbeCall { to_addr: copy_bytes(address), method_signature: selector }
}

/// The probe for one contract: `decimals()`, `name()` and `symbol()`, in this
/// order, each without arguments.
pub fn create_rpc_calls(address: &[u8]) -> (calls: Vec<ProbeCall>)
    ensures
        calls@.len() == 3,
        forall|i: int| 0 <= i < 3 ==> (#[trigger] calls@[i]).to_addr@ == address@,
        calls@[0].method_signature@ == decimals_selector(),
        calls@[1].method_signature@ == name_selector(),
        calls@[2].method_signature@ == symbol_selector(),
{
    let mut calls: Vec<ProbeCall> = Vec::new();
    calls.push(probe_call(address, 0x31, 0x3c, 0xe5, 0x67));
    calls.push(probe_call(address, 0x06, 0xfd, 0xde, 0x03));
    calls.push(probe_call(address, 0x95, 0xd8, 0x9b, 0x41));
    calls
}

/// A call is probed where it created a contract and was not reverted.
pub open spec fn is_creation(call: Call) -> bool {
    call.call_type == CallType::Create && !call.state_reverted
}

/// The contracts created by the first `n` calls, in order.
pub open spec fn created_by(calls: Seq<Call>, n: nat) -> Seq<Seq<u8>>
    decreases n,
{
    if n == 0 {
        Seq::empty()
    } else {
        let before = created_by(calls, (n - 1) as nat);
        if is_creation(calls[n - 1]) {
            before.push(calls[n - 1].address@)
        } else {
            before
        }
    }
}

/// The contracts created in the first `n` transactions of the block, in order.
pub open spec fn created_in(block: Block, n: nat) -> Seq<Seq<u8>>
    decreases n,
{
    if n == 0 {
        Seq::empty()
    } else {
        let calls = block.transaction_traces@[n - 1].calls@;
        created_in(block, (n - 1) as nat) + created_by(calls, calls.len())
    }
}

/// Every contract the block created, in block order.
pub open spec fn probe_targets_of(block: Block) -> Seq<Seq<u8>> {
    created_in(block, block.transaction_traces@.len())
}

pub open spec fn addresses_view(addresses: Seq<Vec<u8>>) -> Seq<Seq<u8>> {
    Seq::new(addresses.len(), |i: int| addresses[i]@)
}

/// The contracts whose metadata is to be probed: one for each creation call
/// that was not reverted, in block order.
pub fn probe_targets(block: &Block) -> (targets: Vec<Vec<u8>>)
    ensures
        addresses_view(targets@) == probe_targets_of(*block),
{
    let mut targets: Vec<Vec<u8>> = Vec::new();
    let mut t: usize = 0;
    assert(addresses_view(targets@) =~= created_in(*block, 0));
    while t < block.transaction_traces.len()
        invariant
            t <= block.transaction_traces@.len(),
            addresses_view(targets@) == created_in(*block, t as nat),
        decreases block.transaction_traces@.len() - t,
    {
        let trx = &block.transaction_traces[t];
        let ghost before = addresses_view(targets@);
        let mut c: usize = 0;
        assert(addresses_view(targets@) =~= before + created_by(trx.calls@, 0));
        while c < trx.calls.len()
            invariant
                c <= trx.calls@.len(),
                addresses_view(targets@) == before + created_by(trx.calls@, c as nat),
            decreases trx.calls@.len() - c,
        {
            let call = &trx.calls[c];
            if call.call_type == CallType::Create && !call.state_reverted {
                let ghost earlier = targets@;
                targets.push(copy_bytes(call.address.as_slice()));
                assert(addresses_view(targets@) =~= addresses_view(earlier).push(call.address@));
                assert(addresses_view(targets@) =~= before + created_by(trx.calls@, (c + 1) as nat));
            }
            c = c + 1;
        }
        t = t + 1;
    }
    targets
}

/// A probe counts where it has exactly three answers, none of them failed,
/// `decimals()` answered one 32-byte word, and `name()` and `symbol()` each
/// answered a well-formed dynamic string.
pub open spec fn probe_ok(answers: Seq<ProbeResponse>) -> bool {
    &&& answers.len() == 3
    &&& !answers[0].failed
    &&& !answers[1].failed
    &&& !answers[2].failed
    &&& answers[0].raw@.len() == 32
    &&& string_ok(answers[1].raw@)
    &&& string_ok(answers[2].raw@)
}

/// The token that a probe which counts describes.
pub open spec fn token_of_probe(address: Seq<u8>, answers: Seq<ProbeResponse>) -> TokenView {
    TokenView {
        address: hex_text(address),
        name: lossy_text(string_bytes(answers[1].raw@)),
        symbol: lossy_text(string_bytes(answers[2].raw@)),
        decimals: low_u32(answers[0].raw@) as u64,
    }
}

/// Why a probe gave no token.
#[derive(Clone, Copy, Debug, PartialEq, Eq, Structural)]
pub enum TokenSkip {
    /// The probe does not have exactly three answers.
    Incomplete,
    /// One of the three calls failed.
    Failed,
    /// An answer does not have the shape of what its call returns.
    Malformed,
}

/// What the answers of one probe give: the token they describe, or why none.
pub open spec fn probe_outcome(address: Seq<u8>, answers: Seq<ProbeResponse>) -> Result<
    TokenView,
    TokenSkip,
> {
    if answers.len() != 3 {
        Err(TokenSkip::Incomplete)
    } else if answers[0].failed || answers[1].failed || answers[2].failed {
        Err(TokenSkip::Failed)
    } else if !probe_ok(answers) {
        Err(TokenSkip::Malformed)
    } else {
        Ok(token_of_probe(address, answers))
    }
}

/// Turns the answers of one probe into a token, or says why there is none.
pub fn probe_result(address: &[u8], answers: &Vec<ProbeResponse>) -> (outcome: Result<
    Token,
    TokenSkip,
>)
    ensures
        match outcome {
            Ok(token) => probe_outcome(address@, answers@) == Ok::<TokenView, TokenSkip>(token@),
            Err(skip) => probe_outcome(address@, answers@) == Err::<TokenView, TokenSkip>(skip),
        },
{
    if answers.len() != 3 {
        return Err(TokenSkip::Incomplete);
    }
    if answers[0].failed || answers[1].failed || answers[2].failed {
        return Err(TokenSkip::Failed);
    }
    if answers[0].raw.len() != 32 {
        return Err(TokenSkip::Malformed);
    }
    let name = match decode_string(answers[1].raw.as_slice()) {
        Some(text) => text,
        None => {
            return Err(TokenSkip::Malformed);
        },
    };
    let symbol = match decode_string(answers[2].raw.as_slice()) {
        Some(text) => text,
        None => {
            return Err(TokenSkip::Malformed);
        },
    };
    let decimals: u32 = decode_uint32(answers[0].raw.as_slice());
    Ok(Token { address: address_pretty(address), name, symbol, decimals: decimals as u64 })
}

/// Turns the answers of one probe into a token. A token comes out exactly where
/// the probe counts; any failed or malformed answer gives none.
pub fn token_from_probe(address: &[u8], answers: &Vec<ProbeResponse>) -> (token: Option<Token>)
    ensures
        token.is_some() == probe_ok(answers@),
        token matches Some(t) ==> t@ == token_of_probe(address@, answers@),
{
    match probe_result(address, answers) {
        Ok(token) => Some(token),
        Err(_) => None,
    }
}

/// The tokens that the first `n` targets give, each with the answers at its own
/// position; a target without answers gives none.
pub open spec fn tokens_from(
    targets: Seq<Seq<u8>>,
    answers: Seq<Vec<ProbeResponse>>,
    n: nat,
) -> Seq<TokenView>
    decreases n,
{
    if n == 0 {
        Seq::empty()
    } else {
        let before = tokens_from(targets, answers, (n - 1) as nat);
        if n - 1 < answers.len() && probe_ok(answers[n - 1]@) {
            before.push(token_of_probe(targets[n - 1], answers[n - 1]@))
        } else {
            before
        }
    }
}

/// The tokens of a block, given the answers to the probes of its targets in the
/// order of `probe_targets`.
pub fn block_to_tokens(block: &Block, answers: &Vec<Vec<ProbeResponse>>) -> (tokens: Vec<Token>)
    ensures
        tokens_view(tokens@) == tokens_from(
            probe_targets_of(*block),
            answers@,
            probe_targets_of(*block).len(),
        ),
{
    let targets = probe_targets(block);
    let ghost wanted = probe_targets_of(*block);
    let mut tokens: Vec<Token> = Vec::new();
    let mut i: usize = 0;
    assert(tokens_view(tokens@) =~= tokens_from(wanted, answers@, 0));
    assert(targets@.len() == wanted.len());
    while i < targets.len()
        invariant
            i <= targets@.len(),
            targets@.len() == wanted.len(),
            addresses_view(targets@) == wanted,
            tokens_view(tokens@) == tokens_from(wanted, answers@, i as nat),
        decreases targets@.len() - i,
    {
        assert(addresses_view(targets@)[i as int] == targets@[i as int]@);
        if i < answers.len() {
            match token_from_probe(targets[i].as_slice(), &answers[i]) {
                Some(token) => {
                    let ghost earlier = tokens@;
                    tokens.push(token);
                    assert(tokens_view(tokens@) =~= tokens_view(earlier).push(token@));
                },
                None => {},
            }
        }
        i = i + 1;
    }
    tokens
}

/// The ordinal at which token entries are written unless a caller picks another.
pub const TOKEN_ORDINAL: u64 = 1;

/// One entry per token, its stored form under the token's key, all at
/// `ordinal`.
pub open spec fn token_writes(tokens: Seq<Token>, ordinal: u64) -> Seq<WriteView> {
    Seq::new(
        tokens.len(),
        |i: int|
            WriteView {
                ordinal,
                key: token_key(tokens[i].address@),
                value: token_bytes(tokens[i]@),
            },
    )
}

/// The store entries of the tokens, in order.
pub fn build_tokens_state(tokens: &Vec<Token>, ordinal: u64) -> (writes: Vec<StoreWrite>)
    ensures
        writes_view(writes@) == token_writes(tokens@, ordinal),
{
    let mut writes: Vec<StoreWrite> = Vec::new();
    let mut i: usize = 0;
    while i < tokens.len()
        invariant
            i <= tokens@.len(),
            writes_view(writes@) == token_writes(tokens@, ordinal).subrange(0, i as int),
        decreases tokens@.len() - i,
    {
        let token = &tokens[i];
        let write = StoreWrite {
            ordinal,
            key: make_token_key(token.address.as_str()),
            value: encode_token(token),
        };
        let ghost earlier = writes@;
        let ghost added = write@;
        let ghost all = token_writes(tokens@, ordinal);
        writes.push(write);
        assert(writes_view(writes@) =~= writes_view(earlier).push(added));
        assert(all.subrange(0, i + 1) =~= all.subrange(0, i as int).push(all[i as int]));
        i = i + 1;
    }
    assert(writes_view(writes@) =~= token_writes(tokens@, ordinal));
    writes
}

} // verus!
