//! The records that the extractors emit.

use vstd::prelude::*;

verus! {

/// Metadata of a token contract.
#[derive(Debug, PartialEq, Eq)]
pub struct Token {
    pub address: String,
    pub name: String,
    pub symbol: String,
    pub decimals: u64,
}

pub struct TokenView {
    pub address: Seq<char>,
    pub name: Seq<char>,
    pub symbol: Seq<char>,
    pub decimals: u64,
}

impl View for Token {
    type V = TokenView;

    open spec fn view(&self) -> TokenView {
        TokenView {
            address: self.address@,
            name: self.name@,
            symbol: self.symbol@,
            decimals: self.decimals,
        }
    }
}

/// The reference that stands for a token whose metadata is not known yet:
/// the address alone, with empty name and symbol and no decimals.
pub open spec fn unresolved(address: Seq<char>) -> TokenView {
    TokenView { address, name: Seq::empty(), symbol: Seq::empty(), decimals: 0 }
}

impl Token {
    /// A reference to a token of which only the address is known.
    pub fn placeholder(address: String) -> (token: Token)
        ensures
            token@ == unresolved(address@),
    {
        Token { address, name: String::new(), symbol: String::new(), decimals: 0 }
    }

    /// An independent copy of the record.
    pub fn duplicate(&self) -> (copy: Token)
        ensures
            copy@ == self@,
    {
        Token {
            address: self.address.clone(),
            name: self.name.clone(),
            symbol: self.symbol.clone(),
            decimals: self.decimals,
        }
    }
}

/// A discovered trading pair.
#[derive(Debug, PartialEq, Eq)]
pub struct Pair {
    pub address: String,
    pub token0: Token,
    pub token1: Token,
    pub creation_transaction_id: String,
    pub block_num: u64,
    pub log_ordinal: u64,
}

pub struct PairView {
    pub address: Seq<char>,
    pub token0: TokenView,
    pub token1: TokenView,
    pub creation_transaction_id: Seq<char>,
    pub block_num: u64,
    pub log_ordinal: u64,
}

impl View for Pair {
    type V = PairView;

    open spec fn view(&self) -> PairView {
        PairView {
            address: self.address@,
            token0: self.token0@,
            token1: self.token1@,
            creation_transaction_id: self.creation_transaction_id@,
            block_num: self.block_num,
            log_ordinal: self.log_ordinal,
        }
    }
}

impl Pair {
    /// An independent copy of the record.
    pub fn duplicate(&self) -> (copy: Pair)
        ensures
            copy@ == self@,
    {
        Pair {
            address: self.address.clone(),
            token0: self.token0.duplicate(),
            token1: self.token1.duplicate(),
            creation_transaction_id: self.creation_transaction_id.clone(),
            block_num: self.block_num,
            log_ordinal: self.log_ordinal,
        }
    }
}

/// A snapshot of a pair's liquidity and spot prices at one log.
#[derive(Debug, PartialEq, Eq)]
pub struct Reserve {
    pub pair_address: String,
    pub reserve0: String,
    pub reserve1: String,
    pub token0_price: String,
    pub token1_price: String,
    pub log_ordinal: u64,
}

pub struct ReserveView {
    pub pair_address: Seq<char>,
    pub reserve0: Seq<char>,
    pub reserve1: Seq<char>,
    pub token0_price: Seq<char>,
    pub token1_price: Seq<char>,
    pub log_ordinal: u64,
}

impl View for Reserve {
    type V = ReserveView;

    open spec fn view(&self) -> ReserveView {
        ReserveView {
            pair_address: self.pair_address@,
            reserve0: self.reserve0@,
            reserve1: self.reserve1@,
            token0_price: self.token0_price@,
            token1_price: self.token1_price@,
            log_ordinal: self.log_ordinal,
        }
    }
}

/// The views of a sequence of records, in order.
pub open spec fn tokens_view(tokens: Seq<Token>) -> Seq<TokenView> {
    Seq::new(tokens.len(), |i: int| tokens[i]@)
}

pub open spec fn pairs_view(pairs: Seq<Pair>) -> Seq<PairView> {
    Seq::new(pairs.len(), |i: int| pairs[i]@)
}

pub open spec fn reserves_view(reserves: Seq<Reserve>) -> Seq<ReserveView> {
    Seq::new(reserves.len(), |i: int| reserves[i]@)
}

} // verus!
