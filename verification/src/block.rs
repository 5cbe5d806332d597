//! The block as the stages read it: transactions, their call traces and the
//! logs of their receipts.

use vstd::prelude::*;

verus! {

/// One log entry of a receipt.
pub struct Log {
    /// The contract that emitted the log.
    pub address: Vec<u8>,
    pub topics: Vec<Vec<u8>>,
    pub data: Vec<u8>,
    /// The position of the log within its block.
    pub block_index: u32,
}

pub struct Receipt {
    pub logs: Vec<Log>,
}

/// What a call does; only the creation of a contract matters to the stages.
#[derive(Clone, Copy, Debug, PartialEq, Eq, Structural)]
pub enum CallType {
    Unspecified,
    Call,
    Callcode,
    Delegate,
    Static,
    Create,
}

/// One call of a transaction's trace.
pub struct Call {
    pub call_type: CallType,
    pub state_reverted: bool,
    /// The callee; for a creation, the contract that was created.
    pub address: Vec<u8>,
}

pub struct Transaction {
    pub to: Vec<u8>,
    pub hash: Vec<u8>,
    pub calls: Vec<Call>,
    pub receipt: Option<Receipt>,
}

pub struct Block {
    pub number: u64,
    pub transaction_traces: Vec<Transaction>,
}

impl Transaction {
    /// The logs of the receipt, none where the transaction has no receipt.
    pub open spec fn logs(&self) -> Seq<Log> {
        match self.receipt {
            Some(receipt) => receipt.logs@,
            None => Seq::empty(),
        }
    }

    /// How many logs the receipt holds.
    pub fn log_count(&self) -> (n: usize)
        ensures
            n == self.logs().len(),
    {
        match &self.receipt {
            Some(receipt) => receipt.logs.len(),
            None => 0,
        }
    }

    /// The log at position `i` of the receipt.
    pub fn log_at(&self, i: usize) -> (log: &Log)
        requires
            i < self.logs().len(),
        ensures
            *log == self.logs()[i as int],
    {
        match &self.receipt {
            Some(receipt) => &receipt.logs[i],
            None => &self.receipt.as_ref().unwrap().logs[i],
        }
    }
}

/// Whether the block has a log at position `l` of transaction `t`.
pub open spec fn is_log(block: Block, t: int, l: int) -> bool {
    0 <= t < block.transaction_traces@.len() && 0 <= l < block.transaction_traces@[t].logs().len()
}

} // verus!
