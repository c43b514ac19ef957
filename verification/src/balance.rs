//! Balances derived from the transactions of a chain.

use crate::block::BlockView;
use crate::transaction::TransactionView;
use vstd::prelude::*;

verus! {

/// What one transaction adds to the balance of `address`: its amount where
/// the address receives, less its amount where the address sends.
pub open spec fn transaction_delta(t: TransactionView, address: Seq<char>) -> int {
    (if t.recipient == address {
        t.amount
    } else {
        0
    }) - (if t.sender == address {
        t.amount
    } else {
        0
    })
}

/// What a sequence of transactions adds to the balance of `address`.
pub open spec fn transactions_balance(ts: Seq<TransactionView>, address: Seq<char>) -> int
    decreases ts.len(),
{
    if ts.len() == 0 {
        0
    } else {
        transactions_balance(ts.drop_last(), address) + transaction_delta(ts.last(), address)
    }
}

/// The balance of `address` over all transactions of all blocks.
pub open spec fn chain_balance(chain: Seq<BlockView>, address: Seq<char>) -> int
    decreases chain.len(),
{
    if chain.len() == 0 {
        0
    } else {
        chain_balance(chain.drop_last(), address) + transactions_balance(
            chain.last().transactions,
            address,
        )
    }
}

/// The number of transactions in all blocks together.
pub open spec fn transaction_total(chain: Seq<BlockView>) -> nat
    decreases chain.len(),
{
    if chain.len() == 0 {
        0
    } else {
        transaction_total(chain.drop_last()) + chain.last().transactions.len()
    }
}

/// What `take(k + 1)` holds more than `take(k)`: the transactions of block `k`.
pub proof fn lemma_transaction_total_step(chain: Seq<BlockView>, k: int)
    requires
        0 <= k < chain.len(),
    ensures
        transaction_total(chain.take(k + 1)) == transaction_total(chain.take(k))
            + chain[k].transactions.len(),
{
    assert(chain.take(k + 1).drop_last() =~= chain.take(k));
}

/// A prefix of a chain holds no more transactions than the chain.
pub proof fn lemma_transaction_total_prefix(chain: Seq<BlockView>, k: int)
    requires
        0 <= k <= chain.len(),
    ensures
        transaction_total(chain.take(k)) <= transaction_total(chain),
    decreases chain.len(),
{
    if k == chain.len() {
        assert(chain.take(k) =~= chain);
    } else {
        lemma_transaction_total_prefix(chain.drop_last(), k);
        assert(chain.drop_last().take(k) =~= chain.take(k));
    }
}

} // verus!
