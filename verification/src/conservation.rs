//! Transfers are zero-sum: what the balances of a set of addresses add up to.

use crate::balance::{chain_balance, transaction_delta, transactions_balance};
use crate::block::BlockView;
use crate::blockchain::{mine_outcome, reward_transaction, system_sender, BlockchainView};
use crate::transaction::TransactionView;
use vstd::prelude::*;

verus! {

/// The sum of the balances of `addresses` over a chain.
pub open spec fn total_balance(chain: Seq<BlockView>, addresses: Seq<Seq<char>>) -> int
    decreases addresses.len(),
{
    if addresses.len() == 0 {
        0
    } else {
        total_balance(chain, addresses.drop_last()) + chain_balance(chain, addresses.last())
    }
}

/// What a sequence of transactions adds to the balances of `addresses`
/// together.
pub open spec fn transactions_total(ts: Seq<TransactionView>, addresses: Seq<Seq<char>>) -> int
    decreases addresses.len(),
{
    if addresses.len() == 0 {
        0
    } else {
        transactions_total(ts, addresses.drop_last()) + transactions_balance(ts, addresses.last())
    }
}

/// What one transaction adds to the balances of `addresses` together.
pub open spec fn delta_total(t: TransactionView, addresses: Seq<Seq<char>>) -> int
    decreases addresses.len(),
{
    if addresses.len() == 0 {
        0
    } else {
        delta_total(t, addresses.drop_last()) + transaction_delta(t, addresses.last())
    }
}

/// What a transaction brings into a group of addresses from outside: its
/// amount where the recipient belongs to the group, less its amount where the
/// sender does.
pub open spec fn inflow(t: TransactionView, group: Seq<Seq<char>>) -> int {
    (if group.contains(t.recipient) {
        t.amount
    } else {
        0
    }) - (if group.contains(t.sender) {
        t.amount
    } else {
        0
    })
}

/// The inflow of a sequence of transactions into a group.
pub open spec fn transactions_inflow(ts: Seq<TransactionView>, group: Seq<Seq<char>>) -> int
    decreases ts.len(),
{
    if ts.len() == 0 {
        0
    } else {
        transactions_inflow(ts.drop_last(), group) + inflow(ts.last(), group)
    }
}

/// The inflow of all transactions of a chain into a group.
pub open spec fn chain_inflow(chain: Seq<BlockView>, group: Seq<Seq<char>>) -> int
    decreases chain.len(),
{
    if chain.len() == 0 {
        0
    } else {
        chain_inflow(chain.drop_last(), group) + transactions_inflow(
            chain.last().transactions,
            group,
        )
    }
}

/// Every sender and every recipient of `ts` belongs to the group.
pub open spec fn transactions_within(ts: Seq<TransactionView>, group: Seq<Seq<char>>) -> bool {
    forall|j: int|
        0 <= j < ts.len() ==> group.contains((#[trigger] ts[j]).sender) && group.contains(
            ts[j].recipient,
        )
}

/// Every sender and every recipient of the chain belongs to the group.
pub open spec fn chain_within(chain: Seq<BlockView>, group: Seq<Seq<char>>) -> bool {
    forall|k: int|
        0 <= k < chain.len() ==> transactions_within((#[trigger] chain[k]).transactions, group)
}

/// An address belongs to a sequence where it belongs to all but the last or
/// is the last; in a sequence without repeats the last occurs only there.
proof fn lemma_split_last(s: Seq<Seq<char>>, x: Seq<char>)
    requires
        s.len() > 0,
    ensures
        s.contains(x) == (s.drop_last().contains(x) || s.last() == x),
        s.no_duplicates() ==> s.drop_last().no_duplicates() && !s.drop_last().contains(s.last()),
{
    let init = s.drop_last();
    if s.contains(x) {
        let i = choose|i: int| 0 <= i < s.len() && s[i] == x;
        if i < init.len() {
            assert(init[i] == x);
        }
    }
    if init.contains(x) {
        let i = choose|i: int| 0 <= i < init.len() && init[i] == x;
        assert(s[i] == x);
    }
    if s.last() == x {
        assert(s[s.len() - 1] == x);
    }
    if s.no_duplicates() {
        assert forall|i: int, j: int|
            0 <= i < init.len() && 0 <= j < init.len() && i != j implies init[i] != init[j] by {
            assert(s[i] != s[j]);
        }
        if init.contains(s.last()) {
            let i = choose|i: int| 0 <= i < init.len() && init[i] == s.last();
            assert(s[i] == s[s.len() - 1]);
        }
    }
}

/// To distinct addresses together one transaction adds its inflow.
proof fn lemma_delta_total(t: TransactionView, group: Seq<Seq<char>>)
    requires
        group.no_duplicates(),
    ensures
        delta_total(t, group) == inflow(t, group),
    decreases group.len(),
{
    if group.len() > 0 {
        lemma_split_last(group, t.sender);
        lemma_split_last(group, t.recipient);
        lemma_delta_total(t, group.drop_last());
    } else {
        assert(!group.contains(t.sender));
        assert(!group.contains(t.recipient));
    }
}

/// The last transaction adds to a group what it adds to each address of it.
proof fn lemma_transactions_total_step(ts: Seq<TransactionView>, group: Seq<Seq<char>>)
    requires
        ts.len() > 0,
    ensures
        transactions_total(ts, group) == transactions_total(ts.drop_last(), group) + delta_total(
            ts.last(),
            group,
        ),
    decreases group.len(),
{
    if group.len() > 0 {
        lemma_transactions_total_step(ts, group.drop_last());
    }
}

/// No transactions add nothing.
proof fn lemma_transactions_total_empty(ts: Seq<TransactionView>, group: Seq<Seq<char>>)
    requires
        ts.len() == 0,
    ensures
        transactions_total(ts, group) == 0,
    decreases group.len(),
{
    if group.len() > 0 {
        lemma_transactions_total_empty(ts, group.drop_last());
    }
}

/// To distinct addresses together transactions add their inflow.
proof fn lemma_transactions_total(ts: Seq<TransactionView>, group: Seq<Seq<char>>)
    requires
        group.no_duplicates(),
    ensures
        transactions_total(ts, group) == transactions_inflow(ts, group),
    decreases ts.len(),
{
    if ts.len() > 0 {
        lemma_transactions_total_step(ts, group);
        lemma_delta_total(ts.last(), group);
        lemma_transactions_total(ts.drop_last(), group);
    } else {
        lemma_transactions_total_empty(ts, group);
    }
}

/// The last block adds to a group what its transactions add to it.
proof fn lemma_total_balance_step(chain: Seq<BlockView>, group: Seq<Seq<char>>)
    requires
        chain.len() > 0,
    ensures
        total_balance(chain, group) == total_balance(chain.drop_last(), group)
            + transactions_total(chain.last().transactions, group),
    decreases group.len(),
{
    if group.len() > 0 {
        lemma_total_balance_step(chain, group.drop_last());
    }
}

/// Over an empty chain every balance is 0.
proof fn lemma_total_balance_empty(chain: Seq<BlockView>, group: Seq<Seq<char>>)
    requires
        chain.len() == 0,
    ensures
        total_balance(chain, group) == 0,
    decreases group.len(),
{
    if group.len() > 0 {
        lemma_total_balance_empty(chain, group.drop_last());
    }
}

/// Transactions among the addresses of a group bring nothing into it.
proof fn lemma_within_no_inflow(ts: Seq<TransactionView>, group: Seq<Seq<char>>)
    requires
        transactions_within(ts, group),
    ensures
        transactions_inflow(ts, group) == 0,
    decreases ts.len(),
{
    if ts.len() > 0 {
        assert(group.contains(ts[ts.len() - 1].sender));
        assert forall|j: int| 0 <= j < ts.drop_last().len() implies group.contains(
            (#[trigger] ts.drop_last()[j]).sender,
        ) && group.contains(ts.drop_last()[j].recipient) by {
            assert(ts.drop_last()[j] == ts[j]);
        }
        lemma_within_no_inflow(ts.drop_last(), group);
    }
}

/// The balances of a group of distinct addresses add up to what the chain's
/// transactions bring into the group from outside it.
pub proof fn lemma_total_is_inflow(chain: Seq<BlockView>, group: Seq<Seq<char>>)
    requires
        group.no_duplicates(),
    ensures
        total_balance(chain, group) == chain_inflow(chain, group),
    decreases chain.len(),
{
    if chain.len() > 0 {
        lemma_total_balance_step(chain, group);
        lemma_transactions_total(chain.last().transactions, group);
        lemma_total_is_inflow(chain.drop_last(), group);
    } else {
        lemma_total_balance_empty(chain, group);
    }
}

/// Transfers are zero-sum: over distinct addresses that include every sender
/// and every recipient of the chain, the balances add up to 0.
pub proof fn lemma_balances_sum_to_zero(chain: Seq<BlockView>, group: Seq<Seq<char>>)
    requires
        group.no_duplicates(),
        chain_within(chain, group),
    ensures
        total_balance(chain, group) == 0,
{
    lemma_total_is_inflow(chain, group);
    lemma_chain_within_no_inflow(chain, group);
}

/// A chain whose transactions all stay within a group brings nothing into it.
proof fn lemma_chain_within_no_inflow(chain: Seq<BlockView>, group: Seq<Seq<char>>)
    requires
        chain_within(chain, group),
    ensures
        chain_inflow(chain, group) == 0,
    decreases chain.len(),
{
    if chain.len() > 0 {
        assert(transactions_within(chain[chain.len() - 1].transactions, group));
        lemma_within_no_inflow(chain.last().transactions, group);
        assert forall|k: int| 0 <= k < chain.drop_last().len() implies transactions_within(
            (#[trigger] chain.drop_last()[k]).transactions,
            group,
        ) by {
            assert(chain.drop_last()[k] == chain[k]);
        }
        lemma_chain_within_no_inflow(chain.drop_last(), group);
    }
}

/// Mining a block issues exactly the reward: over distinct addresses that
/// hold the miner and every sender and recipient of the pending transactions,
/// but not the system sender, the balances add up to the reward more than
/// before.
pub proof fn lemma_mining_issues_reward(
    before: BlockchainView,
    after: BlockchainView,
    miner: Seq<char>,
    reward_timestamp: int,
    block_timestamp: int,
    group: Seq<Seq<char>>,
)
    requires
        before.chain.len() >= 1,
        mine_outcome(before, after, miner, reward_timestamp, block_timestamp, true),
        group.no_duplicates(),
        group.contains(miner),
        !group.contains(system_sender()),
        transactions_within(before.pending, group),
    ensures
        total_balance(after.chain, group) == total_balance(before.chain, group)
            + before.mining_reward,
{
    let reward = reward_transaction(miner, before.mining_reward, reward_timestamp);
    let ts = after.chain.last().transactions;
    assert(ts == before.pending.push(reward));
    assert(ts.drop_last() =~= before.pending);
    assert(ts.last() == reward);
    lemma_within_no_inflow(before.pending, group);
    assert(inflow(reward, group) == before.mining_reward);
    lemma_total_is_inflow(after.chain, group);
    lemma_total_is_inflow(before.chain, group);
}

/// The system sender owes what the others hold: where distinct addresses
/// without the system sender, and the system sender with them, include every
/// sender and recipient of the chain, the balance of the system sender is the
/// negative of the sum of theirs.
pub proof fn lemma_system_balance(chain: Seq<BlockView>, group: Seq<Seq<char>>)
    requires
        group.no_duplicates(),
        !group.contains(system_sender()),
        chain_within(chain, group.push(system_sender())),
    ensures
        chain_balance(chain, system_sender()) == -total_balance(chain, group),
{
    let all = group.push(system_sender());
    assert(all.drop_last() =~= group);
    assert forall|i: int, j: int| 0 <= i < all.len() && 0 <= j < all.len() && i != j implies all[i]
        != all[j] by {
        if i < group.len() && j < group.len() {
            assert(group[i] != group[j]);
        } else if i < group.len() {
            assert(group.contains(group[i]));
        } else {
            assert(group.contains(group[j]));
        }
    }
    lemma_balances_sum_to_zero(chain, all);
}

/// One sealing in a run: it succeeds for a miner of the group, on pending
/// transactions among addresses of the group.
pub open spec fn rewarded_sealing(
    before: BlockchainView,
    after: BlockchainView,
    group: Seq<Seq<char>>,
) -> bool {
    &&& before.chain.len() >= 1
    &&& transactions_within(before.pending, group)
    &&& exists|miner: Seq<char>, reward_timestamp: int, block_timestamp: int|
        group.contains(miner) && #[trigger] mine_outcome(
            before,
            after,
            miner,
            reward_timestamp,
            block_timestamp,
            true,
        )
}

/// A run of sealings at one reward: `before[i]` is the ledger as sealing `i`
/// finds it and `after[i]` as it leaves it, and each sealing finds the chain
/// that the one before left, whatever was added to the pending transactions
/// in between.
pub open spec fn sealing_run(
    before: Seq<BlockchainView>,
    after: Seq<BlockchainView>,
    group: Seq<Seq<char>>,
    reward: int,
) -> bool {
    &&& before.len() == after.len()
    &&& forall|i: int|
        0 <= i < before.len() ==> (#[trigger] before[i]).mining_reward == reward
            && rewarded_sealing(before[i], after[i], group)
    &&& forall|i: int| 1 <= i < before.len() ==> (#[trigger] before[i]).chain == after[i - 1].chain
}

/// Each sealing issues exactly the reward: after a run of `k` sealings, the
/// balances of distinct addresses that hold every miner and every sender and
/// recipient of the transactions sealed, but not the system sender, add up to
/// `k` rewards more than before the run.
pub proof fn lemma_run_issues_rewards(
    before: Seq<BlockchainView>,
    after: Seq<BlockchainView>,
    group: Seq<Seq<char>>,
    reward: int,
)
    requires
        before.len() >= 1,
        sealing_run(before, after, group, reward),
        group.no_duplicates(),
        !group.contains(system_sender()),
    ensures
        total_balance(after.last().chain, group) == total_balance(before[0].chain, group)
            + before.len() * reward,
    decreases before.len(),
{
    let k = before.len() as int;
    let b = before[k - 1];
    let a = after[k - 1];
    assert(b.mining_reward == reward && rewarded_sealing(b, a, group));
    let (miner, rts, bts) = choose|miner: Seq<char>, rts: int, bts: int|
        group.contains(miner) && #[trigger] mine_outcome(b, a, miner, rts, bts, true);
    lemma_mining_issues_reward(b, a, miner, rts, bts, group);
    if k > 1 {
        let before1 = before.drop_last();
        let after1 = after.drop_last();
        assert forall|i: int| 0 <= i < before1.len() implies (#[trigger] before1[i]).mining_reward
            == reward && rewarded_sealing(before1[i], after1[i], group) by {
            assert(before1[i] == before[i]);
        }
        assert forall|i: int| 1 <= i < before1.len() implies (#[trigger] before1[i]).chain
            == after1[i - 1].chain by {
            assert(before1[i] == before[i]);
        }
        lemma_run_issues_rewards(before1, after1, group, reward);
        assert(after1.last() == after[k - 2]);
        assert(b.chain == after[k - 2].chain);
        assert(before1[0] == before[0]);
        assert((k - 1) * reward + reward == k * reward) by (nonlinear_arith);
    } else {
        assert(1 * reward == reward) by (nonlinear_arith);
    }
}

} // verus!
