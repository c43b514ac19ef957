//! The ledger: a chain of blocks and the transactions that wait for the next.

use crate::balance::{
    chain_balance, lemma_transaction_total_prefix, lemma_transaction_total_step,
    transaction_total, transactions_balance,
};
use crate::block::{
    block_digest, block_payload, digest_consistent, seals, with_nonce, Block, BlockView,
};
use crate::clock::unix_time_now;
use crate::digest::has_zero_prefix;
use crate::transaction::{transaction_views, Transaction, TransactionView};
use vstd::prelude::*;
use vstd::string::*;

verus! {

/// A chain of blocks that starts with a genesis block, the transactions not
/// yet in a block, the number of leading zeros asked of a sealed digest, and
/// the amount that sealing a block pays.
#[derive(Debug, Clone)]
pub struct Blockchain {
    pub chain: Vec<Block>,
    pub pending_transactions: Vec<Transaction>,
    pub difficulty: usize,
    pub mining_reward: i64,
}

/// What a ledger is, as plain values.
pub ghost struct BlockchainView {
    pub chain: Seq<BlockView>,
    pub pending: Seq<TransactionView>,
    pub difficulty: nat,
    pub mining_reward: int,
}

/// The views of a sequence of blocks, in the same order.
pub open spec fn block_views(blocks: Seq<Block>) -> Seq<BlockView> {
    Seq::new(blocks.len(), |i: int| blocks[i]@)
}

impl View for Blockchain {
    type V = BlockchainView;

    open spec fn view(&self) -> BlockchainView {
        BlockchainView {
            chain: block_views(self.chain@),
            pending: transaction_views(self.pending_transactions@),
            difficulty: self.difficulty as nat,
            mining_reward: self.mining_reward as int,
        }
    }
}

/// The sender of every reward.
pub open spec fn system_sender() -> Seq<char> {
    "System"@
}

/// The text of `n` characters `'0'`; with `n` 64, what the genesis block
/// holds in place of a previous digest.
pub open spec fn zero_text(n: nat) -> Seq<char> {
    Seq::new(n, |i: int| '0')
}

/// Block `i` names the stored digest of the block before it.
pub open spec fn linked(chain: Seq<BlockView>, i: int) -> bool {
    chain[i].previous_hash == chain[i - 1].hash
}

/// Every block but the first stores the digest of its own content and names
/// the stored digest of the block before it. Nothing is asked of the first
/// block, nor of any digest's leading zeros.
pub open spec fn chain_valid(chain: Seq<BlockView>) -> bool {
    forall|i: int|
        1 <= i < chain.len() ==> digest_consistent(#[trigger] chain[i]) && linked(chain, i)
}

/// What every ledger built by `new` and grown by `add_transaction` and the
/// mining functions satisfies: a genesis block without transactions at index
/// 0, every block at its index with the digest of its content, and every later
/// block linked to the one before and sealed at the ledger's difficulty.
pub open spec fn well_formed(l: BlockchainView) -> bool {
    &&& l.chain.len() >= 1
    &&& l.chain[0].previous_hash == zero_text(64)
    &&& l.chain[0].transactions.len() == 0
    &&& forall|i: int|
        0 <= i < l.chain.len() ==> (#[trigger] l.chain[i]).index == i && digest_consistent(
            l.chain[i],
        )
    &&& forall|i: int|
        1 <= i < l.chain.len() ==> linked(l.chain, i) && has_zero_prefix(
            (#[trigger] l.chain[i]).hash,
            l.difficulty,
        )
}

/// The reward that sealing a block pays to `miner`.
pub open spec fn reward_transaction(miner: Seq<char>, amount: int, timestamp: int) -> TransactionView {
    TransactionView { sender: system_sender(), recipient: miner, amount, timestamp }
}

/// The block that mining starts from: the pending transactions and the
/// reward, linked to the last block, with nonce 0 and the digest of that.
pub open spec fn candidate_block(
    l: BlockchainView,
    miner: Seq<char>,
    reward_timestamp: int,
    block_timestamp: int,
) -> BlockView {
    let content = BlockView {
        index: l.chain.len(),
        timestamp: block_timestamp,
        transactions: l.pending.push(
            reward_transaction(miner, l.mining_reward, reward_timestamp),
        ),
        previous_hash: l.chain.last().hash,
        hash: Seq::<char>::empty(),
        nonce: 0,
    };
    BlockView { hash: block_digest(content), ..content }
}

/// Some nonce that a block can hold seals `b` at `difficulty`.
pub open spec fn sealable(b: BlockView, difficulty: nat) -> bool {
    exists|n: nat| n <= u64::MAX && seals(b, n, difficulty)
}

/// At difficulty 0 every block is sealable: nonce 0 seals it.
pub proof fn lemma_difficulty_zero_sealable(b: BlockView)
    ensures
        sealable(b, 0),
{
    assert(seals(b, 0, 0));
}

/// `sealed` is `b` at the least nonce that seals it at `difficulty`, with the
/// digest that belongs to that nonce.
pub open spec fn sealed_from(b: BlockView, sealed: BlockView, difficulty: nat) -> bool {
    &&& sealed == BlockView { hash: sealed.hash, ..with_nonce(b, sealed.nonce) }
    &&& digest_consistent(sealed)
    &&& has_zero_prefix(sealed.hash, difficulty)
    &&& forall|n: nat| n < sealed.nonce ==> !seals(b, n, difficulty)
}

/// What mining does to a ledger. Where some nonce seals the candidate block,
/// `found` holds, the chain has grown by that block sealed at the least such
/// nonce, and nothing is pending. Where none does, nothing has changed.
pub open spec fn mine_outcome(
    before: BlockchainView,
    after: BlockchainView,
    miner: Seq<char>,
    reward_timestamp: int,
    block_timestamp: int,
    found: bool,
) -> bool {
    let candidate = candidate_block(before, miner, reward_timestamp, block_timestamp);
    &&& found == sealable(candidate, before.difficulty)
    &&& if found {
        &&& after.difficulty == before.difficulty
        &&& after.mining_reward == before.mining_reward
        &&& after.pending.len() == 0
        &&& after.chain.len() == before.chain.len() + 1
        &&& after.chain.drop_last() == before.chain
        &&& sealed_from(candidate, after.chain.last(), before.difficulty)
    } else {
        after == before
    }
}

/// What the search of `Block::mine_block` leaves, started from a block with
/// nonce 0 and the digest of its content: it succeeds where some nonce seals
/// the block, and then stops at the least such nonce.
pub proof fn lemma_search_outcome(start: BlockView, end: BlockView, difficulty: nat, found: bool)
    requires
        start.nonce == 0,
        digest_consistent(start),
        end.index == start.index,
        end.timestamp == start.timestamp,
        end.transactions == start.transactions,
        end.previous_hash == start.previous_hash,
        end.nonce <= u64::MAX,
        end.nonce == start.nonce ==> end.hash == start.hash,
        end.nonce > start.nonce ==> digest_consistent(end),
        has_zero_prefix(start.hash, difficulty) ==> end.nonce == start.nonce,
        forall|n: nat| start.nonce < n < end.nonce ==> !seals(start, n, difficulty),
        found == has_zero_prefix(end.hash, difficulty),
        !found ==> end.nonce == u64::MAX,
    ensures
        found == sealable(start, difficulty),
        found ==> sealed_from(start, end, difficulty),
{
    assert(block_payload(with_nonce(start, 0)) == block_payload(start));
    assert(block_payload(with_nonce(start, end.nonce)) == block_payload(end));
    assert(seals(start, 0, difficulty) == has_zero_prefix(start.hash, difficulty));
    assert(digest_consistent(end));
    assert(seals(start, end.nonce, difficulty) == has_zero_prefix(end.hash, difficulty));
    if found {
        assert(end == BlockView { hash: end.hash, ..with_nonce(start, end.nonce) });
    } else {
        assert forall|n: nat| n <= u64::MAX implies !seals(start, n, difficulty) by {}
    }
}

/// A ledger stays well formed when a block is appended that stands at the
/// next index, holds the digest of its content, names the last digest and is
/// sealed at the ledger's difficulty.
pub proof fn lemma_push_sealed(before: BlockchainView, after: BlockchainView, block: BlockView)
    requires
        before.chain.len() >= 1,
        after.chain == before.chain.push(block),
        after.difficulty == before.difficulty,
        block.index == before.chain.len(),
        block.previous_hash == before.chain.last().hash,
        digest_consistent(block),
        has_zero_prefix(block.hash, before.difficulty),
    ensures
        well_formed(before) ==> well_formed(after),
        after.chain.drop_last() == before.chain,
        after.chain.last() == block,
{
    assert(after.chain.drop_last() =~= before.chain);
    if well_formed(before) {
        assert forall|i: int| 0 <= i < after.chain.len() implies (#[trigger] after.chain[i]).index
            == i && digest_consistent(after.chain[i]) by {
            if i < before.chain.len() {
                assert(after.chain[i] == before.chain[i]);
            }
        }
        assert forall|i: int| 1 <= i < after.chain.len() implies linked(after.chain, i)
            && has_zero_prefix((#[trigger] after.chain[i]).hash, after.difficulty) by {
            if i < before.chain.len() {
                assert(after.chain[i] == before.chain[i]);
                assert(after.chain[i - 1] == before.chain[i - 1]);
                assert(linked(before.chain, i));
            }
        }
    }
}

fn zero_digest() -> (text: String)
    ensures
        text@ == zero_text(64),
{
    let mut text = String::new();
    let mut i: usize = 0;
    while i < 64
        invariant
            i <= 64,
            text@ == zero_text(i as nat),
        decreases 64 - i,
    {
        proof {
            reveal_strlit("0");
        }
        text.append("0");
        assert(text@ =~= zero_text((i + 1) as nat));
        i += 1;
    }
    text
}

impl Blockchain {
    /// A ledger that holds a genesis block stamped with the current time. The
    /// genesis block is not mined.
    pub fn new(difficulty: usize, mining_reward: i64) -> (l: Self)
        ensures
            well_formed(l@),
            l@.chain.len() == 1,
            l@.chain[0].nonce == 0,
            l@.pending.len() == 0,
            l@.difficulty == difficulty,
            l@.mining_reward == mining_reward,
    {
        Blockchain::with_genesis_timestamp(difficulty, mining_reward, unix_time_now())
    }

    /// A ledger that holds a genesis block with the given creation time.
    pub fn with_genesis_timestamp(difficulty: usize, mining_reward: i64, timestamp: i64) -> (l:
        Self)
        ensures
            well_formed(l@),
            l@.chain.len() == 1,
            l@.chain[0].timestamp == timestamp,
            l@.chain[0].nonce == 0,
            l@.pending.len() == 0,
            l@.difficulty == difficulty,
            l@.mining_reward == mining_reward,
    {
        let genesis = Block::with_timestamp(0, timestamp, Vec::new(), zero_digest());
        let mut chain: Vec<Block> = Vec::new();
        chain.push(genesis);
        Blockchain { chain, pending_transactions: Vec::new(), difficulty, mining_reward }
    }

    /// The last block of the chain.
    pub fn get_latest_block(&self) -> (b: &Block)
        requires
            self@.chain.len() >= 1,
        ensures
            b@ == self@.chain.last(),
    {
        &self.chain[self.chain.len() - 1]
    }

    /// Adds a transaction to those that wait for the next block.
    pub fn push_transaction(&mut self, transaction: Transaction)
        ensures
            final(self)@ == (BlockchainView {
                pending: old(self)@.pending.push(transaction@),
                ..old(self)@
            }),
            well_formed(old(self)@) ==> well_formed(final(self)@),
    {
        self.pending_transactions.push(transaction);
        assert(final(self)@.pending =~= old(self)@.pending.push(transaction@));
    }

    /// Adds a transaction stamped with the current time to those that wait.
    /// Nothing is asked of the addresses or of the amount.
    pub fn add_transaction(&mut self, sender: String, recipient: String, amount: i64)
        ensures
            final(self)@.pending.len() == old(self)@.pending.len() + 1,
            final(self)@.pending.drop_last() == old(self)@.pending,
            final(self)@.pending.last().sender == sender@,
            final(self)@.pending.last().recipient == recipient@,
            final(self)@.pending.last().amount == amount,
            final(self)@.chain == old(self)@.chain,
            final(self)@.difficulty == old(self)@.difficulty,
            final(self)@.mining_reward == old(self)@.mining_reward,
            well_formed(old(self)@) ==> well_formed(final(self)@),
    {
        let transaction = Transaction::new(sender, recipient, amount);
        self.push_transaction(transaction);
        assert(final(self)@.pending.drop_last() =~= old(self)@.pending);
    }

    /// Mines the pending transactions and a reward for `miner_address` into a
    /// new block, with the given creation times of the reward and the block.
    pub fn mine_pending_at(
        &mut self,
        miner_address: String,
        reward_timestamp: i64,
        block_timestamp: i64,
    ) -> (found: bool)
        requires
            old(self)@.chain.len() >= 1,
        ensures
            mine_outcome(
                old(self)@,
                final(self)@,
                miner_address@,
                reward_timestamp as int,
                block_timestamp as int,
                found,
            ),
            old(self)@.difficulty == 0 ==> found,
            well_formed(old(self)@) ==> well_formed(final(self)@),
    {
        let reward = Transaction::with_timestamp(
            "System".to_owned(),
            miner_address,
            self.mining_reward,
            reward_timestamp,
        );
        let mut transactions: Vec<Transaction> = Vec::new();
        std::mem::swap(&mut self.pending_transactions, &mut transactions);
        transactions.push(reward);
        let previous_hash = self.get_latest_block().hash.clone();
        let mut block = Block::with_timestamp(
            self.chain.len() as u64,
            block_timestamp,
            transactions,
            previous_hash,
        );
        let ghost candidate = candidate_block(
            old(self)@,
            miner_address@,
            reward_timestamp as int,
            block_timestamp as int,
        );
        proof {
            assert(block@.transactions =~= candidate.transactions);
            assert(block@ == candidate);
        }
        let found = block.mine_block(self.difficulty);
        proof {
            lemma_search_outcome(candidate, block@, self.difficulty as nat, found);
            lemma_difficulty_zero_sealable(candidate);
        }
        if found {
            self.chain.push(block);
            proof {
                assert(final(self)@.chain =~= old(self)@.chain.push(block@));
                assert(final(self)@.pending =~= Seq::<TransactionView>::empty());
                lemma_push_sealed(old(self)@, final(self)@, block@);
            }
        } else {
            let mut restored = block.transactions;
            let ghost full = restored@;
            restored.pop();
            self.pending_transactions = restored;
            proof {
                assert(transaction_views(full) == candidate.transactions);
                assert(transaction_views(full).len() == full.len());
                let before = old(self)@.pending;
                let after = final(self)@.pending;
                assert forall|i: int| 0 <= i < before.len() implies after[i] == before[i] by {
                    assert(transaction_views(full)[i] == candidate.transactions[i]);
                }
                assert(final(self)@.pending =~= old(self)@.pending);
                assert(final(self)@.chain =~= old(self)@.chain);
            }
        }
        found
    }

    /// Mines the pending transactions and a reward for `miner_address` into a
    /// new block, stamping the reward and the block with the current time.
    pub fn mine_pending_transactions(&mut self, miner_address: String) -> (found: bool)
        requires
            old(self)@.chain.len() >= 1,
        ensures
            exists|reward_timestamp: int, block_timestamp: int|
                mine_outcome(
                    old(self)@,
                    final(self)@,
                    miner_address@,
                    reward_timestamp,
                    block_timestamp,
                    found,
                ),
            old(self)@.difficulty == 0 ==> found,
            well_formed(old(self)@) ==> well_formed(final(self)@),
    {
        let reward_timestamp = unix_time_now();
        let block_timestamp = unix_time_now();
        self.mine_pending_at(miner_address, reward_timestamp, block_timestamp)
    }

    /// The number of transactions in all blocks, or `None` where it does not
    /// fit in 64 bits.
    pub fn transaction_count(&self) -> (count: Option<u64>)
        ensures
            count == (if transaction_total(self@.chain) <= u64::MAX {
                Some(transaction_total(self@.chain) as u64)
            } else {
                None
            }),
    {
        let ghost chain = self@.chain;
        let mut total: u64 = 0;
        let mut k: usize = 0;
        while k < self.chain.len()
            invariant
                k <= self.chain@.len(),
                chain == self@.chain,
                total == transaction_total(chain.take(k as int)),
            decreases self.chain@.len() - k,
        {
            let n: usize = self.chain[k].transactions.len();
            proof {
                lemma_transaction_total_step(chain, k as int);
                lemma_transaction_total_prefix(chain, k + 1);
            }
            if n as u64 > u64::MAX - total {
                return None;
            }
            total = total + n as u64;
            k += 1;
        }
        proof {
            assert(chain.take(k as int) =~= chain);
        }
        Some(total)
    }

    /// The balance of `address`: over every transaction of every block, what
    /// it received less what it sent. The transactions must be few enough to
    /// count in 64 bits, which bounds the sum.
    pub fn get_balance(&self, address: &str) -> (balance: i128)
        requires
            transaction_total(self@.chain) <= u64::MAX,
        ensures
            balance == chain_balance(self@.chain, address@),
    {
        let who = address.to_owned();
        let ghost chain = self@.chain;
        let mut balance: i128 = 0;
        let mut k: usize = 0;
        while k < self.chain.len()
            invariant
                k <= self.chain@.len(),
                chain == self@.chain,
                who@ == address@,
                transaction_total(chain) <= u64::MAX,
                balance == chain_balance(chain.take(k as int), address@),
                -0x8000_0000_0000_0000 * transaction_total(chain.take(k as int)) <= balance
                    <= 0x8000_0000_0000_0000 * transaction_total(chain.take(k as int)),
            decreases self.chain@.len() - k,
        {
            let block = &self.chain[k];
            let ghost done = transaction_total(chain.take(k as int));
            let ghost base = balance as int;
            let ghost ts = chain[k as int].transactions;
            proof {
                lemma_transaction_total_prefix(chain, k + 1);
                assert(chain.take(k + 1).drop_last() =~= chain.take(k as int));
                assert(ts.len() == block.transactions@.len());
            }
            let mut j: usize = 0;
            while j < block.transactions.len()
                invariant
                    j <= block.transactions@.len(),
                    ts == transaction_views(block.transactions@),
                    who@ == address@,
                    done + ts.len() <= u64::MAX,
                    balance == base + transactions_balance(ts.take(j as int), address@),
                    -0x8000_0000_0000_0000 * (done + j) <= balance <= 0x8000_0000_0000_0000 * (
                    done + j),
                decreases block.transactions@.len() - j,
            {
                let t = &block.transactions[j];
                proof {
                    assert(ts.take(j + 1).drop_last() =~= ts.take(j as int));
                    assert(ts.take(j + 1).last() == t@);
                }
                if t.sender == who {
                    balance = balance - t.amount as i128;
                }
                if t.recipient == who {
                    balance = balance + t.amount as i128;
                }
                j += 1;
            }
            proof {
                assert(ts.take(j as int) =~= ts);
            }
            k += 1;
        }
        proof {
            assert(chain.take(k as int) =~= chain);
        }
        balance
    }

    /// Tells whether every block but the first stores the digest of its
    /// content and names the stored digest of the block before it.
    pub fn is_chain_valid(&self) -> (valid: bool)
        ensures
            valid == chain_valid(self@.chain),
    {
        let mut i: usize = 1;
        while i < self.chain.len()
            invariant
                1 <= i,
                forall|k: int|
                    1 <= k < i && k < self@.chain.len() ==> digest_consistent(
                        #[trigger] self@.chain[k],
                    ) && linked(self@.chain, k),
            decreases self.chain@.len() - i,
        {
            let current = &self.chain[i];
            let previous = &self.chain[i - 1];
            let digest = current.calculate_hash();
            if current.hash != digest {
                assert(!digest_consistent(self@.chain[i as int]));
                return false;
            }
            if current.previous_hash != previous.hash {
                assert(!linked(self@.chain, i as int));
                return false;
            }
            i += 1;
        }
        true
    }
}

} // verus!
