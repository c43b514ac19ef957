//! What validity of a chain follows from, and what breaks it.

use crate::block::{
    block_digest, block_payload, digest_consistent, lemma_payload_injective, same_content,
    BlockView,
};
use crate::blockchain::{chain_valid, linked, mine_outcome, well_formed, BlockchainView};
use crate::digest::{has_zero_prefix, lemma_hex_text_injective, sha256};
use crate::transaction::TransactionView;
use vstd::prelude::*;

verus! {

/// The chain in which transaction `j` of block `i` has another amount and
/// everything else, the stored digests too, is as before.
pub open spec fn with_amount(chain: Seq<BlockView>, i: int, j: int, amount: int) -> Seq<
    BlockView,
> {
    chain.update(
        i,
        BlockView {
            transactions: chain[i].transactions.update(
                j,
                TransactionView { amount, ..chain[i].transactions[j] },
            ),
            ..chain[i]
        },
    )
}

/// The chain in which block `i` stores another digest.
pub open spec fn with_hash(chain: Seq<BlockView>, i: int, hash: Seq<char>) -> Seq<BlockView> {
    chain.update(i, BlockView { hash, ..chain[i] })
}

/// The digest of a block is a function of its index, timestamp,
/// transactions, previous digest and nonce: two blocks that agree on these
/// have the same digest, whatever digest each stores.
pub proof fn lemma_digest_of_content(a: BlockView, b: BlockView)
    requires
        a.index == b.index,
        a.timestamp == b.timestamp,
        a.transactions == b.transactions,
        a.previous_hash == b.previous_hash,
        a.nonce == b.nonce,
    ensures
        block_digest(a) == block_digest(b),
{
    assert(block_payload(a) == block_payload(b));
}

/// In a well-formed ledger every block but the first names the stored digest
/// of the block before it.
pub proof fn lemma_well_formed_linked(l: BlockchainView, i: int)
    requires
        well_formed(l),
        1 <= i < l.chain.len(),
    ensures
        l.chain[i].previous_hash == l.chain[i - 1].hash,
{
    assert(linked(l.chain, i));
}

/// The chain of a well-formed ledger is valid.
pub proof fn lemma_well_formed_valid(l: BlockchainView)
    requires
        well_formed(l),
    ensures
        chain_valid(l.chain),
{
    assert forall|i: int| 1 <= i < l.chain.len() implies digest_consistent(#[trigger] l.chain[i])
        && linked(l.chain, i) by {}
}

/// Mining that succeeds appends exactly one block, which names the digest of
/// the former last block and whose own digest starts with as many zeros as
/// the difficulty asks, and leaves nothing pending.
pub proof fn lemma_mined_block(
    before: BlockchainView,
    after: BlockchainView,
    miner: Seq<char>,
    reward_timestamp: int,
    block_timestamp: int,
)
    requires
        before.chain.len() >= 1,
        mine_outcome(before, after, miner, reward_timestamp, block_timestamp, true),
    ensures
        after.chain.len() == before.chain.len() + 1,
        after.pending.len() == 0,
        after.chain.last().index == before.chain.len(),
        after.chain.last().previous_hash == before.chain.last().hash,
        has_zero_prefix(after.chain.last().hash, before.difficulty),
        digest_consistent(after.chain.last()),
        forall|i: int| 0 <= i < before.chain.len() ==> after.chain[i] == before.chain[i],
{
    assert forall|i: int| 0 <= i < before.chain.len() implies after.chain[i] == before.chain[i] by {
        assert(after.chain.drop_last()[i] == after.chain[i]);
    }
}

/// Mining never touches the blocks that the chain holds: whether it succeeds
/// or not, every block stays at its place as it was.
pub proof fn lemma_mining_keeps_blocks(
    before: BlockchainView,
    after: BlockchainView,
    miner: Seq<char>,
    reward_timestamp: int,
    block_timestamp: int,
    found: bool,
)
    requires
        mine_outcome(before, after, miner, reward_timestamp, block_timestamp, found),
    ensures
        after.chain.len() == before.chain.len() + (if found {
            1int
        } else {
            0int
        }),
        forall|i: int| 0 <= i < before.chain.len() ==> after.chain[i] == before.chain[i],
{
    if found {
        assert forall|i: int| 0 <= i < before.chain.len() implies after.chain[i]
            == before.chain[i] by {
            assert(after.chain.drop_last()[i] == after.chain[i]);
        }
    }
}

/// A block after the first whose stored digest is not the digest of its
/// content makes the chain invalid.
pub proof fn lemma_stale_digest_detected(chain: Seq<BlockView>, i: int)
    requires
        1 <= i < chain.len(),
        !digest_consistent(chain[i]),
    ensures
        !chain_valid(chain),
{
}

/// A block after the first that does not name the stored digest of the block
/// before it makes the chain invalid.
pub proof fn lemma_broken_link_detected(chain: Seq<BlockView>, i: int)
    requires
        1 <= i < chain.len(),
        chain[i].previous_hash != chain[i - 1].hash,
    ensures
        !chain_valid(chain),
{
    assert(!linked(chain, i));
}

/// Changing the amount of a transaction changes the bytes that the block's
/// digest is taken of.
pub proof fn lemma_amount_changes_payload(b: BlockView, j: int, amount: int)
    requires
        0 <= j < b.transactions.len(),
        amount != b.transactions[j].amount,
    ensures
        block_payload(
            BlockView {
                transactions: b.transactions.update(
                    j,
                    TransactionView { amount, ..b.transactions[j] },
                ),
                ..b
            },
        ) != block_payload(b),
{
    let changed = b.transactions.update(j, TransactionView { amount, ..b.transactions[j] });
    assert(changed[j].amount != b.transactions[j].amount);
    lemma_payload_injective(BlockView { transactions: changed, ..b }, b);
}

/// Changing the amount of a transaction in a block after the first, in a
/// chain where that block stored the digest of its content, makes the chain
/// invalid, provided that SHA-256 tells the changed bytes of the block from
/// its bytes before. Nothing is claimed where two byte strings share a
/// digest, nor of the first block, which validity never examines.
pub proof fn lemma_tampered_amount_detected(chain: Seq<BlockView>, i: int, j: int, amount: int)
    requires
        1 <= i < chain.len(),
        0 <= j < chain[i].transactions.len(),
        digest_consistent(chain[i]),
        amount != chain[i].transactions[j].amount,
        block_payload(with_amount(chain, i, j, amount)[i]) != block_payload(chain[i]) ==> sha256(
            block_payload(with_amount(chain, i, j, amount)[i]),
        ) != sha256(block_payload(chain[i])),
    ensures
        !chain_valid(with_amount(chain, i, j, amount)),
{
    let tampered = with_amount(chain, i, j, amount);
    lemma_amount_changes_payload(chain[i], j, amount);
    if block_digest(tampered[i]) == block_digest(chain[i]) {
        lemma_hex_text_injective(
            sha256(block_payload(tampered[i])),
            sha256(block_payload(chain[i])),
        );
    }
    assert(tampered[i].hash == chain[i].hash);
    assert(!digest_consistent(tampered[i]));
}

/// Putting a block of other content, with the same stored digest, in the
/// place of a block after the first that stored the digest of its content
/// makes the chain invalid, provided that SHA-256 tells the bytes of the two
/// blocks apart.
pub proof fn lemma_changed_content_detected(chain: Seq<BlockView>, i: int, changed: BlockView)
    requires
        1 <= i < chain.len(),
        digest_consistent(chain[i]),
        changed.hash == chain[i].hash,
        !same_content(changed, chain[i]),
        block_payload(changed) != block_payload(chain[i]) ==> sha256(block_payload(changed))
            != sha256(block_payload(chain[i])),
    ensures
        !chain_valid(chain.update(i, changed)),
{
    lemma_payload_injective(changed, chain[i]);
    if block_digest(changed) == block_digest(chain[i]) {
        lemma_hex_text_injective(sha256(block_payload(changed)), sha256(block_payload(chain[i])));
    }
    assert(!digest_consistent(chain.update(i, changed)[i]));
}

/// Changing the stored digest of a block after the first, in a chain where
/// that block stored the digest of its content, makes the chain invalid.
pub proof fn lemma_changed_digest_detected(chain: Seq<BlockView>, i: int, hash: Seq<char>)
    requires
        1 <= i < chain.len(),
        digest_consistent(chain[i]),
        hash != chain[i].hash,
    ensures
        !chain_valid(with_hash(chain, i, hash)),
{
    let changed = with_hash(chain, i, hash);
    lemma_digest_of_content(changed[i], chain[i]);
    assert(!digest_consistent(changed[i]));
}

} // verus!
