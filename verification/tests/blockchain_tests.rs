use simple_blockchain::block::Block;
use simple_blockchain::blockchain::Blockchain;
use simple_blockchain::digest::starts_with_zeros;
use simple_blockchain::transaction::Transaction;

fn zeros(n: usize) -> String {
    "0".repeat(n)
}

#[test]
fn test_blockchain_creation() {
    let blockchain = Blockchain::new(4, 100);
    assert_eq!(blockchain.chain.len(), 1);
    assert_eq!(blockchain.difficulty, 4);
    assert_eq!(blockchain.mining_reward, 100);
}

#[test]
fn test_mining() {
    let mut blockchain = Blockchain::new(2, 100);
    blockchain.add_transaction("sender".to_string(), "recipient".to_string(), 50);
    blockchain.mine_pending_transactions("miner".to_string());
    assert_eq!(blockchain.chain.len(), 2);
}

#[test]
fn test_chain_validity() {
    let mut blockchain = Blockchain::new(2, 100);
    blockchain.add_transaction("sender".to_string(), "recipient".to_string(), 50);
    blockchain.mine_pending_transactions("miner".to_string());
    assert!(blockchain.is_chain_valid());
}

#[test]
fn genesis_block_shape() {
    let blockchain = Blockchain::new(3, 7);
    assert_eq!(blockchain.chain.len(), 1);
    let genesis = &blockchain.chain[0];
    assert_eq!(genesis.index, 0);
    assert_eq!(genesis.nonce, 0);
    assert!(genesis.transactions.is_empty());
    assert_eq!(genesis.previous_hash, zeros(64));
    assert_eq!(genesis.hash, genesis.calculate_hash());
    assert!(blockchain.pending_transactions.is_empty());
    assert!(blockchain.is_chain_valid());
}

#[test]
fn genesis_with_given_timestamp() {
    let a = Blockchain::with_genesis_timestamp(1, 5, 1_700_000_000);
    let b = Blockchain::with_genesis_timestamp(1, 5, 1_700_000_000);
    assert_eq!(a.chain[0].timestamp, 1_700_000_000);
    assert_eq!(a.chain[0].hash, b.chain[0].hash);
    let c = Blockchain::with_genesis_timestamp(1, 5, 1_700_000_001);
    assert_ne!(a.chain[0].hash, c.chain[0].hash);
}

#[test]
fn latest_block_is_the_tail() {
    let mut blockchain = Blockchain::new(1, 10);
    assert_eq!(blockchain.get_latest_block().index, 0);
    assert!(blockchain.mine_pending_transactions("m".to_string()));
    assert_eq!(blockchain.get_latest_block().index, 1);
    assert_eq!(blockchain.get_latest_block().hash, blockchain.chain[1].hash);
}

#[test]
fn add_transaction_appends_to_pending() {
    let mut blockchain = Blockchain::new(1, 10);
    blockchain.add_transaction("a".to_string(), "b".to_string(), -3);
    blockchain.add_transaction("".to_string(), "c".to_string(), 0);
    assert_eq!(blockchain.chain.len(), 1);
    assert_eq!(blockchain.pending_transactions.len(), 2);
    assert_eq!(blockchain.pending_transactions[0].sender, "a");
    assert_eq!(blockchain.pending_transactions[0].recipient, "b");
    assert_eq!(blockchain.pending_transactions[0].amount, -3);
    assert_eq!(blockchain.pending_transactions[1].sender, "");
    assert_eq!(blockchain.pending_transactions[1].amount, 0);
}

#[test]
fn push_transaction_keeps_the_timestamp() {
    let mut blockchain = Blockchain::new(1, 10);
    blockchain.push_transaction(Transaction::with_timestamp(
        "a".to_string(),
        "b".to_string(),
        9,
        42,
    ));
    assert_eq!(blockchain.pending_transactions.len(), 1);
    assert_eq!(blockchain.pending_transactions[0].timestamp, 42);
    assert_eq!(blockchain.pending_transactions[0].amount, 9);
}

#[test]
fn mining_seals_links_and_clears() {
    let mut blockchain = Blockchain::new(2, 100);
    blockchain.add_transaction("a".to_string(), "b".to_string(), 5);
    blockchain.add_transaction("b".to_string(), "c".to_string(), 2);
    assert!(blockchain.mine_pending_transactions("m".to_string()));
    assert_eq!(blockchain.chain.len(), 2);
    assert!(blockchain.pending_transactions.is_empty());
    let block = &blockchain.chain[1];
    assert_eq!(block.index, 1);
    assert_eq!(block.previous_hash, blockchain.chain[0].hash);
    assert!(block.hash.starts_with("00"));
    assert_eq!(block.hash, block.calculate_hash());
    assert_eq!(block.transactions.len(), 3);
    assert_eq!(block.transactions[0].sender, "a");
    assert_eq!(block.transactions[1].sender, "b");
    assert_eq!(block.transactions[2].sender, "System");
    assert_eq!(block.transactions[2].recipient, "m");
    assert_eq!(block.transactions[2].amount, 100);
    for _ in 0..3 {
        assert!(blockchain.mine_pending_transactions("m".to_string()));
    }
    assert_eq!(blockchain.chain.len(), 5);
    for i in 1..blockchain.chain.len() {
        assert_eq!(blockchain.chain[i].index, i as u64);
        assert_eq!(blockchain.chain[i].previous_hash, blockchain.chain[i - 1].hash);
        assert!(starts_with_zeros(&blockchain.chain[i].hash, 2));
    }
    assert!(blockchain.is_chain_valid());
}

#[test]
fn mining_at_given_times_is_repeatable() {
    let mut a = Blockchain::with_genesis_timestamp(2, 50, 1000);
    let mut b = Blockchain::with_genesis_timestamp(2, 50, 1000);
    a.push_transaction(Transaction::with_timestamp("x".to_string(), "y".to_string(), 4, 1001));
    b.push_transaction(Transaction::with_timestamp("x".to_string(), "y".to_string(), 4, 1001));
    assert!(a.mine_pending_at("m".to_string(), 1002, 1003));
    assert!(b.mine_pending_at("m".to_string(), 1002, 1003));
    assert_eq!(a.chain[1].nonce, b.chain[1].nonce);
    assert_eq!(a.chain[1].hash, b.chain[1].hash);
    assert_eq!(a.chain[1].timestamp, 1003);
    assert_eq!(a.chain[1].transactions[1].timestamp, 1002);
    assert!(a.chain[1].hash.starts_with("00"));
    // no smaller nonce seals the block
    let mut probe = Block::with_timestamp(
        1,
        1003,
        vec![
            Transaction::with_timestamp("x".to_string(), "y".to_string(), 4, 1001),
            Transaction::with_timestamp("System".to_string(), "m".to_string(), 50, 1002),
        ],
        a.chain[0].hash.clone(),
    );
    for n in 0..a.chain[1].nonce {
        probe.nonce = n;
        assert!(!probe.calculate_hash().starts_with("00"));
    }
    probe.nonce = a.chain[1].nonce;
    assert_eq!(probe.calculate_hash(), a.chain[1].hash);
}

#[test]
fn mining_that_cannot_succeed_changes_nothing() {
    let mut blockchain = Blockchain::with_genesis_timestamp(65, 50, 1000);
    blockchain.push_transaction(Transaction::with_timestamp(
        "x".to_string(),
        "y".to_string(),
        4,
        1001,
    ));
    // A digest has 64 characters: no nonce gives 65 zeros. The search itself
    // is too long to run, so the block is searched from near the last nonce.
    let mut block = Block::with_timestamp(1, 1003, Vec::new(), blockchain.chain[0].hash.clone());
    block.nonce = u64::MAX - 5;
    block.hash = block.calculate_hash();
    assert!(!block.mine_block(65));
    assert_eq!(block.nonce, u64::MAX);
    assert_eq!(block.hash, block.calculate_hash());
    assert_eq!(blockchain.chain.len(), 1);
    assert_eq!(blockchain.pending_transactions.len(), 1);
}

#[test]
fn two_blocks_balances_and_validity() {
    let mut ledger = Blockchain::new(2, 100);
    assert!(ledger.is_chain_valid());
    assert!(ledger.mine_pending_transactions("m1".to_string()));
    assert_eq!(ledger.chain.len(), 2);
    assert_eq!(ledger.get_balance("m1"), 100);
    assert!(ledger.is_chain_valid());
    ledger.add_transaction("m1".to_string(), "a".to_string(), 40);
    ledger.add_transaction("a".to_string(), "b".to_string(), 10);
    assert!(ledger.mine_pending_transactions("m1".to_string()));
    assert_eq!(ledger.chain.len(), 3);
    assert_eq!(ledger.get_balance("m1"), 160);
    assert_eq!(ledger.get_balance("a"), 30);
    assert_eq!(ledger.get_balance("b"), 10);
    assert_eq!(ledger.get_balance("System"), -200);
    assert_eq!(ledger.get_balance("nobody"), 0);
    assert!(ledger.is_chain_valid());
    let first = ledger.chain[1].hash.remove(0);
    ledger.chain[1].hash.insert(0, if first == '0' { '1' } else { '0' });
    assert!(!ledger.is_chain_valid());
}

#[test]
fn tampered_amount_is_detected() {
    let mut ledger = Blockchain::new(1, 100);
    ledger.add_transaction("a".to_string(), "b".to_string(), 10);
    assert!(ledger.mine_pending_transactions("m".to_string()));
    assert!(ledger.mine_pending_transactions("m".to_string()));
    assert!(ledger.is_chain_valid());
    ledger.chain[1].transactions[0].amount = 11;
    assert!(!ledger.is_chain_valid());
    ledger.chain[1].transactions[0].amount = 10;
    assert!(ledger.is_chain_valid());
}

#[test]
fn broken_link_is_detected() {
    let mut ledger = Blockchain::new(1, 100);
    assert!(ledger.mine_pending_transactions("m".to_string()));
    assert!(ledger.mine_pending_transactions("m".to_string()));
    // a consistent block that names another predecessor
    let mut forged = Block::with_timestamp(2, 5, Vec::new(), zeros(64));
    forged.mine_block(1);
    ledger.chain[2] = forged;
    assert_eq!(ledger.chain[2].hash, ledger.chain[2].calculate_hash());
    assert!(!ledger.is_chain_valid());
}

#[test]
fn validity_does_not_ask_for_leading_zeros() {
    let mut ledger = Blockchain::new(0, 100);
    assert!(ledger.mine_pending_transactions("m".to_string()));
    assert_eq!(ledger.chain[1].nonce, 0);
    ledger.difficulty = 8;
    assert!(ledger.is_chain_valid());
    // the genesis block is never examined
    ledger.chain[0].nonce = 77;
    assert!(ledger.is_chain_valid());
}

#[test]
fn self_transfer_nets_to_zero() {
    let mut ledger = Blockchain::new(1, 0);
    ledger.add_transaction("a".to_string(), "a".to_string(), 25);
    assert!(ledger.mine_pending_transactions("m".to_string()));
    assert_eq!(ledger.get_balance("a"), 0);
    assert_eq!(ledger.get_balance("m"), 0);
}

#[test]
fn pending_transactions_do_not_count() {
    let mut ledger = Blockchain::new(1, 10);
    ledger.add_transaction("a".to_string(), "b".to_string(), 25);
    assert_eq!(ledger.get_balance("a"), 0);
    assert_eq!(ledger.get_balance("b"), 0);
}

#[test]
fn overdraft_and_negative_amounts_are_accepted() {
    let mut ledger = Blockchain::new(1, 10);
    ledger.add_transaction("a".to_string(), "b".to_string(), 1000);
    ledger.add_transaction("b".to_string(), "c".to_string(), -7);
    assert!(ledger.mine_pending_transactions("m".to_string()));
    assert_eq!(ledger.get_balance("a"), -1000);
    assert_eq!(ledger.get_balance("b"), 1007);
    assert_eq!(ledger.get_balance("c"), -7);
}

#[test]
fn balance_does_not_overflow_at_the_extremes() {
    let mut ledger = Blockchain::new(0, i64::MAX);
    ledger.add_transaction("a".to_string(), "b".to_string(), i64::MIN);
    ledger.add_transaction("a".to_string(), "b".to_string(), i64::MIN);
    assert!(ledger.mine_pending_transactions("b".to_string()));
    assert_eq!(ledger.get_balance("a"), 2 * (i64::MAX as i128 + 1));
    assert_eq!(ledger.get_balance("b"), 2 * (i64::MIN as i128) + i64::MAX as i128);
}

#[test]
fn balances_sum_to_zero_over_all_addresses() {
    let mut ledger = Blockchain::new(1, 100);
    ledger.add_transaction("a".to_string(), "b".to_string(), 40);
    ledger.add_transaction("b".to_string(), "c".to_string(), 15);
    assert!(ledger.mine_pending_transactions("m".to_string()));
    ledger.add_transaction("c".to_string(), "a".to_string(), 5);
    assert!(ledger.mine_pending_transactions("m".to_string()));
    let users: i128 = ["a", "b", "c", "m"].iter().map(|a| ledger.get_balance(a)).sum();
    assert_eq!(users, 200);
    assert_eq!(users + ledger.get_balance("System"), 0);
}

#[test]
fn transfers_alone_sum_to_zero() {
    let mut ledger = Blockchain::with_genesis_timestamp(0, 0, 1);
    let block = Block::with_timestamp(
        1,
        2,
        vec![
            Transaction::with_timestamp("a".to_string(), "b".to_string(), 40, 2),
            Transaction::with_timestamp("b".to_string(), "c".to_string(), 15, 2),
            Transaction::with_timestamp("c".to_string(), "c".to_string(), 3, 2),
        ],
        ledger.chain[0].hash.clone(),
    );
    ledger.chain.push(block);
    assert!(ledger.is_chain_valid());
    let total: i128 = ["a", "b", "c"].iter().map(|a| ledger.get_balance(a)).sum();
    assert_eq!(total, 0);
    assert_eq!(ledger.get_balance("a"), -40);
    assert_eq!(ledger.get_balance("b"), 25);
    assert_eq!(ledger.get_balance("c"), 15);
}

#[test]
fn transaction_count_adds_up_the_blocks() {
    let mut ledger = Blockchain::new(1, 10);
    assert_eq!(ledger.transaction_count(), Some(0));
    ledger.add_transaction("a".to_string(), "b".to_string(), 1);
    ledger.add_transaction("b".to_string(), "c".to_string(), 1);
    assert_eq!(ledger.transaction_count(), Some(0));
    assert!(ledger.mine_pending_transactions("m".to_string()));
    assert_eq!(ledger.transaction_count(), Some(3));
    assert!(ledger.mine_pending_transactions("m".to_string()));
    assert_eq!(ledger.transaction_count(), Some(4));
}

#[test]
fn mining_at_difficulty_zero_always_succeeds() {
    let mut ledger = Blockchain::new(0, 5);
    for k in 1..=4u64 {
        ledger.add_transaction("a".to_string(), "b".to_string(), 1);
        assert!(ledger.mine_pending_transactions("m".to_string()));
        assert_eq!(ledger.chain.len() as u64, k + 1);
        assert_eq!(ledger.get_latest_block().nonce, 0);
        assert!(ledger.pending_transactions.is_empty());
    }
}

#[test]
fn rewards_add_up_over_several_blocks() {
    let mut ledger = Blockchain::new(1, 100);
    for _ in 0..3 {
        ledger.add_transaction("m".to_string(), "a".to_string(), 7);
        ledger.add_transaction("a".to_string(), "b".to_string(), 2);
        assert!(ledger.mine_pending_transactions("m".to_string()));
    }
    let users: i128 = ["a", "b", "m"].iter().map(|a| ledger.get_balance(a)).sum();
    assert_eq!(users, 300);
    assert_eq!(ledger.get_balance("System"), -300);
    assert_eq!(ledger.get_balance("m"), 279);
    assert_eq!(ledger.get_balance("a"), 15);
    assert_eq!(ledger.get_balance("b"), 6);
}
