use simple_blockchain::block::Block;
use simple_blockchain::digest::{sha256_hex, starts_with_zeros, to_hex};
use simple_blockchain::encoding::{push_decimal, push_signed_decimal};
use simple_blockchain::transaction::{push_text, Transaction};

#[test]
fn sha256_of_known_inputs() {
    assert_eq!(
        sha256_hex(b"abc"),
        "ba7816bf8f01cfea414140de5dae2223b00361a396177a9cb410ff61f20015ad"
    );
    assert_eq!(
        sha256_hex(b""),
        "e3b0c44298fc1c149afbf4c8996fb92427ae41e4649b934ca495991b7852b855"
    );
}

#[test]
fn hex_is_lowercase_two_digits_per_byte() {
    assert_eq!(to_hex(&[]), "");
    assert_eq!(to_hex(&[0x00, 0x0f, 0xa0, 0xff, 0x5c]), "000fa0ff5c");
    assert_eq!(to_hex(&[1, 35, 69, 103, 137, 171, 205, 239]), "0123456789abcdef");
}

#[test]
fn zero_prefix_predicate() {
    assert!(starts_with_zeros("00ab", 0));
    assert!(starts_with_zeros("00ab", 2));
    assert!(!starts_with_zeros("00ab", 3));
    assert!(!starts_with_zeros("0", 2));
    assert!(starts_with_zeros("", 0));
    assert!(!starts_with_zeros("", 1));
    assert!(starts_with_zeros("000", 3));
    assert!(!starts_with_zeros("a00", 1));
}

#[test]
fn decimal_text() {
    let mut out = vec![b'x'];
    push_decimal(&mut out, 0);
    push_decimal(&mut out, 7);
    push_decimal(&mut out, 10);
    push_decimal(&mut out, u64::MAX);
    assert_eq!(out, b"x071018446744073709551615".to_vec());
}

#[test]
fn signed_decimal_text() {
    let mut out = Vec::new();
    push_signed_decimal(&mut out, 0);
    push_signed_decimal(&mut out, -1);
    push_signed_decimal(&mut out, 120);
    push_signed_decimal(&mut out, i64::MIN);
    push_signed_decimal(&mut out, i64::MAX);
    assert_eq!(out, b"0-1120-92233720368547758089223372036854775807".to_vec());
}

#[test]
fn text_field_bytes() {
    let mut out = Vec::new();
    push_text(&mut out, "");
    push_text(&mut out, "abc");
    push_text(&mut out, "é:");
    assert_eq!(out, "0:3:abc3:é:".as_bytes().to_vec());
}

#[test]
fn transaction_bytes() {
    let t = Transaction::with_timestamp("alice".to_string(), "bob".to_string(), -40, 1700);
    let mut out = vec![b'['];
    t.encode(&mut out);
    assert_eq!(out, b"[5:alice3:bob-40;1700;".to_vec());
}

#[test]
fn transaction_new_takes_the_clock() {
    let t = Transaction::new("a".to_string(), "b".to_string(), 3);
    assert_eq!(t.sender, "a");
    assert_eq!(t.recipient, "b");
    assert_eq!(t.amount, 3);
    assert!(t.timestamp > 1_600_000_000);
}

#[test]
fn block_digest_is_sha256_of_the_payload() {
    let mut block = Block::with_timestamp(
        3,
        1700,
        vec![
            Transaction::with_timestamp("a".to_string(), "b".to_string(), 5, 1699),
            Transaction::with_timestamp("System".to_string(), "m".to_string(), 100, 1700),
        ],
        "ab".repeat(32),
    );
    assert_eq!(block.nonce, 0);
    assert_eq!(block.index, 3);
    assert_eq!(block.timestamp, 1700);
    let payload = format!("3;1700;[1:a1:b5;1699;6:System1:m100;1700;]64:{}0;", "ab".repeat(32));
    assert_eq!(block.hash, sha256_hex(payload.as_bytes()));
    assert_eq!(block.calculate_hash(), block.hash);
    assert_eq!(block.hash.len(), 64);
    block.nonce = 12;
    let payload = format!("3;1700;[1:a1:b5;1699;6:System1:m100;1700;]64:{}12;", "ab".repeat(32));
    assert_eq!(block.calculate_hash(), sha256_hex(payload.as_bytes()));
    // the stored digest is no part of the content
    block.hash = String::new();
    assert_eq!(block.calculate_hash(), sha256_hex(payload.as_bytes()));
}

#[test]
fn digest_is_the_same_every_time() {
    let block = Block::new(1, Vec::new(), "0".repeat(64));
    let first = block.calculate_hash();
    assert_eq!(block.calculate_hash(), first);
    assert_eq!(block.calculate_hash(), first);
    assert_eq!(block.hash, first);
    assert!(block.timestamp > 1_600_000_000);
}

#[test]
fn digest_depends_on_the_order_of_transactions() {
    let a = Block::with_timestamp(
        1,
        10,
        vec![
            Transaction::with_timestamp("a".to_string(), "b".to_string(), 1, 1),
            Transaction::with_timestamp("c".to_string(), "d".to_string(), 2, 2),
        ],
        "0".repeat(64),
    );
    let b = Block::with_timestamp(
        1,
        10,
        vec![
            Transaction::with_timestamp("c".to_string(), "d".to_string(), 2, 2),
            Transaction::with_timestamp("a".to_string(), "b".to_string(), 1, 1),
        ],
        "0".repeat(64),
    );
    assert_ne!(a.hash, b.hash);
}

#[test]
fn mining_at_difficulty_zero_changes_nothing() {
    let mut block = Block::with_timestamp(1, 10, Vec::new(), "0".repeat(64));
    let before = block.hash.clone();
    assert!(block.mine_block(0));
    assert_eq!(block.nonce, 0);
    assert_eq!(block.hash, before);
}

#[test]
fn mining_finds_the_least_nonce() {
    let mut block = Block::with_timestamp(1, 10, Vec::new(), "0".repeat(64));
    assert!(block.mine_block(2));
    assert!(block.hash.starts_with("00"));
    assert_eq!(block.hash, block.calculate_hash());
    let found = block.nonce;
    let mut probe = Block::with_timestamp(1, 10, Vec::new(), "0".repeat(64));
    for n in 0..found {
        probe.nonce = n;
        assert!(!probe.calculate_hash().starts_with("00"));
    }
    // a sealed block is left alone
    assert!(block.mine_block(2));
    assert_eq!(block.nonce, found);
}

#[test]
fn mining_stops_at_the_last_nonce() {
    let mut block = Block::with_timestamp(1, 10, Vec::new(), "0".repeat(64));
    block.nonce = u64::MAX - 3;
    block.hash = block.calculate_hash();
    assert!(!block.mine_block(64));
    assert_eq!(block.nonce, u64::MAX);
    assert_eq!(block.hash, block.calculate_hash());
    assert!(!block.mine_block(64));
    assert_eq!(block.nonce, u64::MAX);
}

#[test]
fn index_and_timestamp_are_kept_apart() {
    let a = Block::with_timestamp(1, 23, Vec::new(), "0".repeat(64));
    let b = Block::with_timestamp(12, 3, Vec::new(), "0".repeat(64));
    assert_ne!(a.calculate_hash(), b.calculate_hash());
    assert_eq!(a.hash, sha256_hex(format!("1;23;[]64:{}0;", "0".repeat(64)).as_bytes()));
    assert_eq!(b.hash, sha256_hex(format!("12;3;[]64:{}0;", "0".repeat(64)).as_bytes()));
}

#[test]
fn previous_digest_and_nonce_are_kept_apart() {
    let mut a = Block::with_timestamp(1, 5, Vec::new(), "ab1".to_string());
    a.nonce = 2;
    let mut b = Block::with_timestamp(1, 5, Vec::new(), "ab".to_string());
    b.nonce = 12;
    assert_ne!(a.calculate_hash(), b.calculate_hash());
    assert_eq!(a.calculate_hash(), sha256_hex(b"1;5;[]3:ab12;"));
    assert_eq!(b.calculate_hash(), sha256_hex(b"1;5;[]2:ab12;"));
}

#[test]
fn transactions_and_previous_digest_are_kept_apart() {
    let a = Block::with_timestamp(
        1,
        5,
        vec![Transaction::with_timestamp("a".to_string(), "b".to_string(), 1, 2)],
        "x".to_string(),
    );
    assert_eq!(a.hash, sha256_hex(b"1;5;[1:a1:b1;2;]1:x0;"));
    let b = Block::with_timestamp(1, -5, Vec::new(), "".to_string());
    assert_eq!(b.hash, sha256_hex(b"1;-5;[]0:0;"));
}
