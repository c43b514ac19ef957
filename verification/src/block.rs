//! Blocks, their canonical digest and the proof-of-work search.

use crate::clock::unix_time_now;
use crate::digest::{has_zero_prefix, hex_text, sha256, sha256_hex, starts_with_zeros};
use crate::encoding::{
    decimal, lemma_decimal_field_unique, lemma_signed_field_unique, push_decimal,
    push_signed_decimal, signed_decimal,
};
use crate::transaction::{
    lemma_text_field_unique, lemma_transactions_unique, push_text, text_bytes,
    transaction_views, transactions_bytes, Transaction, TransactionView,
};
use vstd::prelude::*;
use vstd::string::*;

verus! {

/// An ordered batch of transactions, linked to the block before it by that
/// block's digest.
#[derive(Debug, Clone)]
pub struct Block {
    pub index: u64,
    pub timestamp: i64,
    pub transactions: Vec<Transaction>,
    pub previous_hash: String,
    pub hash: String,
    pub nonce: u64,
}

/// What a block is, as plain values.
pub ghost struct BlockView {
    pub index: nat,
    pub timestamp: int,
    pub transactions: Seq<TransactionView>,
    pub previous_hash: Seq<char>,
    pub hash: Seq<char>,
    pub nonce: nat,
}

impl View for Block {
    type V = BlockView;

    open spec fn view(&self) -> BlockView {
        BlockView {
            index: self.index as nat,
            timestamp: self.timestamp as int,
            transactions: transaction_views(self.transactions@),
            previous_hash: self.previous_hash@,
            hash: self.hash@,
            nonce: self.nonce as nat,
        }
    }
}

/// The bytes that a block's digest is taken of: the index and the timestamp
/// in decimal, each closed by a semicolon, the transactions between brackets,
/// the previous digest as a text field, and the nonce in decimal, closed by a
/// semicolon. The stored digest is no part of them.
pub open spec fn block_payload(b: BlockView) -> Seq<u8> {
    decimal(b.index) + seq![59u8] + signed_decimal(b.timestamp) + seq![59u8] + seq![91u8]
        + transactions_bytes(b.transactions) + seq![93u8] + text_bytes(b.previous_hash) + decimal(
        b.nonce,
    ) + seq![59u8]
}

/// Two blocks have the same content: they agree on everything but the digest
/// that each stores.
pub open spec fn same_content(a: BlockView, b: BlockView) -> bool {
    &&& a.index == b.index
    &&& a.timestamp == b.timestamp
    &&& a.transactions == b.transactions
    &&& a.previous_hash == b.previous_hash
    &&& a.nonce == b.nonce
}

/// The payload of a block, field by field from the front.
pub open spec fn payload_fields(b: BlockView) -> Seq<u8> {
    decimal(b.index) + seq![59u8] + (signed_decimal(b.timestamp) + seq![59u8] + (seq![91u8] + (
    transactions_bytes(b.transactions) + seq![93u8] + (text_bytes(b.previous_hash) + (decimal(
        b.nonce,
    ) + seq![59u8] + Seq::<u8>::empty())))))
}

/// `payload_fields` is the payload.
pub proof fn lemma_payload_fields(b: BlockView)
    ensures
        block_payload(b) == payload_fields(b),
{
    let last = decimal(b.nonce) + seq![59u8] + Seq::<u8>::empty();
    assert(last =~= decimal(b.nonce) + seq![59u8]);
    let upto_list = decimal(b.index) + seq![59u8] + signed_decimal(b.timestamp) + seq![59u8] + seq![91u8]
        + transactions_bytes(b.transactions) + seq![93u8];
    let after_list = text_bytes(b.previous_hash) + last;
    assert(block_payload(b) =~= upto_list + after_list);
    let upto_time = decimal(b.index) + seq![59u8] + signed_decimal(b.timestamp) + seq![59u8];
    let from_list = seq![91u8] + (transactions_bytes(b.transactions) + seq![93u8] + after_list);
    assert(upto_list + after_list =~= upto_time + from_list);
    let from_time = signed_decimal(b.timestamp) + seq![59u8] + from_list;
    assert(upto_time + from_list =~= decimal(b.index) + seq![59u8] + from_time);
}

/// The payload separates its fields: two blocks have the same payload only
/// where they have the same content, so blocks of different content are
/// hashed from different bytes.
pub proof fn lemma_payload_injective(a: BlockView, b: BlockView)
    ensures
        block_payload(a) == block_payload(b) <==> same_content(a, b),
{
    if block_payload(a) == block_payload(b) {
        let none = Seq::<u8>::empty();
        let a4 = decimal(a.nonce) + seq![59u8] + none;
        let b4 = decimal(b.nonce) + seq![59u8] + none;
        let a3 = text_bytes(a.previous_hash) + a4;
        let b3 = text_bytes(b.previous_hash) + b4;
        let a2 = transactions_bytes(a.transactions) + seq![93u8] + a3;
        let b2 = transactions_bytes(b.transactions) + seq![93u8] + b3;
        let a1 = signed_decimal(a.timestamp) + seq![59u8] + (seq![91u8] + a2);
        let b1 = signed_decimal(b.timestamp) + seq![59u8] + (seq![91u8] + b2);
        lemma_payload_fields(a);
        lemma_payload_fields(b);
        lemma_decimal_field_unique(a.index, a1, b.index, b1, 59u8);
        lemma_signed_field_unique(a.timestamp, seq![91u8] + a2, b.timestamp, seq![91u8] + b2);
        assert((seq![91u8] + a2).skip(1) =~= a2);
        assert((seq![91u8] + b2).skip(1) =~= b2);
        lemma_transactions_unique(a.transactions, a3, b.transactions, b3);
        lemma_text_field_unique(a.previous_hash, a4, b.previous_hash, b4);
        lemma_decimal_field_unique(a.nonce, none, b.nonce, none, 59u8);
    }
}

/// The canonical digest of a block: SHA-256 of its payload, in lowercase
/// hexadecimal. It depends on the block's content alone.
pub open spec fn block_digest(b: BlockView) -> Seq<char> {
    hex_text(sha256(block_payload(b)))
}

/// The block `b` with another nonce.
pub open spec fn with_nonce(b: BlockView, nonce: nat) -> BlockView {
    BlockView { nonce, ..b }
}

/// With this nonce the digest of `b` starts with `difficulty` zeros.
pub open spec fn seals(b: BlockView, nonce: nat, difficulty: nat) -> bool {
    has_zero_prefix(block_digest(with_nonce(b, nonce)), difficulty)
}

/// The stored digest of `b` is the digest of its content.
pub open spec fn digest_consistent(b: BlockView) -> bool {
    b.hash == block_digest(b)
}

impl Block {
    /// A block with nonce 0, stamped with the current time, and its digest.
    pub fn new(index: u64, transactions: Vec<Transaction>, previous_hash: String) -> (b: Self)
        ensures
            b@.index == index,
            b@.transactions == transaction_views(transactions@),
            b@.previous_hash == previous_hash@,
            b@.nonce == 0,
            digest_consistent(b@),
    {
        Block::with_timestamp(index, unix_time_now(), transactions, previous_hash)
    }

    /// A block with nonce 0 and the given creation time, and its digest.
    pub fn with_timestamp(
        index: u64,
        timestamp: i64,
        transactions: Vec<Transaction>,
        previous_hash: String,
    ) -> (b: Self)
        ensures
            b@.index == index,
            b@.timestamp == timestamp,
            b@.transactions == transaction_views(transactions@),
            b@.previous_hash == previous_hash@,
            b@.nonce == 0,
            digest_consistent(b@),
    {
        let mut block = Block {
            index,
            timestamp,
            transactions,
            previous_hash,
            hash: String::new(),
            nonce: 0,
        };
        let hash = block.calculate_hash();
        block.hash = hash;
        block
    }

    /// The canonical digest of the block's present content.
    pub fn calculate_hash(&self) -> (hash: String)
        ensures
            hash@ == block_digest(self@),
            hash@.len() == 64,
    {
        let mut payload: Vec<u8> = Vec::new();
        push_decimal(&mut payload, self.index);
        payload.push(59u8);
        push_signed_decimal(&mut payload, self.timestamp);
        payload.push(59u8);
        payload.push(91u8);
        let ghost head = payload@;
        let ghost views = transaction_views(self.transactions@);
        let mut i: usize = 0;
        while i < self.transactions.len()
            invariant
                i <= self.transactions@.len(),
                views == transaction_views(self.transactions@),
                payload@ == head + transactions_bytes(views.take(i as int)),
            decreases self.transactions@.len() - i,
        {
            proof {
                let next = views.take(i + 1);
                assert(next.drop_last() =~= views.take(i as int));
                assert(next.last() == self.transactions@[i as int]@);
            }
            self.transactions[i].encode(&mut payload);
            assert(payload@ =~= head + transactions_bytes(views.take(i + 1)));
            i += 1;
        }
        assert(views.take(i as int) =~= views);
        payload.push(93u8);
        push_text(&mut payload, self.previous_hash.as_str());
        push_decimal(&mut payload, self.nonce);
        payload.push(59u8);
        assert(payload@ =~= block_payload(self@));
        sha256_hex(payload.as_slice())
    }

    /// Proof of work. Leaves the block as it is where its stored digest
    /// already starts with `difficulty` zeros. Otherwise moves to the least
    /// greater nonce whose digest does, and stores that digest; where no nonce
    /// up to the greatest does, stops there and reports `false`.
    pub fn mine_block(&mut self, difficulty: usize) -> (found: bool)
        ensures
            final(self)@.index == old(self)@.index,
            final(self)@.timestamp == old(self)@.timestamp,
            final(self)@.transactions == old(self)@.transactions,
            final(self)@.previous_hash == old(self)@.previous_hash,
            final(self)@.nonce >= old(self)@.nonce,
            final(self)@.nonce == old(self)@.nonce ==> final(self)@.hash == old(self)@.hash,
            final(self)@.nonce > old(self)@.nonce ==> digest_consistent(final(self)@),
            has_zero_prefix(old(self)@.hash, difficulty as nat)
                ==> final(self)@.nonce == old(self)@.nonce,
            forall|n: nat|
                old(self)@.nonce < n < final(self)@.nonce
                    ==> !seals(old(self)@, n, difficulty as nat),
            found == has_zero_prefix(final(self)@.hash, difficulty as nat),
            !found ==> final(self)@.nonce == u64::MAX,
    {
        let mut found = starts_with_zeros(self.hash.as_str(), difficulty);
        while !found && self.nonce < u64::MAX
            invariant
                self@.index == old(self)@.index,
                self@.timestamp == old(self)@.timestamp,
                self@.transactions == old(self)@.transactions,
                self@.previous_hash == old(self)@.previous_hash,
                self@.nonce >= old(self)@.nonce,
                self@.nonce == old(self)@.nonce ==> self@.hash == old(self)@.hash,
                self@.nonce > old(self)@.nonce ==> digest_consistent(self@),
                has_zero_prefix(old(self)@.hash, difficulty as nat)
                    ==> self@.nonce == old(self)@.nonce,
                forall|n: nat|
                    old(self)@.nonce < n < self@.nonce ==> !seals(old(self)@, n, difficulty as nat),
                found == has_zero_prefix(self@.hash, difficulty as nat),
            decreases u64::MAX - self.nonce,
        {
            let ghost before = self@;
            self.nonce = self.nonce + 1;
            let hash = self.calculate_hash();
            self.hash = hash;
            found = starts_with_zeros(self.hash.as_str(), difficulty);
            proof {
                assert(block_payload(with_nonce(old(self)@, before.nonce))
                    == block_payload(before));
            }
        }
        found
    }
}

} // verus!
