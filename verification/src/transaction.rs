//! Value transfers and their canonical bytes.

use crate::clock::unix_time_now;
use crate::encoding::{
    decimal, lemma_decimal_field_unique, lemma_decimal_value, lemma_signed_field_unique,
    push_decimal, push_signed_decimal, signed_decimal,
};
use vstd::prelude::*;
use vstd::string::*;
use vstd::utf8::{encode_utf8, encode_utf8_decode_utf8};

verus! {

/// A transfer of `amount` units from `sender` to `recipient`. The amount is a
/// signed count of the smallest unit of value; nothing asks it to be positive.
#[derive(Debug, Clone)]
pub struct Transaction {
    pub sender: String,
    pub recipient: String,
    pub amount: i64,
    pub timestamp: i64,
}

/// What a transaction is, as plain values.
pub ghost struct TransactionView {
    pub sender: Seq<char>,
    pub recipient: Seq<char>,
    pub amount: int,
    pub timestamp: int,
}

impl View for Transaction {
    type V = TransactionView;

    open spec fn view(&self) -> TransactionView {
        TransactionView {
            sender: self.sender@,
            recipient: self.recipient@,
            amount: self.amount as int,
            timestamp: self.timestamp as int,
        }
    }
}

/// The views of a sequence of transactions, in the same order.
pub open spec fn transaction_views(ts: Seq<Transaction>) -> Seq<TransactionView> {
    Seq::new(ts.len(), |i: int| ts[i]@)
}

/// Canonical bytes of a text field: the length of its UTF-8 bytes in decimal,
/// a colon, then the bytes.
pub open spec fn text_bytes(s: Seq<char>) -> Seq<u8> {
    decimal(encode_utf8(s).len()) + seq![58u8] + encode_utf8(s)
}

/// Canonical bytes of one transaction: both addresses as text fields, then the
/// amount and the timestamp in decimal, each closed by a semicolon.
pub open spec fn transaction_bytes(t: TransactionView) -> Seq<u8> {
    text_bytes(t.sender) + text_bytes(t.recipient) + signed_decimal(t.amount) + seq![59u8]
        + signed_decimal(t.timestamp) + seq![59u8]
}

/// Canonical bytes of a sequence of transactions: those of each, in order.
pub open spec fn transactions_bytes(ts: Seq<TransactionView>) -> Seq<u8>
    decreases ts.len(),
{
    if ts.len() == 0 {
        Seq::<u8>::empty()
    } else {
        transactions_bytes(ts.drop_last()) + transaction_bytes(ts.last())
    }
}

/// The bytes of two sequences of transactions one after the other are the
/// bytes of the first and then those of the second.
pub proof fn lemma_transactions_bytes_concat(p: Seq<TransactionView>, q: Seq<TransactionView>)
    ensures
        transactions_bytes(p + q) == transactions_bytes(p) + transactions_bytes(q),
    decreases q.len(),
{
    if q.len() == 0 {
        assert(p + q =~= p);
        assert(transactions_bytes(p) + transactions_bytes(q) =~= transactions_bytes(p));
    } else {
        lemma_transactions_bytes_concat(p, q.drop_last());
        assert((p + q).drop_last() =~= p + q.drop_last());
        assert((p + q).last() == q.last());
        assert(transactions_bytes(p + q) =~= transactions_bytes(p) + transactions_bytes(q));
    }
}

/// The bytes of a sequence of one transaction are the bytes of that one.
pub proof fn lemma_single_transaction_bytes(t: TransactionView)
    ensures
        transactions_bytes(seq![t]) == transaction_bytes(t),
{
    let s = seq![t];
    assert(s.drop_last() =~= Seq::<TransactionView>::empty());
    assert(transactions_bytes(Seq::<TransactionView>::empty()) =~= Seq::<u8>::empty());
    assert(s.last() == t);
    assert(transactions_bytes(s) =~= transaction_bytes(t));
}

/// The bytes of a sequence of transactions are those of the first and then
/// those of the rest.
pub proof fn lemma_transactions_bytes_front(ts: Seq<TransactionView>)
    requires
        ts.len() > 0,
    ensures
        transactions_bytes(ts) == transaction_bytes(ts[0]) + transactions_bytes(ts.skip(1)),
        48 <= transactions_bytes(ts)[0] <= 57,
{
    assert(ts =~= seq![ts[0]] + ts.skip(1));
    lemma_transactions_bytes_concat(seq![ts[0]], ts.skip(1));
    lemma_single_transaction_bytes(ts[0]);
    lemma_decimal_value(encode_utf8(ts[0].sender).len());
    assert(transaction_bytes(ts[0])[0] == decimal(encode_utf8(ts[0].sender).len())[0]);
}

/// A text field can be read back from the front of a byte string in one way
/// only.
pub proof fn lemma_text_field_unique(a: Seq<char>, x: Seq<u8>, b: Seq<char>, y: Seq<u8>)
    requires
        text_bytes(a) + x == text_bytes(b) + y,
    ensures
        a == b,
        x == y,
{
    let ua = encode_utf8(a);
    let ub = encode_utf8(b);
    assert(text_bytes(a) + x =~= decimal(ua.len()) + seq![58u8] + (ua + x));
    assert(text_bytes(b) + y =~= decimal(ub.len()) + seq![58u8] + (ub + y));
    lemma_decimal_field_unique(ua.len(), ua + x, ub.len(), ub + y, 58u8);
    let n = ua.len() as int;
    assert(ua =~= (ua + x).take(n));
    assert(ub =~= (ub + y).take(n));
    assert(x =~= (ua + x).skip(n));
    assert(y =~= (ub + y).skip(n));
    encode_utf8_decode_utf8(a);
    encode_utf8_decode_utf8(b);
}

/// The bytes of a transaction and what follows them, field by field.
pub open spec fn transaction_then(t: TransactionView, x: Seq<u8>) -> Seq<u8> {
    text_bytes(t.sender) + (text_bytes(t.recipient) + (signed_decimal(t.amount) + seq![59u8] + (
    signed_decimal(t.timestamp) + seq![59u8] + x)))
}

/// `transaction_then` is the bytes of the transaction followed by `x`.
pub proof fn lemma_transaction_then(t: TransactionView, x: Seq<u8>)
    ensures
        transaction_bytes(t) + x == transaction_then(t, x),
{
    let p = text_bytes(t.sender) + text_bytes(t.recipient) + signed_decimal(t.amount) + seq![59u8];
    let q = signed_decimal(t.timestamp) + seq![59u8] + x;
    assert(transaction_bytes(t) + x =~= p + q);
    let r = signed_decimal(t.amount) + seq![59u8] + q;
    assert(p + q =~= text_bytes(t.sender) + text_bytes(t.recipient) + r);
    assert(text_bytes(t.sender) + text_bytes(t.recipient) + r =~= transaction_then(t, x));
}

/// A transaction can be read back from the front of a byte string in one way
/// only.
pub proof fn lemma_transaction_unique(
    a: TransactionView,
    x: Seq<u8>,
    b: TransactionView,
    y: Seq<u8>,
)
    requires
        transaction_bytes(a) + x == transaction_bytes(b) + y,
    ensures
        a == b,
        x == y,
{
    let a3 = signed_decimal(a.timestamp) + seq![59u8] + x;
    let b3 = signed_decimal(b.timestamp) + seq![59u8] + y;
    let a2 = signed_decimal(a.amount) + seq![59u8] + a3;
    let b2 = signed_decimal(b.amount) + seq![59u8] + b3;
    let a1 = text_bytes(a.recipient) + a2;
    let b1 = text_bytes(b.recipient) + b2;
    lemma_transaction_then(a, x);
    lemma_transaction_then(b, y);
    lemma_text_field_unique(a.sender, a1, b.sender, b1);
    lemma_text_field_unique(a.recipient, a2, b.recipient, b2);
    lemma_signed_field_unique(a.amount, a3, b.amount, b3);
    lemma_signed_field_unique(a.timestamp, x, b.timestamp, y);
}

/// A sequence of transactions, closed by `]`, can be read back from the front
/// of a byte string in one way only.
pub proof fn lemma_transactions_unique(
    a: Seq<TransactionView>,
    x: Seq<u8>,
    b: Seq<TransactionView>,
    y: Seq<u8>,
)
    requires
        transactions_bytes(a) + seq![93u8] + x == transactions_bytes(b) + seq![93u8] + y,
    ensures
        a == b,
        x == y,
    decreases a.len(),
{
    let l = transactions_bytes(a) + seq![93u8] + x;
    let r = transactions_bytes(b) + seq![93u8] + y;
    if a.len() == 0 && b.len() == 0 {
        assert(x =~= l.skip(1));
        assert(y =~= r.skip(1));
        assert(a =~= b);
    } else if a.len() == 0 {
        lemma_transactions_bytes_front(b);
        assert(l[0] == 93);
        assert(r[0] == transactions_bytes(b)[0]);
        assert(false);
    } else if b.len() == 0 {
        lemma_transactions_bytes_front(a);
        assert(r[0] == 93);
        assert(l[0] == transactions_bytes(a)[0]);
        assert(false);
    } else {
        lemma_transactions_bytes_front(a);
        lemma_transactions_bytes_front(b);
        let ra = transactions_bytes(a.skip(1)) + seq![93u8] + x;
        let rb = transactions_bytes(b.skip(1)) + seq![93u8] + y;
        assert(l =~= transaction_bytes(a[0]) + ra);
        assert(r =~= transaction_bytes(b[0]) + rb);
        lemma_transaction_unique(a[0], ra, b[0], rb);
        lemma_transactions_unique(a.skip(1), x, b.skip(1), y);
        assert(a =~= seq![a[0]] + a.skip(1));
        assert(b =~= seq![b[0]] + b.skip(1));
    }
}

/// Appends the canonical bytes of a text field to `out`.
pub fn push_text(out: &mut Vec<u8>, s: &str)
    ensures
        final(out)@ == old(out)@ + text_bytes(s@),
{
    let mut bytes = s.as_bytes_vec();
    push_decimal(out, bytes.len() as u64);
    out.push(58u8);
    out.append(&mut bytes);
    assert(final(out)@ =~= old(out)@ + text_bytes(s@));
}

impl Transaction {
    /// A transaction stamped with the current time.
    pub fn new(sender: String, recipient: String, amount: i64) -> (t: Self)
        ensures
            t@.sender == sender@,
            t@.recipient == recipient@,
            t@.amount == amount,
    {
        Transaction::with_timestamp(sender, recipient, amount, unix_time_now())
    }

    /// A transaction with the given creation time.
    pub fn with_timestamp(sender: String, recipient: String, amount: i64, timestamp: i64) -> (t:
        Self)
        ensures
            t@ == (TransactionView {
                sender: sender@,
                recipient: recipient@,
                amount: amount as int,
                timestamp: timestamp as int,
            }),
    {
        Transaction { sender, recipient, amount, timestamp }
    }

    /// Appends the canonical bytes of this transaction to `out`.
    pub fn encode(&self, out: &mut Vec<u8>)
        ensures
            final(out)@ == old(out)@ + transaction_bytes(self@),
    {
        push_text(out, self.sender.as_str());
        push_text(out, self.recipient.as_str());
        push_signed_decimal(out, self.amount);
        out.push(59u8);
        push_signed_decimal(out, self.timestamp);
        out.push(59u8);
        assert(final(out)@ =~= old(out)@ + transaction_bytes(self@));
    }
}

} // verus!
