//! Blocks and their digests.
use vstd::prelude::*;
use vstd::utf8::encode_utf8;

use crate::clock::now_timestamp;
use crate::hashing::{
    append_bytes, dec_digits, make_zero_digest, push_decimal, sha256, sha256_of, zero_digest,
};
use crate::transaction::{txs_view, Transaction, TransactionView};

verus! {

/// The mathematical content of a block.
#[verifier::ext_equal]
pub ghost struct BlockView {
    pub index: u64,
    pub previous_hash: Seq<u8>,
    pub hash: Seq<u8>,
    pub nonce: u64,
    pub transactions: Seq<TransactionView>,
    pub timestamp: u64,
}

/// A container of transactions with a content digest. A block is built with
/// a zero `hash` and nonce 0, mutated only while it is mined (the nonce
/// search and the final hash assignment), and treated as immutable once it
/// sits in a chain.
#[derive(Debug, PartialEq)]
pub struct Block {
    pub index: u64,
    pub previous_hash: [u8; 32],
    pub hash: [u8; 32],
    pub nonce: u64,
    pub transactions: Vec<Transaction>,
    pub timestamp: u64,
}

impl View for Block {
    type V = BlockView;

    open spec fn view(&self) -> BlockView {
        BlockView {
            index: self.index,
            previous_hash: self.previous_hash@,
            hash: self.hash@,
            nonce: self.nonce,
            transactions: txs_view(self.transactions@),
            timestamp: self.timestamp,
        }
    }
}

impl Clone for Block {
    fn clone(&self) -> (r: Self)
        ensures
            r@ == self@,
    {
        let transactions = self.transactions.clone();
        proof {
            assert forall|i: int| 0 <= i < transactions@.len() implies transactions@[i]
                == self.transactions@[i] by {}
            assert(transactions@ =~= self.transactions@);
        }
        Block {
            index: self.index,
            previous_hash: self.previous_hash,
            hash: self.hash,
            nonce: self.nonce,
            transactions,
            timestamp: self.timestamp,
        }
    }
}

/// The canonical line a transaction contributes to a digest:
/// `"<sender> -> <receiver> : <amount> on <timestamp>"`, UTF-8 encoded.
pub open spec fn tx_line(t: TransactionView) -> Seq<u8> {
    encode_utf8(t.sender) + encode_utf8(" -> "@) + encode_utf8(t.receiver) + encode_utf8(" : "@)
        + dec_digits(t.amount as nat) + encode_utf8(" on "@) + dec_digits(t.timestamp as nat)
}

/// The transaction lines of a block, concatenated in order. The order is
/// part of the block's identity: reordering changes the digest.
pub open spec fn tx_lines(ts: Seq<TransactionView>) -> Seq<u8>
    decreases ts.len(),
{
    if ts.len() == 0 {
        Seq::empty()
    } else {
        tx_lines(ts.drop_last()) + tx_line(ts.last())
    }
}

/// The bytes a block's digest is computed over: the previous hash, the
/// decimal nonce, the decimal timestamp, then the transaction lines.
pub open spec fn digest_input(b: BlockView) -> Seq<u8> {
    b.previous_hash + dec_digits(b.nonce as nat) + dec_digits(b.timestamp as nat) + tx_lines(
        b.transactions,
    )
}

/// The digest of a block: SHA-256 over its canonical bytes. The stored
/// `hash` field does not enter its own digest.
pub open spec fn digest_of(b: BlockView) -> Seq<u8> {
    sha256_of(digest_input(b))
}

/// The candidate `b` with its nonce replaced: the search variable of
/// mining.
pub open spec fn with_nonce(b: BlockView, n: u64) -> BlockView {
    BlockView {
        index: b.index,
        previous_hash: b.previous_hash,
        hash: b.hash,
        nonce: n,
        transactions: b.transactions,
        timestamp: b.timestamp,
    }
}

/// Appending a transaction appends its line to the digest input.
proof fn lemma_tx_lines_push(ts: Seq<TransactionView>, t: TransactionView)
    ensures
        tx_lines(ts.push(t)) == tx_lines(ts) + tx_line(t),
{
    assert(ts.push(t).drop_last() =~= ts);
    assert(ts.push(t).last() == t);
}

impl Block {
    /// Builds a block with nonce 0 and the zero hash, stamped with the
    /// current time.
    pub fn new(index: u64, previous_hash: [u8; 32], transactions: Vec<Transaction>) -> (r: Block)
        ensures
            r@.index == index,
            r@.previous_hash == previous_hash@,
            r@.hash == zero_digest(),
            r@.nonce == 0,
            r@.transactions == txs_view(transactions@),
    {
        Block {
            index,
            previous_hash,
            hash: make_zero_digest(),
            nonce: 0,
            transactions,
            timestamp: now_timestamp(),
        }
    }

    /// Computes the block's digest; deterministic in (previous_hash, nonce,
    /// timestamp, transactions).
    pub fn hash(&self) -> (r: [u8; 32])
        ensures
            r@ == digest_of(self@),
    {
        let mut input: Vec<u8> = Vec::new();
        append_bytes(&mut input, self.previous_hash.as_slice());
        push_decimal(&mut input, self.nonce);
        push_decimal(&mut input, self.timestamp);
        let ghost head: Seq<u8> = input@;
        let mut k: usize = 0;
        while k < self.transactions.len()
            invariant
                k <= self.transactions@.len(),
                input@ == head + tx_lines(txs_view(self.transactions@).subrange(0, k as int)),
            decreases self.transactions@.len() - k,
        {
            let ghost before: Seq<u8> = input@;
            let t = &self.transactions[k];
            append_bytes(&mut input, t.sender.as_str().as_bytes());
            append_bytes(&mut input, " -> ".as_bytes());
            append_bytes(&mut input, t.receiver.as_str().as_bytes());
            append_bytes(&mut input, " : ".as_bytes());
            push_decimal(&mut input, t.amount);
            append_bytes(&mut input, " on ".as_bytes());
            push_decimal(&mut input, t.timestamp);
            proof {
                let tv = txs_view(self.transactions@);
                assert(input@ =~= before + tx_line(tv[k as int]));
                assert(tv.subrange(0, k + 1) =~= tv.subrange(0, k as int).push(tv[k as int]));
                lemma_tx_lines_push(tv.subrange(0, k as int), tv[k as int]);
                assert(input@ =~= head + tx_lines(tv.subrange(0, k + 1)));
            }
            k = k + 1;
        }
        proof {
            let tv = txs_view(self.transactions@);
            assert(tv.subrange(0, tv.len() as int) =~= tv);
            assert(input@ =~= digest_input(self@));
        }
        sha256(&input)
    }
}

} // verus!
