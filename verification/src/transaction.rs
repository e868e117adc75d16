//! Transfer intents.
use vstd::prelude::*;

use crate::clock::now_timestamp;

verus! {

/// The mathematical content of a transaction.
#[verifier::ext_equal]
pub ghost struct TransactionView {
    pub sender: Seq<char>,
    pub receiver: Seq<char>,
    pub amount: u64,
    pub timestamp: u64,
}

/// A transfer intent: `amount` units from `sender` to `receiver`, stamped
/// with its creation time. Senders are unauthenticated names; a transaction
/// is never validated beyond the balance check at admission.
#[derive(Debug, PartialEq)]
pub struct Transaction {
    pub sender: String,
    pub receiver: String,
    pub amount: u64,
    pub timestamp: u64,
}

impl View for Transaction {
    type V = TransactionView;

    open spec fn view(&self) -> TransactionView {
        TransactionView {
            sender: self.sender@,
            receiver: self.receiver@,
            amount: self.amount,
            timestamp: self.timestamp,
        }
    }
}

impl Clone for Transaction {
    fn clone(&self) -> (r: Self)
        ensures
            r == *self,
    {
        Transaction {
            sender: self.sender.clone(),
            receiver: self.receiver.clone(),
            amount: self.amount,
            timestamp: self.timestamp,
        }
    }
}

/// The views of a sequence of transactions, in order.
pub open spec fn txs_view(ts: Seq<Transaction>) -> Seq<TransactionView> {
    Seq::new(ts.len(), |i: int| ts[i]@)
}

/// Clones a transaction list; the copy is equal to the original.
pub(crate) fn clone_transactions(ts: &Vec<Transaction>) -> (r: Vec<Transaction>)
    ensures
        r@ == ts@,
{
    let r = ts.clone();
    proof {
        assert forall|i: int| 0 <= i < r@.len() implies r@[i] == ts@[i] by {}
        assert(r@ =~= ts@);
    }
    r
}

impl Transaction {
    /// Builds a transfer intent stamped with the current time.
    pub fn new(sender: String, receiver: String, amount: u64) -> (r: Transaction)
        ensures
            r@.sender == sender@,
            r@.receiver == receiver@,
            r@.amount == amount,
    {
        Transaction { sender, receiver, amount, timestamp: now_timestamp() }
    }
}

} // verus!
