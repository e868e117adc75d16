//! The ledger: an append-only chain of blocks, a pending-transaction pool,
//! mining, validation, balances, and the fork-choice rule.
use vstd::prelude::*;

use crate::block::{digest_of, with_nonce, Block, BlockView};
use crate::hashing::{
    check_difficulty, digests_equal, make_zero_digest, meets_difficulty, str_equal, zero_digest,
};
use crate::transaction::{clone_transactions, txs_view, Transaction, TransactionView};

verus! {

/// The mathematical content of a ledger.
#[verifier::ext_equal]
pub ghost struct BlockchainView {
    pub blocks: Seq<BlockView>,
    pub pending: Seq<TransactionView>,
    pub difficulty: usize,
}

/// The views of a sequence of blocks, in order.
pub open spec fn chain_view(bs: Seq<Block>) -> Seq<BlockView> {
    Seq::new(bs.len(), |i: int| bs[i]@)
}

/// Ledger-level failures; all are expected, recoverable conditions.
#[derive(Debug, PartialEq)]
pub enum BlockchainError {
    IncorrectProof,
    PreviousHashDoesNotMatch,
    EmptyTransactions,
    InsufficientBalance,
}

/// A proof-of-work ledger: `blocks` (index 0 is the genesis block), the
/// pending pool, and a fixed difficulty. Blocks are appended only by mining
/// and removed only by whole-chain replacement.
#[derive(Debug, PartialEq)]
pub struct Blockchain {
    pub blocks: Vec<Block>,
    pub pending_transactions: Vec<Transaction>,
    pub difficulty: usize,
}

impl View for Blockchain {
    type V = BlockchainView;

    open spec fn view(&self) -> BlockchainView {
        BlockchainView {
            blocks: chain_view(self.blocks@),
            pending: txs_view(self.pending_transactions@),
            difficulty: self.difficulty,
        }
    }
}

/// Clones a block list, keeping the views of its blocks.
pub(crate) fn clone_chain(bs: &Vec<Block>) -> (r: Vec<Block>)
    ensures
        chain_view(r@) == chain_view(bs@),
{
    let r = bs.clone();
    proof {
        assert forall|i: int| 0 <= i < r@.len() implies chain_view(r@)[i] == chain_view(bs@)[i] by {
            assert(r@[i]@ == bs@[i]@);
        }
        assert(chain_view(r@) =~= chain_view(bs@));
    }
    r
}

/// The scan validation performs from pair `i` on; the first failure wins.
/// A block whose `previous_hash` differs from the recomputed digest of its
/// predecessor fails the link check; one whose stored `hash` differs from
/// its own digest fails the proof check. The predecessor's digest is
/// recomputed rather than read from its stored `hash`, so a tampered stored
/// hash earlier in the chain is caught transitively.
pub open spec fn check_from(blocks: Seq<BlockView>, i: int) -> Result<(), BlockchainError>
    decreases blocks.len() - i,
{
    if i >= blocks.len() {
        Ok(())
    } else if blocks[i].previous_hash != digest_of(blocks[i - 1]) {
        Err(BlockchainError::PreviousHashDoesNotMatch)
    } else if blocks[i].hash != digest_of(blocks[i]) {
        Err(BlockchainError::IncorrectProof)
    } else {
        check_from(blocks, i + 1)
    }
}

/// Every non-genesis block's `previous_hash` is the digest of its
/// predecessor.
pub open spec fn links_ok(blocks: Seq<BlockView>) -> bool {
    forall|i: int| 1 <= i < blocks.len() ==> blocks[i].previous_hash == digest_of(blocks[i - 1])
}

/// Every non-genesis block's stored `hash` is its own digest.
pub open spec fn proofs_ok(blocks: Seq<BlockView>) -> bool {
    forall|i: int| 1 <= i < blocks.len() ==> blocks[i].hash == digest_of(blocks[i])
}

proof fn lemma_check_from_iff(blocks: Seq<BlockView>, i: int)
    requires
        1 <= i,
    ensures
        (check_from(blocks, i) is Ok) <==> (forall|j: int|
            i <= j < blocks.len() ==> blocks[j].previous_hash == digest_of(blocks[j - 1])
                && blocks[j].hash == digest_of(blocks[j])),
    decreases blocks.len() - i,
{
    if i < blocks.len() {
        lemma_check_from_iff(blocks, i + 1);
    }
}

/// Law: validation succeeds on exactly the chains whose links and proofs
/// all hold.
pub proof fn lemma_validate_ok_iff(blocks: Seq<BlockView>)
    ensures
        (check_from(blocks, 1) is Ok) <==> (links_ok(blocks) && proofs_ok(blocks)),
{
    lemma_check_from_iff(blocks, 1);
}

/// Law: in a chain that validates, every block past the genesis carries the
/// recomputed digest of its predecessor as its `previous_hash`.
pub proof fn lemma_valid_chain_links(blocks: Seq<BlockView>)
    requires
        check_from(blocks, 1) is Ok,
    ensures
        forall|i: int|
            1 <= i < blocks.len() ==> blocks[i].previous_hash == digest_of(blocks[i - 1]),
{
    lemma_check_from_iff(blocks, 1);
}

/// The ledger invariant a chain built only by mining satisfies: nonempty,
/// a genesis that links to the zero digest and stores its own digest,
/// consecutive indices, correct links and proofs, and proof-of-work on
/// every mined block.
pub open spec fn chain_wf(blocks: Seq<BlockView>, difficulty: usize) -> bool {
    &&& blocks.len() >= 1
    &&& blocks[0].previous_hash == zero_digest()
    &&& blocks[0].hash == digest_of(blocks[0])
    &&& (forall|i: int| 0 <= i < blocks.len() ==> blocks[i].index as int == i)
    &&& links_ok(blocks)
    &&& proofs_ok(blocks)
    &&& (forall|i: int|
        1 <= i < blocks.len() ==> meets_difficulty(blocks[i].hash, difficulty as nat))
}

/// Law: a well-formed chain passes validation.
pub proof fn lemma_wf_validates(blocks: Seq<BlockView>, difficulty: usize)
    requires
        chain_wf(blocks, difficulty),
    ensures
        check_from(blocks, 1) is Ok,
{
    lemma_validate_ok_iff(blocks);
}

/// Law: appending a mined block preserves the ledger invariant. The block
/// must extend the stored tip hash, store its own digest, carry the next
/// index, and satisfy the difficulty.
pub proof fn lemma_mining_preserves_wf(blocks: Seq<BlockView>, b: BlockView, difficulty: usize)
    requires
        chain_wf(blocks, difficulty),
        b.previous_hash == blocks.last().hash,
        b.hash == digest_of(b),
        b.index as int == blocks.len(),
        meets_difficulty(b.hash, difficulty as nat),
    ensures
        chain_wf(blocks.push(b), difficulty),
{
    let ext = blocks.push(b);
    let n = blocks.len() as int;
    assert(blocks.last().hash == digest_of(blocks[n - 1]));
    assert forall|i: int| 1 <= i < ext.len() implies ext[i].previous_hash == digest_of(
        ext[i - 1],
    ) && ext[i].hash == digest_of(ext[i]) && meets_difficulty(ext[i].hash, difficulty as nat) by {
        if i < n {
            assert(ext[i] == blocks[i]);
            assert(ext[i - 1] == blocks[i - 1]);
        } else {
            assert(ext[i] == b);
            assert(ext[i - 1] == blocks[n - 1]);
        }
    }
}

/// What `t` pays to `addr`: its amount when `addr` is the receiver, else 0.
pub open spec fn tx_received(t: TransactionView, addr: Seq<char>) -> int {
    if t.receiver == addr {
        t.amount as int
    } else {
        0
    }
}

/// What `t` takes from `addr`: its amount when `addr` is the sender, else 0.
pub open spec fn tx_sent(t: TransactionView, addr: Seq<char>) -> int {
    if t.sender == addr {
        t.amount as int
    } else {
        0
    }
}

/// The sum received by `addr` over a transaction sequence.
pub open spec fn txs_received(ts: Seq<TransactionView>, addr: Seq<char>) -> int
    decreases ts.len(),
{
    if ts.len() == 0 {
        0
    } else {
        txs_received(ts.drop_last(), addr) + tx_received(ts.last(), addr)
    }
}

/// The sum sent by `addr` over a transaction sequence.
pub open spec fn txs_sent(ts: Seq<TransactionView>, addr: Seq<char>) -> int
    decreases ts.len(),
{
    if ts.len() == 0 {
        0
    } else {
        txs_sent(ts.drop_last(), addr) + tx_sent(ts.last(), addr)
    }
}

/// The sum received by `addr` over every committed block.
pub open spec fn chain_received(bs: Seq<BlockView>, addr: Seq<char>) -> int
    decreases bs.len(),
{
    if bs.len() == 0 {
        0
    } else {
        chain_received(bs.drop_last(), addr) + txs_received(bs.last().transactions, addr)
    }
}

/// The sum sent by `addr` over every committed block.
pub open spec fn chain_sent(bs: Seq<BlockView>, addr: Seq<char>) -> int
    decreases bs.len(),
{
    if bs.len() == 0 {
        0
    } else {
        chain_sent(bs.drop_last(), addr) + txs_sent(bs.last().transactions, addr)
    }
}

/// The exact balance of `addr`: a flat initial grant of 100 units, plus
/// everything received minus everything sent over the committed chain. The
/// pending pool plays no part.
pub open spec fn spec_balance(bs: Seq<BlockView>, addr: Seq<char>) -> int {
    100 + chain_received(bs, addr) - chain_sent(bs, addr)
}

/// `x` capped at `i128::MAX`.
pub open spec fn cap_hi(x: int) -> int {
    if x > i128::MAX {
        i128::MAX as int
    } else {
        x
    }
}

/// What the executable balance computes: the received and sent sums each
/// saturate at `i128::MAX`, and so does the final addition of the grant.
/// Equal to `spec_balance` whenever nothing saturates.
pub open spec fn clamped_balance(bs: Seq<BlockView>, addr: Seq<char>) -> int {
    cap_hi(100 + cap_hi(chain_received(bs, addr)) - cap_hi(chain_sent(bs, addr)))
}

proof fn lemma_txs_sums_nonneg(ts: Seq<TransactionView>, addr: Seq<char>)
    ensures
        txs_received(ts, addr) >= 0,
        txs_sent(ts, addr) >= 0,
    decreases ts.len(),
{
    if ts.len() > 0 {
        lemma_txs_sums_nonneg(ts.drop_last(), addr);
    }
}

proof fn lemma_chain_sums_nonneg(bs: Seq<BlockView>, addr: Seq<char>)
    ensures
        chain_received(bs, addr) >= 0,
        chain_sent(bs, addr) >= 0,
    decreases bs.len(),
{
    if bs.len() > 0 {
        lemma_chain_sums_nonneg(bs.drop_last(), addr);
        lemma_txs_sums_nonneg(bs.last().transactions, addr);
    }
}

proof fn lemma_untouched_txs(ts: Seq<TransactionView>, addr: Seq<char>)
    requires
        forall|j: int| 0 <= j < ts.len() ==> ts[j].sender != addr && ts[j].receiver != addr,
    ensures
        txs_received(ts, addr) == 0,
        txs_sent(ts, addr) == 0,
    decreases ts.len(),
{
    if ts.len() > 0 {
        lemma_untouched_txs(ts.drop_last(), addr);
    }
}

/// Law: an address that no committed transaction names, as sender or as
/// receiver, has exactly the initial grant of 100 as its balance.
pub proof fn lemma_untouched_address_balance(bs: Seq<BlockView>, addr: Seq<char>)
    requires
        forall|i: int, j: int|
            0 <= i < bs.len() && 0 <= j < bs[i].transactions.len() ==> bs[i].transactions[j].sender
                != addr && bs[i].transactions[j].receiver != addr,
    ensures
        spec_balance(bs, addr) == 100,
        clamped_balance(bs, addr) == 100,
    decreases bs.len(),
{
    if bs.len() > 0 {
        assert forall|i: int, j: int|
            0 <= i < bs.drop_last().len() && 0 <= j
                < bs.drop_last()[i].transactions.len() implies bs.drop_last()[i].transactions[j].sender
            != addr && bs.drop_last()[i].transactions[j].receiver != addr by {
            assert(bs.drop_last()[i] == bs[i]);
        }
        lemma_untouched_address_balance(bs.drop_last(), addr);
        assert forall|j: int| 0 <= j < bs.last().transactions.len() implies bs.last().transactions[j].sender
            != addr && bs.last().transactions[j].receiver != addr by {
            assert(bs.last() == bs[bs.len() - 1]);
        }
        lemma_untouched_txs(bs.last().transactions, addr);
    }
}

proof fn lemma_txs_sums_push(ts: Seq<TransactionView>, t: TransactionView, addr: Seq<char>)
    ensures
        txs_received(ts.push(t), addr) == txs_received(ts, addr) + tx_received(t, addr),
        txs_sent(ts.push(t), addr) == txs_sent(ts, addr) + tx_sent(t, addr),
{
    assert(ts.push(t).drop_last() =~= ts);
    assert(ts.push(t).last() == t);
}

proof fn lemma_chain_sums_push(bs: Seq<BlockView>, b: BlockView, addr: Seq<char>)
    ensures
        chain_received(bs.push(b), addr) == chain_received(bs, addr) + txs_received(
            b.transactions,
            addr,
        ),
        chain_sent(bs.push(b), addr) == chain_sent(bs, addr) + txs_sent(b.transactions, addr),
{
    assert(bs.push(b).drop_last() =~= bs);
    assert(bs.push(b).last() == b);
}

/// Adds an amount to a nonnegative accumulator, saturating at `i128::MAX`.
fn sat_add_amount(acc: i128, amount: u64) -> (r: i128)
    requires
        0 <= acc,
    ensures
        r as int == cap_hi(acc as int + amount as int),
        0 <= r,
{
    if acc > i128::MAX - (amount as i128) {
        i128::MAX
    } else {
        acc + (amount as i128)
    }
}

/// A freshly constructed ledger: a single self-consistent genesis block, an
/// empty pool, and the given difficulty.
pub open spec fn fresh_ledger(v: BlockchainView, difficulty: usize) -> bool {
    &&& v.blocks.len() == 1
    &&& v.blocks[0].index == 0
    &&& v.blocks[0].previous_hash == zero_digest()
    &&& v.blocks[0].hash == digest_of(v.blocks[0])
    &&& v.blocks[0].nonce == 0
    &&& v.blocks[0].transactions.len() == 0
    &&& v.pending.len() == 0
    &&& v.difficulty == difficulty
}

/// The transition `mine_block` makes on success: the pool was nonempty; the
/// mined block snapshots it, extends the stored tip hash at the next index,
/// stores its own digest, and meets the difficulty; the chain gains exactly
/// that block and the pool empties. The nonce is the least one whose digest
/// satisfies the difficulty — the search is pure brute force from zero, so
/// given equal ledger state and an equal timestamp the mined block is fully
/// determined.
pub open spec fn mine_ok(pre: BlockchainView, post: BlockchainView, b: BlockView) -> bool {
    &&& pre.pending.len() > 0
    &&& b.index as int == pre.blocks.len()
    &&& b.previous_hash == pre.blocks.last().hash
    &&& b.transactions == pre.pending
    &&& b.hash == digest_of(b)
    &&& meets_difficulty(b.hash, pre.difficulty as nat)
    &&& (forall|n: u64|
        n < b.nonce ==> !meets_difficulty(digest_of(with_nonce(b, n)), pre.difficulty as nat))
    &&& post.blocks == pre.blocks.push(b)
    &&& post.pending.len() == 0
    &&& post.difficulty == pre.difficulty
}

/// No nonce at all makes this candidate meet the difficulty: the search
/// space of mining is exhausted for it.
pub open spec fn search_exhausted(b: BlockView, difficulty: usize) -> bool {
    forall|n: u64| !meets_difficulty(digest_of(with_nonce(b, n)), difficulty as nat)
}

/// The transition `mine_block` makes on failure: the ledger is unchanged;
/// an empty pool is reported as `EmptyTransactions`, and a nonce search
/// that exhausted the whole 64-bit space without a satisfying digest — out
/// of reach for any realistic difficulty — as `IncorrectProof`. The latter
/// can only happen when no nonce whatever would have satisfied the
/// difficulty for the candidate that was searched.
pub open spec fn mine_err(pre: BlockchainView, post: BlockchainView, e: BlockchainError) -> bool {
    &&& post == pre
    &&& (e == BlockchainError::EmptyTransactions <==> pre.pending.len() == 0)
    &&& (e == BlockchainError::EmptyTransactions || e == BlockchainError::IncorrectProof)
    &&& (e == BlockchainError::IncorrectProof ==> exists|b: BlockView|
        {
            &&& #[trigger] search_exhausted(b, pre.difficulty)
            &&& b.index as int == pre.blocks.len()
            &&& b.previous_hash == pre.blocks.last().hash
            &&& b.transactions == pre.pending
        })
}

impl Blockchain {
    /// Builds a ledger holding only a genesis block. The genesis block links
    /// to the zero digest and stores its own digest, so that validation,
    /// which recomputes each predecessor's digest, accepts chains mined on
    /// top of it.
    pub fn new(difficulty: usize) -> (r: Blockchain)
        ensures
            fresh_ledger(r@, difficulty),
            chain_wf(r@.blocks, difficulty),
    {
        let mut genesis = Block::new(0, make_zero_digest(), Vec::new());
        let ghost g0 = genesis@;
        let gh = genesis.hash();
        genesis.hash = gh;
        proof {
            assert(genesis@ == BlockView { hash: genesis@.hash, ..g0 });
            assert(crate::block::digest_input(genesis@) == crate::block::digest_input(g0));
            assert(txs_view(Seq::<Transaction>::empty()).len() == 0);
        }
        let mut blocks: Vec<Block> = Vec::new();
        blocks.push(genesis);
        let r = Blockchain { blocks, pending_transactions: Vec::new(), difficulty };
        proof {
            assert(r@.blocks =~= seq![genesis@]);
            assert(r@.pending =~= Seq::<TransactionView>::empty());
        }
        r
    }

    /// Computes the balance of `address`: the flat grant of 100 plus amounts
    /// received minus amounts sent over every committed transaction, each
    /// running sum saturating at `i128::MAX`. Pending transactions are not
    /// consulted.
    pub fn get_balance(&self, address: &str) -> (r: i128)
        ensures
            r as int == clamped_balance(self@.blocks, address@),
            (chain_received(self@.blocks, address@) <= i128::MAX && chain_sent(
                self@.blocks,
                address@,
            ) <= i128::MAX && 100 + chain_received(self@.blocks, address@) - chain_sent(
                self@.blocks,
                address@,
            ) <= i128::MAX) ==> r as int == spec_balance(self@.blocks, address@),
    {
        let ghost cv = chain_view(self.blocks@);
        let mut received: i128 = 0;
        let mut sent: i128 = 0;
        let mut i: usize = 0;
        while i < self.blocks.len()
            invariant
                i <= self.blocks@.len(),
                received as int == cap_hi(chain_received(cv.subrange(0, i as int), address@)),
                sent as int == cap_hi(chain_sent(cv.subrange(0, i as int), address@)),
                0 <= received,
                0 <= sent,
            decreases self.blocks@.len() - i,
        {
            let ghost pre = cv.subrange(0, i as int);
            let block = &self.blocks[i];
            let ghost ts = block@.transactions;
            let mut k: usize = 0;
            while k < block.transactions.len()
                invariant
                    k <= ts.len(),
                    ts == txs_view(block.transactions@),
                    received as int == cap_hi(
                        chain_received(pre, address@) + txs_received(
                            ts.subrange(0, k as int),
                            address@,
                        ),
                    ),
                    sent as int == cap_hi(
                        chain_sent(pre, address@) + txs_sent(ts.subrange(0, k as int), address@),
                    ),
                    0 <= received,
                    0 <= sent,
                decreases ts.len() - k,
            {
                proof {
                    lemma_chain_sums_nonneg(pre, address@);
                    lemma_txs_sums_nonneg(ts.subrange(0, k as int), address@);
                    assert(ts.subrange(0, k + 1) =~= ts.subrange(0, k as int).push(ts[k as int]));
                    lemma_txs_sums_push(ts.subrange(0, k as int), ts[k as int], address@);
                }
                let t = &block.transactions[k];
                if str_equal(t.receiver.as_str(), address) {
                    received = sat_add_amount(received, t.amount);
                } else {
                    proof {
                        assert(tx_received(ts[k as int], address@) == 0);
                    }
                }
                if str_equal(t.sender.as_str(), address) {
                    sent = sat_add_amount(sent, t.amount);
                } else {
                    proof {
                        assert(tx_sent(ts[k as int], address@) == 0);
                    }
                }
                k = k + 1;
            }
            proof {
                assert(ts.subrange(0, ts.len() as int) =~= ts);
                assert(cv.subrange(0, i + 1) =~= pre.push(cv[i as int]));
                lemma_chain_sums_push(pre, cv[i as int], address@);
            }
            i = i + 1;
        }
        proof {
            assert(cv.subrange(0, cv.len() as int) =~= cv);
            lemma_chain_sums_nonneg(cv, address@);
        }
        let d: i128 = received - sent;
        if d > i128::MAX - 100 {
            i128::MAX
        } else {
            d + 100
        }
    }

    /// Admits `transaction` to the pending pool when its sender's committed
    /// balance covers the amount, and rejects it with `InsufficientBalance`
    /// otherwise. Only the committed chain is consulted: pending
    /// transactions from the same sender do not reduce the balance seen
    /// here.
    pub fn add_transaction(&mut self, transaction: Transaction) -> (r: Result<
        (),
        BlockchainError,
    >)
        ensures
            final(self)@.blocks == old(self)@.blocks,
            final(self)@.difficulty == old(self)@.difficulty,
            r is Ok <==> clamped_balance(old(self)@.blocks, transaction@.sender)
                >= transaction@.amount,
            r is Ok ==> final(self)@.pending == old(self)@.pending.push(transaction@),
            r is Err ==> final(self)@.pending == old(self)@.pending && r == Err::<
                (),
                BlockchainError,
            >(BlockchainError::InsufficientBalance),
    {
        let sender_balance = self.get_balance(transaction.sender.as_str());
        if sender_balance < transaction.amount as i128 {
            return Err(BlockchainError::InsufficientBalance);
        }
        let ghost pre = txs_view(self.pending_transactions@);
        self.pending_transactions.push(transaction);
        proof {
            assert(txs_view(self.pending_transactions@) =~= pre.push(
                txs_view(self.pending_transactions@).last(),
            ));
        }
        Ok(())
    }

    /// Mines the pending pool into a new block: snapshots the pool behind
    /// the current tip at the next index, searches nonces upward from zero
    /// until the digest satisfies the difficulty, then appends the block and
    /// clears the pool. Fails with `EmptyTransactions` on an empty pool, and
    /// with `IncorrectProof` in the cryptographically unreachable case that
    /// no 64-bit nonce yields a satisfying digest.
    pub fn mine_block(&mut self) -> (r: Result<Block, BlockchainError>)
        requires
            old(self)@.blocks.len() >= 1,
        ensures
            match r {
                Result::Ok(b) => mine_ok(old(self)@, final(self)@, b@),
                Result::Err(e) => mine_err(old(self)@, final(self)@, e),
            },
            chain_wf(old(self)@.blocks, old(self)@.difficulty) ==> chain_wf(
                final(self)@.blocks,
                final(self)@.difficulty,
            ),
    {
        if self.pending_transactions.len() == 0 {
            proof {
                assert(txs_view(self.pending_transactions@).len() == 0);
            }
            return Err(BlockchainError::EmptyTransactions);
        }
        let len = self.blocks.len();
        let last_hash: [u8; 32] = self.blocks[len - 1].hash;
        proof {
            assert(last_hash@ == old(self)@.blocks.last().hash);
        }
        let txs = clone_transactions(&self.pending_transactions);
        let mut new_block = Block::new(len as u64, last_hash, txs);
        let d = self.difficulty;
        let ghost b0 = new_block@;
        let mut h = new_block.hash();
        while !check_difficulty(&h, d)
            invariant
                h@ == digest_of(new_block@),
                new_block@ == with_nonce(b0, new_block@.nonce),
                forall|n: u64|
                    n < new_block@.nonce ==> !meets_difficulty(
                        digest_of(with_nonce(b0, n)),
                        d as nat,
                    ),
            decreases u64::MAX - new_block.nonce,
        {
            if new_block.nonce == u64::MAX {
                proof {
                    assert forall|n: u64| !meets_difficulty(
                        digest_of(with_nonce(b0, n)),
                        d as nat,
                    ) by {
                        if n == u64::MAX {
                            assert(with_nonce(b0, n) == new_block@);
                        }
                    }
                    assert(search_exhausted(b0, old(self)@.difficulty));
                    assert(b0.index as int == old(self)@.blocks.len());
                    assert(b0.previous_hash == old(self)@.blocks.last().hash);
                    assert(b0.transactions == old(self)@.pending);
                }
                return Err(BlockchainError::IncorrectProof);
            }
            new_block.nonce = new_block.nonce + 1;
            h = new_block.hash();
        }
        let ghost searched = new_block@;
        new_block.hash = h;
        proof {
            assert(crate::block::digest_input(new_block@) == crate::block::digest_input(searched));
            assert(new_block@.hash == digest_of(new_block@));
        }
        let mined = new_block.clone();
        let ghost pre_blocks = chain_view(self.blocks@);
        self.blocks.push(new_block);
        self.pending_transactions.clear();
        proof {
            assert forall|n: u64| n < mined@.nonce implies !meets_difficulty(
                digest_of(with_nonce(mined@, n)),
                old(self)@.difficulty as nat,
            ) by {
                assert(crate::block::digest_input(with_nonce(mined@, n))
                    == crate::block::digest_input(with_nonce(b0, n)));
            }
            assert(chain_view(self.blocks@) =~= pre_blocks.push(mined@));
            assert(txs_view(self.pending_transactions@).len() == 0);
            if chain_wf(old(self)@.blocks, old(self)@.difficulty) {
                lemma_mining_preserves_wf(old(self)@.blocks, mined@, old(self)@.difficulty);
            }
        }
        Ok(mined)
    }

    /// Validates the chain pair by pair, recomputing digests; returns the
    /// first failure, `PreviousHashDoesNotMatch` before `IncorrectProof` at
    /// any one pair. A well-formed (purely mined) chain always passes.
    pub fn validate_chain(&self) -> (r: Result<(), BlockchainError>)
        ensures
            r == check_from(self@.blocks, 1),
            r is Ok <==> links_ok(self@.blocks) && proofs_ok(self@.blocks),
            chain_wf(self@.blocks, self@.difficulty) ==> r is Ok,
    {
        proof {
            lemma_validate_ok_iff(self@.blocks);
            if chain_wf(self@.blocks, self@.difficulty) {
                lemma_wf_validates(self@.blocks, self@.difficulty);
            }
        }
        validate_blocks(&self.blocks)
    }

    /// The fork-choice rule: adopts `chain` only when it is strictly longer
    /// than the current chain and internally valid; ties, shorter chains,
    /// and invalid chains are rejected and leave the ledger untouched. The
    /// chain never shrinks.
    pub fn replace_chain(&mut self, chain: Vec<Block>) -> (r: bool)
        ensures
            final(self)@.difficulty == old(self)@.difficulty,
            final(self)@.pending == old(self)@.pending,
            r <==> (chain_view(chain@).len() > old(self)@.blocks.len() && check_from(
                chain_view(chain@),
                1,
            ) is Ok),
            r ==> final(self)@.blocks == chain_view(chain@),
            !r ==> final(self)@.blocks == old(self)@.blocks,
            final(self)@.blocks.len() >= old(self)@.blocks.len(),
    {
        if chain.len() <= self.blocks.len() {
            return false;
        }
        match validate_blocks(&chain) {
            Result::Ok(()) => {
                self.blocks = chain;
                true
            },
            Result::Err(_) => false,
        }
    }
}

/// Runs the validation scan over a block list.
fn validate_blocks(blocks: &Vec<Block>) -> (r: Result<(), BlockchainError>)
    ensures
        r == check_from(chain_view(blocks@), 1),
{
    let ghost cv = chain_view(blocks@);
    let mut i: usize = 1;
    while i < blocks.len()
        invariant
            1 <= i,
            blocks@.len() >= 1 ==> i <= blocks@.len(),
            check_from(cv, 1) == check_from(cv, i as int),
        decreases blocks@.len() - i,
    {
        let prev_digest = blocks[i - 1].hash();
        if !digests_equal(&blocks[i].previous_hash, &prev_digest) {
            proof {
                assert(cv[i as int].previous_hash != digest_of(cv[i as int - 1]));
            }
            return Err(BlockchainError::PreviousHashDoesNotMatch);
        }
        let cur_digest = blocks[i].hash();
        if !digests_equal(&blocks[i].hash, &cur_digest) {
            return Err(BlockchainError::IncorrectProof);
        }
        proof {
            assert(check_from(cv, i as int) == check_from(cv, i as int + 1));
        }
        i = i + 1;
    }
    Ok(())
}

} // verus!
