//! A participant: one ledger plus peer ids and the peer-facing acceptance
//! rules.
use vstd::prelude::*;

use crate::block::{Block, BlockView};
use crate::blockchain::{
    chain_view, check_from, fresh_ledger, mine_err, mine_ok, Blockchain, BlockchainError,
    BlockchainView,
};
use crate::hashing::{check_difficulty, digests_equal, meets_difficulty, str_equal};

verus! {

/// The mathematical content of a node.
#[verifier::ext_equal]
pub ghost struct NodeView {
    pub id: Seq<char>,
    pub chain: BlockchainView,
    pub peers: Seq<Seq<char>>,
}

/// Node- and network-level failures.
#[derive(Debug, PartialEq)]
pub enum NodeError {
    InvalidBlockHash,
    NodeNotFound,
    InvalidTransaction,
}

/// One simulated participant: an exclusively owned ledger plus the ids of
/// its direct peers. Peers are held as ids only; the registry resolves them.
#[derive(Debug)]
pub struct Node {
    pub id: String,
    pub blockchain: Blockchain,
    pub peers: Vec<String>,
}

/// The views of a list of ids, in order.
pub open spec fn ids_view(ps: Seq<String>) -> Seq<Seq<char>> {
    Seq::new(ps.len(), |i: int| ps[i]@)
}

impl View for Node {
    type V = NodeView;

    open spec fn view(&self) -> NodeView {
        NodeView { id: self.id@, chain: self.blockchain@, peers: ids_view(self.peers@) }
    }
}

/// How `add_peer` changes a node: the id is appended unless it is already a
/// peer or is the node's own id, so peer lists stay duplicate-free sets
/// without self-loops.
pub open spec fn add_peer_spec(n: NodeView, p: Seq<char>) -> NodeView {
    if n.peers.contains(p) || p == n.id {
        n
    } else {
        NodeView { id: n.id, chain: n.chain, peers: n.peers.push(p) }
    }
}

/// The single-step acceptance rule for an incoming block: it must extend
/// the tip's stored hash at the next index with a stored hash that
/// satisfies the difficulty.
pub open spec fn accepts_block(n: NodeView, b: BlockView) -> bool {
    &&& b.previous_hash == n.chain.blocks.last().hash
    &&& b.index as int == n.chain.blocks.last().index as int + 1
    &&& meets_difficulty(b.hash, n.chain.difficulty as nat)
}

/// The node `n` with `b` appended to its chain.
pub open spec fn with_block(n: NodeView, b: BlockView) -> NodeView {
    NodeView {
        id: n.id,
        chain: BlockchainView {
            blocks: n.chain.blocks.push(b),
            pending: n.chain.pending,
            difficulty: n.chain.difficulty,
        },
        peers: n.peers,
    }
}

impl Node {
    /// Builds a node with a fresh ledger and no peers.
    pub fn new(id: String, difficulty: usize) -> (r: Node)
        ensures
            r@.id == id@,
            fresh_ledger(r@.chain, difficulty),
            r@.peers.len() == 0,
    {
        Node { id, blockchain: Blockchain::new(difficulty), peers: Vec::new() }
    }

    /// Records `peer_id` as a peer unless it is already one or is this
    /// node's own id.
    pub fn add_peer(&mut self, peer_id: String)
        ensures
            final(self)@ == add_peer_spec(old(self)@, peer_id@),
    {
        if str_equal(self.id.as_str(), peer_id.as_str()) {
            return;
        }
        let mut i: usize = 0;
        while i < self.peers.len()
            invariant
                i <= self.peers@.len(),
                forall|j: int| 0 <= j < i ==> ids_view(self.peers@)[j] != peer_id@,
            decreases self.peers@.len() - i,
        {
            if str_equal(self.peers[i].as_str(), peer_id.as_str()) {
                proof {
                    assert(ids_view(self.peers@)[i as int] == peer_id@);
                    assert(ids_view(self.peers@).contains(peer_id@));
                }
                return;
            }
            i = i + 1;
        }
        proof {
            assert(!ids_view(self.peers@).contains(peer_id@));
        }
        let ghost pre = ids_view(self.peers@);
        self.peers.push(peer_id);
        proof {
            assert(ids_view(self.peers@) =~= pre.push(ids_view(self.peers@).last()));
        }
    }

    /// Accepts `block` only as a strict single-step extension of the tip;
    /// anything else fails with `InvalidBlockHash` and leaves the node
    /// untouched. The stored hash is checked against the difficulty but not
    /// against the block's recomputed digest; a node that missed a block
    /// cannot absorb a later one and must receive a whole chain instead.
    pub fn receive_block(&mut self, block: Block) -> (r: Result<(), NodeError>)
        requires
            old(self)@.chain.blocks.len() >= 1,
        ensures
            r is Ok <==> accepts_block(old(self)@, block@),
            r is Ok ==> final(self)@ == with_block(old(self)@, block@),
            r is Err ==> final(self)@ == old(self)@ && r == Err::<(), NodeError>(
                NodeError::InvalidBlockHash,
            ),
    {
        let n = self.blockchain.blocks.len();
        let tip_index = self.blockchain.blocks[n - 1].index;
        let prev_ok = digests_equal(&block.previous_hash, &self.blockchain.blocks[n - 1].hash);
        let index_ok = block.index >= 1 && block.index - 1 == tip_index;
        if prev_ok && index_ok {
            if check_difficulty(&block.hash, self.blockchain.difficulty) {
                let ghost pre = chain_view(self.blockchain.blocks@);
                let ghost bv = block@;
                self.blockchain.blocks.push(block);
                proof {
                    assert(chain_view(self.blockchain.blocks@) =~= pre.push(bv));
                    assert(self@ == with_block(old(self)@, bv));
                }
                return Ok(());
            }
        }
        Err(NodeError::InvalidBlockHash)
    }

    /// Whole-chain replacement: delegates to the ledger's fork-choice rule
    /// and reports whether the candidate was adopted.
    pub fn receive_chain(&mut self, chain: Vec<Block>) -> (r: bool)
        ensures
            final(self)@.id == old(self)@.id,
            final(self)@.peers == old(self)@.peers,
            final(self)@.chain.difficulty == old(self)@.chain.difficulty,
            final(self)@.chain.pending == old(self)@.chain.pending,
            r <==> (chain_view(chain@).len() > old(self)@.chain.blocks.len() && check_from(
                chain_view(chain@),
                1,
            ) is Ok),
            r ==> final(self)@.chain.blocks == chain_view(chain@),
            !r ==> final(self)@.chain.blocks == old(self)@.chain.blocks,
            final(self)@.chain.blocks.len() >= old(self)@.chain.blocks.len(),
    {
        self.blockchain.replace_chain(chain)
    }

    /// Mines locally, propagating the ledger's result.
    pub fn mine_block(&mut self) -> (r: Result<Block, BlockchainError>)
        requires
            old(self)@.chain.blocks.len() >= 1,
        ensures
            final(self)@.id == old(self)@.id,
            final(self)@.peers == old(self)@.peers,
            match r {
                Result::Ok(b) => mine_ok(old(self)@.chain, final(self)@.chain, b@),
                Result::Err(e) => mine_err(old(self)@.chain, final(self)@.chain, e),
            },
    {
        self.blockchain.mine_block()
    }
}

} // verus!
