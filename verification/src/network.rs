//! The registry of nodes and single-hop gossip across peer edges.
//!
//! The registry here is a plain value with sequential operations; the
//! decisions a broadcast makes at each peer are the node-level acceptance
//! rules. Concurrent drivers wrap a `Network` in a lock of their own.
use vstd::prelude::*;

use crate::block::{Block, BlockView};
use crate::blockchain::{
    chain_view, check_from, clamped_balance, clone_chain, fresh_ledger, BlockchainView,
};
use crate::node::{accepts_block, add_peer_spec, ids_view, with_block, Node, NodeError, NodeView};
use crate::hashing::str_equal;
use crate::transaction::Transaction;

verus! {

/// A registry mapping node ids to nodes; the single source of truth for the
/// peer graph. Nodes hold only ids of each other.
#[derive(Debug)]
pub struct Network {
    pub nodes: Vec<Node>,
}

/// The views of a list of nodes, in order.
pub open spec fn nodes_view(ns: Seq<Node>) -> Seq<NodeView> {
    Seq::new(ns.len(), |i: int| ns[i]@)
}

impl View for Network {
    type V = Seq<NodeView>;

    open spec fn view(&self) -> Seq<NodeView> {
        nodes_view(self.nodes@)
    }
}

/// The index at which `id` first occurs, scanning from `k`.
pub open spec fn find_id_from(nodes: Seq<NodeView>, id: Seq<char>, k: int) -> Option<int>
    decreases nodes.len() - k,
{
    if k < 0 || k >= nodes.len() {
        None
    } else if nodes[k].id == id {
        Some(k)
    } else {
        find_id_from(nodes, id, k + 1)
    }
}

/// The index of the node registered under `id`, if any.
pub open spec fn find_id(nodes: Seq<NodeView>, id: Seq<char>) -> Option<int> {
    find_id_from(nodes, id, 0)
}

/// What a successful or failed lookup says about the registry.
pub proof fn lemma_find_id(nodes: Seq<NodeView>, id: Seq<char>)
    ensures
        match find_id(nodes, id) {
            Some(i) => 0 <= i < nodes.len() && nodes[i].id == id,
            None => forall|j: int| 0 <= j < nodes.len() ==> nodes[j].id != id,
        },
{
    lemma_find_id_from(nodes, id, 0);
}

proof fn lemma_find_id_from(nodes: Seq<NodeView>, id: Seq<char>, k: int)
    requires
        0 <= k,
    ensures
        match find_id_from(nodes, id, k) {
            Some(i) => k <= i < nodes.len() && nodes[i].id == id,
            None => forall|j: int| k <= j < nodes.len() ==> nodes[j].id != id,
        },
    decreases nodes.len() - k,
{
    if k < nodes.len() && nodes[k].id != id {
        lemma_find_id_from(nodes, id, k + 1);
    }
}

/// Lookups agree on registries whose nodes carry the same ids.
proof fn lemma_find_same_ids(a: Seq<NodeView>, b: Seq<NodeView>, id: Seq<char>, k: int)
    requires
        a.len() == b.len(),
        forall|i: int| 0 <= i < a.len() ==> a[i].id == b[i].id,
        0 <= k,
    ensures
        find_id_from(a, id, k) == find_id_from(b, id, k),
    decreases a.len() - k,
{
    if k < a.len() {
        lemma_find_same_ids(a, b, id, k + 1);
    }
}

/// The per-node part of the registry invariant: a nonempty chain and a
/// duplicate-free peer list without a self-loop.
pub open spec fn node_wf(n: NodeView) -> bool {
    &&& n.chain.blocks.len() >= 1
    &&& (forall|i: int, j: int| 0 <= i < j < n.peers.len() ==> n.peers[i] != n.peers[j])
    &&& (forall|i: int| 0 <= i < n.peers.len() ==> n.peers[i] != n.id)
}

/// The registry invariant: ids are unique and every node is well formed.
pub open spec fn network_wf(nodes: Seq<NodeView>) -> bool {
    &&& (forall|i: int, j: int| 0 <= i < j < nodes.len() ==> nodes[i].id != nodes[j].id)
    &&& (forall|i: int| 0 <= i < nodes.len() ==> node_wf(nodes[i]))
}

/// Adding a peer preserves a node's well-formedness and touches nothing
/// but its peer list.
proof fn lemma_add_peer_wf(n: NodeView, p: Seq<char>)
    requires
        node_wf(n),
    ensures
        node_wf(add_peer_spec(n, p)),
        add_peer_spec(n, p).id == n.id,
        add_peer_spec(n, p).chain == n.chain,
{
    if !(n.peers.contains(p) || p == n.id) {
        let ext = n.peers.push(p);
        assert forall|i: int| 0 <= i < n.peers.len() implies n.peers[i] != p by {
            if n.peers[i] == p {
                assert(n.peers.contains(p));
            }
        }
        assert forall|i: int, j: int| 0 <= i < j < ext.len() implies ext[i] != ext[j] by {
            if j < n.peers.len() {
                assert(ext[i] == n.peers[i] && ext[j] == n.peers[j]);
            } else {
                assert(ext[j] == p && ext[i] == n.peers[i]);
            }
        }
    }
}

/// The node `n` with its chain replaced by `candidate`.
pub open spec fn with_chain(n: NodeView, candidate: Seq<BlockView>) -> NodeView {
    NodeView {
        id: n.id,
        chain: BlockchainView {
            blocks: candidate,
            pending: n.chain.pending,
            difficulty: n.chain.difficulty,
        },
        peers: n.peers,
    }
}

/// Whether a node adopts a candidate chain: strictly longer than its own
/// and internally valid.
pub open spec fn adopts_chain(n: NodeView, candidate: Seq<BlockView>) -> bool {
    candidate.len() > n.chain.blocks.len() && check_from(candidate, 1) is Ok
}

/// The node `n` with `t` appended to its pending pool.
pub open spec fn with_pending(n: NodeView, t: crate::transaction::TransactionView) -> NodeView {
    NodeView {
        id: n.id,
        chain: BlockchainView {
            blocks: n.chain.blocks,
            pending: n.chain.pending.push(t),
            difficulty: n.chain.difficulty,
        },
        peers: n.peers,
    }
}

impl Network {
    /// Builds an empty registry.
    pub fn new() -> (r: Network)
        ensures
            r@.len() == 0,
            network_wf(r@),
    {
        let r = Network { nodes: Vec::new() };
        proof {
            assert(r@ =~= Seq::<NodeView>::empty());
        }
        r
    }

    /// Looks `id` up in the registry.
    fn find_index(&self, id: &str) -> (r: Option<usize>)
        ensures
            match r {
                Some(k) => find_id(self@, id@) == Some(k as int),
                None => find_id(self@, id@) is None,
            },
    {
        let mut i: usize = 0;
        while i < self.nodes.len()
            invariant
                i <= self.nodes@.len(),
                find_id(self@, id@) == find_id_from(self@, id@, i as int),
            decreases self.nodes@.len() - i,
        {
            if str_equal(self.nodes[i].id.as_str(), id) {
                proof {
                    assert(self@[i as int].id == id@);
                }
                return Some(i);
            }
            proof {
                assert(self@[i as int].id != id@);
            }
            i = i + 1;
        }
        None
    }

    /// Registers a node with a fresh ledger under `node_id`. Idempotent: a
    /// second registration of an existing id is a no-op and does not reset
    /// that node's chain.
    pub fn add_node(&mut self, node_id: String, difficulty: usize)
        requires
            network_wf(old(self)@),
        ensures
            network_wf(final(self)@),
            match find_id(old(self)@, node_id@) {
                Some(_) => final(self)@ == old(self)@,
                None => {
                    &&& final(self)@.len() == old(self)@.len() + 1
                    &&& final(self)@.subrange(0, old(self)@.len() as int) == old(self)@
                    &&& final(self)@.last().id == node_id@
                    &&& fresh_ledger(final(self)@.last().chain, difficulty)
                    &&& final(self)@.last().peers.len() == 0
                },
            },
    {
        match self.find_index(node_id.as_str()) {
            Option::Some(_) => {},
            Option::None => {
                proof {
                    lemma_find_id(old(self)@, node_id@);
                }
                let ghost pre = self@;
                let node = Node::new(node_id, difficulty);
                let ghost nv = node@;
                self.nodes.push(node);
                proof {
                    assert(self@ =~= pre.push(nv));
                    assert(self@.subrange(0, pre.len() as int) =~= pre);
                    assert forall|i: int, j: int| 0 <= i < j < self@.len() implies self@[i].id
                        != self@[j].id by {
                        if j < pre.len() {
                            assert(self@[i] == pre[i] && self@[j] == pre[j]);
                        } else {
                            assert(self@[j] == nv && self@[i] == pre[i]);
                        }
                    }
                    assert(ids_view(Seq::<String>::empty()).len() == 0);
                }
            },
        }
    }

    /// Adds a symmetric edge between two registered nodes: each gains the
    /// other's id as a peer, with no duplicate entries and no self-loop, so
    /// a repeated call (or connecting an id to itself) changes nothing. If
    /// either id is unknown the registry is untouched.
    pub fn connect_nodes(&mut self, node_id1: &str, node_id2: &str)
        requires
            network_wf(old(self)@),
        ensures
            network_wf(final(self)@),
            match (find_id(old(self)@, node_id1@), find_id(old(self)@, node_id2@)) {
                (Some(i), Some(j)) => final(self)@ == old(self)@.update(
                    i,
                    add_peer_spec(old(self)@[i], node_id2@),
                ).update(
                    j,
                    add_peer_spec(
                        old(self)@.update(i, add_peer_spec(old(self)@[i], node_id2@))[j],
                        node_id1@,
                    ),
                ),
                _ => final(self)@ == old(self)@,
            },
    {
        let i_opt = self.find_index(node_id1);
        let j_opt = self.find_index(node_id2);
        if let (Option::Some(i), Option::Some(j)) = (i_opt, j_opt) {
            proof {
                lemma_find_id(old(self)@, node_id1@);
                lemma_find_id(old(self)@, node_id2@);
            }
            let ghost pre = self@;
            self.nodes[i].add_peer(node_id2.to_owned());
            let ghost mid = pre.update(i as int, add_peer_spec(pre[i as int], node_id2@));
            proof {
                lemma_add_peer_wf(pre[i as int], node_id2@);
                assert(self@ =~= mid);
            }
            self.nodes[j].add_peer(node_id1.to_owned());
            proof {
                lemma_add_peer_wf(mid[j as int], node_id1@);
                assert(self@ =~= mid.update(j as int, add_peer_spec(mid[j as int], node_id1@)));
            }
        }
    }

    /// Delivers `block` to every direct peer of `origin_id`; each peer
    /// applies its single-step acceptance rule independently, appending the
    /// block when it extends that peer's tip and ignoring it otherwise.
    /// Single-hop: nothing is relayed beyond direct peers. An unknown
    /// origin delivers nothing.
    pub fn broadcast_block(&mut self, origin_id: &str, block: Block)
        requires
            network_wf(old(self)@),
        ensures
            network_wf(final(self)@),
            final(self)@.len() == old(self)@.len(),
            match find_id(old(self)@, origin_id@) {
                Some(oi) => forall|k: int|
                    0 <= k < old(self)@.len() ==> final(self)@[k] == (if old(
                        self,
                    )@[oi].peers.contains(old(self)@[k].id) && accepts_block(
                        old(self)@[k],
                        block@,
                    ) {
                        with_block(old(self)@[k], block@)
                    } else {
                        old(self)@[k]
                    }),
                None => final(self)@ == old(self)@,
            },
    {
        let oi = match self.find_index(origin_id) {
            Option::Some(oi) => oi,
            Option::None => {
                return ;
            },
        };
        proof {
            lemma_find_id(old(self)@, origin_id@);
        }
        let ghost pre = self@;
        let ghost opeers = pre[oi as int].peers;
        let mut p: usize = 0;
        while p < self.nodes[oi].peers.len()
            invariant
                network_wf(self@),
                oi < self@.len(),
                self@.len() == pre.len(),
                self@[oi as int] == pre[oi as int],
                p <= opeers.len(),
                opeers == pre[oi as int].peers,
                forall|k: int|
                    0 <= k < pre.len() ==> self@[k] == (if opeers.subrange(0, p as int).contains(
                        pre[k].id,
                    ) && accepts_block(pre[k], block@) {
                        with_block(pre[k], block@)
                    } else {
                        pre[k]
                    }),
            decreases opeers.len() - p,
        {
            let ghost prefix = opeers.subrange(0, p as int);
            let ghost pid = opeers[p as int];
            proof {
                assert(ids_view(self.nodes@[oi as int].peers@) == opeers);
                lemma_same_ids_of_invariant(pre, self@, block@, opeers, p as int);
            }
            let peer_id = self.nodes[oi].peers[p].clone();
            proof {
                assert(peer_id@ == pid);
            }
            let pi_opt = self.find_index(peer_id.as_str());
            proof {
                lemma_find_same_ids(self@, pre, pid, 0);
                lemma_find_id(pre, pid);
            }
            if let Option::Some(pi) = pi_opt {
                proof {
                    // the peer is not the origin: a node never lists itself
                    assert(pre[pi as int].id == pid);
                    assert(pi as int != oi as int);
                    // the peer was not reached before: peer lists are
                    // duplicate-free
                    assert forall|q: int| 0 <= q < p as int implies prefix[q] != pid by {
                        assert(opeers[q] != opeers[p as int]);
                    }
                    assert(!prefix.contains(pid));
                    assert(self@[pi as int] == pre[pi as int]);
                }
                let ghost before = self@;
                let _ = self.nodes[pi].receive_block(block.clone());
                proof {
                    assert forall|k: int|
                        0 <= k < pre.len() implies self@[k] == (if opeers.subrange(
                        0,
                        p as int + 1,
                    ).contains(pre[k].id) && accepts_block(pre[k], block@) {
                        with_block(pre[k], block@)
                    } else {
                        pre[k]
                    }) by {
                        lemma_prefix_push(opeers, p as int);
                        if k != pi as int {
                            assert(self@[k] == before[k]);
                            if pre[k].id == pid {
                                // unique ids: only the peer's node carries its id
                                lemma_unique_id(pre, k, pi as int);
                            }
                            assert(opeers.subrange(0, p as int + 1).contains(pre[k].id)
                                <==> prefix.contains(pre[k].id));
                        } else {
                            assert(opeers.subrange(0, p as int + 1).contains(pid));
                        }
                    }
                    assert(self@[oi as int] == pre[oi as int]);
                    assert forall|i: int| 0 <= i < self@.len() implies node_wf(self@[i]) by {
                        assert(node_wf(before[i]));
                    }
                    assert forall|i: int, j: int| 0 <= i < j < self@.len() implies self@[i].id
                        != self@[j].id by {
                        assert(self@[i].id == pre[i].id && self@[j].id == pre[j].id);
                    }
                }
            } else {
                proof {
                    lemma_prefix_push(opeers, p as int);
                    assert forall|k: int|
                        0 <= k < pre.len() implies (opeers.subrange(0, p as int + 1).contains(
                        pre[k].id,
                    ) <==> prefix.contains(pre[k].id)) by {
                        assert(pre[k].id != pid);
                    }
                }
            }
            p = p + 1;
        }
        proof {
            assert(opeers.subrange(0, opeers.len() as int) =~= opeers);
        }
    }

    /// Snapshots the chain of `origin_id` and offers it to every direct
    /// peer; each peer applies the fork-choice rule independently, adopting
    /// the snapshot only when it is strictly longer than its own chain and
    /// valid. Single-hop: peers do not relay further. An unknown origin
    /// delivers nothing.
    pub fn broadcast_chain(&mut self, origin_id: &str)
        requires
            network_wf(old(self)@),
        ensures
            network_wf(final(self)@),
            final(self)@.len() == old(self)@.len(),
            match find_id(old(self)@, origin_id@) {
                Some(oi) => forall|k: int|
                    0 <= k < old(self)@.len() ==> final(self)@[k] == (if old(
                        self,
                    )@[oi].peers.contains(old(self)@[k].id) && adopts_chain(
                        old(self)@[k],
                        old(self)@[oi].chain.blocks,
                    ) {
                        with_chain(old(self)@[k], old(self)@[oi].chain.blocks)
                    } else {
                        old(self)@[k]
                    }),
                None => final(self)@ == old(self)@,
            },
    {
        let oi = match self.find_index(origin_id) {
            Option::Some(oi) => oi,
            Option::None => {
                return ;
            },
        };
        proof {
            lemma_find_id(old(self)@, origin_id@);
        }
        let snapshot = clone_chain(&self.nodes[oi].blockchain.blocks);
        let ghost pre = self@;
        let ghost opeers = pre[oi as int].peers;
        let ghost cand = pre[oi as int].chain.blocks;
        proof {
            assert(chain_view(snapshot@) == cand);
        }
        let mut p: usize = 0;
        while p < self.nodes[oi].peers.len()
            invariant
                network_wf(self@),
                oi < self@.len(),
                self@.len() == pre.len(),
                self@[oi as int] == pre[oi as int],
                p <= opeers.len(),
                opeers == pre[oi as int].peers,
                chain_view(snapshot@) == cand,
                forall|k: int|
                    0 <= k < pre.len() ==> self@[k] == (if opeers.subrange(0, p as int).contains(
                        pre[k].id,
                    ) && adopts_chain(pre[k], cand) {
                        with_chain(pre[k], cand)
                    } else {
                        pre[k]
                    }),
            decreases opeers.len() - p,
        {
            let ghost prefix = opeers.subrange(0, p as int);
            let ghost pid = opeers[p as int];
            proof {
                assert(ids_view(self.nodes@[oi as int].peers@) == opeers);
                lemma_same_ids_of_chain_invariant(pre, self@, cand, opeers, p as int);
            }
            let peer_id = self.nodes[oi].peers[p].clone();
            proof {
                assert(peer_id@ == pid);
            }
            let pi_opt = self.find_index(peer_id.as_str());
            proof {
                lemma_find_same_ids(self@, pre, pid, 0);
                lemma_find_id(pre, pid);
            }
            if let Option::Some(pi) = pi_opt {
                proof {
                    assert(pre[pi as int].id == pid);
                    assert(pi as int != oi as int);
                    assert forall|q: int| 0 <= q < p as int implies prefix[q] != pid by {
                        assert(opeers[q] != opeers[p as int]);
                    }
                    assert(!prefix.contains(pid));
                    assert(self@[pi as int] == pre[pi as int]);
                }
                let ghost before = self@;
                let offered = clone_chain(&snapshot);
                let _ = self.nodes[pi].receive_chain(offered);
                proof {
                    assert forall|k: int|
                        0 <= k < pre.len() implies self@[k] == (if opeers.subrange(
                        0,
                        p as int + 1,
                    ).contains(pre[k].id) && adopts_chain(pre[k], cand) {
                        with_chain(pre[k], cand)
                    } else {
                        pre[k]
                    }) by {
                        lemma_prefix_push(opeers, p as int);
                        if k != pi as int {
                            assert(self@[k] == before[k]);
                            if pre[k].id == pid {
                                lemma_unique_id(pre, k, pi as int);
                            }
                            assert(opeers.subrange(0, p as int + 1).contains(pre[k].id)
                                <==> prefix.contains(pre[k].id));
                        } else {
                            assert(opeers.subrange(0, p as int + 1).contains(pid));
                            if adopts_chain(pre[pi as int], cand) {
                                assert(self@[k] == with_chain(pre[k], cand));
                            } else {
                                assert(self@[k] == pre[k]);
                            }
                        }
                    }
                    assert(self@[oi as int] == pre[oi as int]);
                    assert forall|i: int| 0 <= i < self@.len() implies node_wf(self@[i]) by {
                        assert(node_wf(before[i]));
                    }
                    assert forall|i: int, j: int| 0 <= i < j < self@.len() implies self@[i].id
                        != self@[j].id by {
                        assert(self@[i].id == pre[i].id && self@[j].id == pre[j].id);
                    }
                }
            } else {
                proof {
                    lemma_prefix_push(opeers, p as int);
                    assert forall|k: int|
                        0 <= k < pre.len() implies (opeers.subrange(0, p as int + 1).contains(
                        pre[k].id,
                    ) <==> prefix.contains(pre[k].id)) by {
                        assert(pre[k].id != pid);
                    }
                }
            }
            p = p + 1;
        }
        proof {
            assert(opeers.subrange(0, opeers.len() as int) =~= opeers);
        }
    }

    /// Hands a transaction to the ledger of the node registered under
    /// `node_id`: fails with `NodeNotFound` for an unknown id, and maps a
    /// ledger rejection to the coarser `InvalidTransaction`.
    pub fn add_transaction_to_node(&mut self, node_id: &str, transaction: Transaction) -> (r:
        Result<(), NodeError>)
        requires
            network_wf(old(self)@),
        ensures
            network_wf(final(self)@),
            match find_id(old(self)@, node_id@) {
                None => final(self)@ == old(self)@ && r == Err::<(), NodeError>(
                    NodeError::NodeNotFound,
                ),
                Some(i) => {
                    &&& (r is Ok <==> clamped_balance(
                        old(self)@[i].chain.blocks,
                        transaction@.sender,
                    ) >= transaction@.amount)
                    &&& (r is Ok ==> final(self)@ == old(self)@.update(
                        i,
                        with_pending(old(self)@[i], transaction@),
                    ))
                    &&& (r is Err ==> final(self)@ == old(self)@ && r == Err::<(), NodeError>(
                        NodeError::InvalidTransaction,
                    ))
                },
            },
    {
        let i = match self.find_index(node_id) {
            Option::Some(i) => i,
            Option::None => {
                return Err(NodeError::NodeNotFound);
            },
        };
        proof {
            lemma_find_id(old(self)@, node_id@);
        }
        let ghost pre = self@;
        match self.nodes[i].blockchain.add_transaction(transaction) {
            Result::Ok(()) => {
                proof {
                    assert(self@ =~= pre.update(i as int, with_pending(pre[i as int], transaction@)));
                    assert forall|k: int| 0 <= k < self@.len() implies node_wf(self@[k]) by {
                        assert(node_wf(pre[k]));
                    }
                    assert forall|a: int, b: int| 0 <= a < b < self@.len() implies self@[a].id
                        != self@[b].id by {
                        assert(self@[a].id == pre[a].id && self@[b].id == pre[b].id);
                    }
                }
                Ok(())
            },
            Result::Err(_) => {
                proof {
                    assert(self@ =~= pre);
                }
                Err(NodeError::InvalidTransaction)
            },
        }
    }
}

/// A prefix of a peer list extended by one entry.
proof fn lemma_prefix_push(peers: Seq<Seq<char>>, p: int)
    requires
        0 <= p < peers.len(),
    ensures
        peers.subrange(0, p + 1) =~= peers.subrange(0, p).push(peers[p]),
        forall|x: Seq<char>|
            #[trigger] peers.subrange(0, p + 1).contains(x) <==> (peers.subrange(0, p).contains(x)
                || x == peers[p]),
{
    let ext = peers.subrange(0, p + 1);
    let prefix = peers.subrange(0, p);
    assert forall|x: Seq<char>| #[trigger] ext.contains(x) implies (prefix.contains(x) || x
        == peers[p]) by {
        let w = choose|w: int| 0 <= w < ext.len() && ext[w] == x;
        if w < p {
            assert(prefix[w] == x);
        }
    }
    assert forall|x: Seq<char>| prefix.contains(x) || x == peers[p] implies #[trigger] ext.contains(
        x,
    ) by {
        if prefix.contains(x) {
            let w = choose|w: int| 0 <= w < prefix.len() && prefix[w] == x;
            assert(ext[w] == x);
        } else {
            assert(ext[p] == x);
        }
    }
}

/// With unique ids, two positions carrying the same id coincide.
proof fn lemma_unique_id(nodes: Seq<NodeView>, a: int, b: int)
    requires
        network_wf(nodes),
        0 <= a < nodes.len(),
        0 <= b < nodes.len(),
        nodes[a].id == nodes[b].id,
    ensures
        a == b,
{
    if a < b {
        assert(nodes[a].id != nodes[b].id);
    } else if b < a {
        assert(nodes[b].id != nodes[a].id);
    }
}

/// The block-broadcast loop invariant keeps every node's id.
proof fn lemma_same_ids_of_invariant(
    pre: Seq<NodeView>,
    cur: Seq<NodeView>,
    b: BlockView,
    opeers: Seq<Seq<char>>,
    p: int,
)
    requires
        pre.len() == cur.len(),
        0 <= p,
        forall|k: int|
            0 <= k < pre.len() ==> cur[k] == (if opeers.subrange(0, p).contains(pre[k].id)
                && accepts_block(pre[k], b) {
                with_block(pre[k], b)
            } else {
                pre[k]
            }),
    ensures
        forall|i: int| 0 <= i < cur.len() ==> cur[i].id == pre[i].id,
{
}

/// The chain-broadcast loop invariant keeps every node's id.
proof fn lemma_same_ids_of_chain_invariant(
    pre: Seq<NodeView>,
    cur: Seq<NodeView>,
    cand: Seq<BlockView>,
    opeers: Seq<Seq<char>>,
    p: int,
)
    requires
        pre.len() == cur.len(),
        0 <= p,
        forall|k: int|
            0 <= k < pre.len() ==> cur[k] == (if opeers.subrange(0, p).contains(pre[k].id)
                && adopts_chain(pre[k], cand) {
                with_chain(pre[k], cand)
            } else {
                pre[k]
            }),
    ensures
        forall|i: int| 0 <= i < cur.len() ==> cur[i].id == pre[i].id,
{
}

} // verus!
