//! Node acceptance rules and single-hop gossip across the registry.
use minichain::{Network, Node, NodeError, Transaction};

/// The position of the node registered under `id`.
fn node_index(net: &Network, id: &str) -> usize {
    net.nodes.iter().position(|n| n.id == id).unwrap()
}

/// Grows the ledger of node `id` by `mines` mined blocks.
fn mine_on(net: &mut Network, id: &str, mines: usize) {
    for k in 0..mines {
        let tx = Transaction::new(format!("Faucet{}", k), id.to_string(), 1);
        net.add_transaction_to_node(id, tx).unwrap();
        let i = node_index(net, id);
        net.nodes[i].mine_block().unwrap();
    }
}

#[test]
fn receive_block_accepts_single_step_extension() {
    let mut a = Node::new("A".to_string(), 1);
    let mut b = Node::new("B".to_string(), 1);
    // bring B onto A's history first: a node that missed a block cannot
    // absorb a later one out of order
    a.blockchain
        .add_transaction(Transaction::new("Faucet".to_string(), "A".to_string(), 1))
        .unwrap();
    a.mine_block().unwrap();
    assert!(b.receive_chain(a.blockchain.blocks.clone()));
    assert_eq!(b.blockchain.blocks.len(), 2);

    // A mines one more; B accepts it as a strict extension of its tip
    a.blockchain
        .add_transaction(Transaction::new("Faucet".to_string(), "A".to_string(), 1))
        .unwrap();
    let mined = a.mine_block().unwrap();
    assert!(b.receive_block(mined.clone()).is_ok());
    assert_eq!(b.blockchain.blocks.len(), 3);
    assert_eq!(b.blockchain.blocks[2], mined);
    assert!(b.blockchain.validate_chain().is_ok());
}

#[test]
fn receive_block_rejects_out_of_order() {
    let mut a = Node::new("A".to_string(), 1);
    let mut b = Node::new("B".to_string(), 1);
    a.blockchain
        .add_transaction(Transaction::new("Faucet".to_string(), "A".to_string(), 1))
        .unwrap();
    a.mine_block().unwrap();
    assert!(b.receive_chain(a.blockchain.blocks.clone()));
    a.blockchain
        .add_transaction(Transaction::new("Faucet".to_string(), "A".to_string(), 1))
        .unwrap();
    let mined = a.mine_block().unwrap();
    assert!(b.receive_block(mined.clone()).is_ok());
    // a second delivery of the same block no longer extends the tip
    match b.receive_block(mined) {
        Err(NodeError::InvalidBlockHash) => {}
        other => panic!("expected InvalidBlockHash, got {:?}", other),
    }
    assert_eq!(b.blockchain.blocks.len(), 3);
}

#[test]
fn add_peer_deduplicates_and_rejects_self() {
    let mut a = Node::new("A".to_string(), 1);
    a.add_peer("B".to_string());
    a.add_peer("B".to_string());
    a.add_peer("A".to_string());
    assert_eq!(a.peers, vec!["B".to_string()]);
}

#[test]
fn add_node_is_idempotent() {
    let mut net = Network::new();
    net.add_node("A".to_string(), 1);
    mine_on(&mut net, "A", 1);
    let i = node_index(&net, "A");
    assert_eq!(net.nodes[i].blockchain.blocks.len(), 2);
    // a second registration of an existing id does not reset its chain
    net.add_node("A".to_string(), 1);
    assert_eq!(net.nodes.len(), 1);
    let i = node_index(&net, "A");
    assert_eq!(net.nodes[i].blockchain.blocks.len(), 2);
}

#[test]
fn connect_nodes_is_symmetric_without_duplicates() {
    let mut net = Network::new();
    net.add_node("A".to_string(), 1);
    net.add_node("B".to_string(), 1);
    net.connect_nodes("A", "B");
    net.connect_nodes("A", "B");
    let a = node_index(&net, "A");
    let b = node_index(&net, "B");
    assert_eq!(net.nodes[a].peers, vec!["B".to_string()]);
    assert_eq!(net.nodes[b].peers, vec!["A".to_string()]);
}

#[test]
fn broadcast_block_reaches_peer() {
    let mut net = Network::new();
    net.add_node("A".to_string(), 1);
    net.add_node("B".to_string(), 1);
    net.connect_nodes("A", "B");
    // A is ahead; B first adopts A's chain wholesale
    mine_on(&mut net, "A", 1);
    let a = node_index(&net, "A");
    let b = node_index(&net, "B");
    assert_eq!(net.nodes[a].blockchain.blocks.len(), 2);
    assert_eq!(net.nodes[b].blockchain.blocks.len(), 1);
    net.broadcast_chain("A");
    assert_eq!(net.nodes[b].blockchain.blocks.len(), 2);

    // A mines the next block and broadcasts it; B accepts the single step
    let tx = Transaction::new("Faucet".to_string(), "A".to_string(), 1);
    net.add_transaction_to_node("A", tx).unwrap();
    let a = node_index(&net, "A");
    let mined = net.nodes[a].mine_block().unwrap();
    assert_eq!(net.nodes[a].blockchain.blocks.len(), 3);
    net.broadcast_block("A", mined.clone());
    let b = node_index(&net, "B");
    assert_eq!(net.nodes[b].blockchain.blocks.len(), 3);
    assert_eq!(net.nodes[b].blockchain.blocks[2], mined);
}

#[test]
fn broadcast_chain_longest_valid_wins() {
    let mut net = Network::new();
    net.add_node("C".to_string(), 1);
    net.add_node("D".to_string(), 1);
    net.connect_nodes("C", "D");
    mine_on(&mut net, "C", 4);
    mine_on(&mut net, "D", 1);
    let c = node_index(&net, "C");
    let d = node_index(&net, "D");
    assert_eq!(net.nodes[c].blockchain.blocks.len(), 5);
    assert_eq!(net.nodes[d].blockchain.blocks.len(), 2);

    // the shorter chain is rejected by its longer peer
    net.broadcast_chain("D");
    let c = node_index(&net, "C");
    assert_eq!(net.nodes[c].blockchain.blocks.len(), 5);

    // the longer valid chain is adopted by the shorter peer
    net.broadcast_chain("C");
    let c = node_index(&net, "C");
    let d = node_index(&net, "D");
    assert_eq!(net.nodes[d].blockchain.blocks.len(), 5);
    assert_eq!(net.nodes[d].blockchain.blocks, net.nodes[c].blockchain.blocks);
}

#[test]
fn add_transaction_to_node_errors() {
    let mut net = Network::new();
    net.add_node("A".to_string(), 1);
    let tx = Transaction::new("X".to_string(), "Y".to_string(), 1);
    match net.add_transaction_to_node("ghost", tx) {
        Err(NodeError::NodeNotFound) => {}
        other => panic!("expected NodeNotFound, got {:?}", other),
    }
    // a ledger rejection is mapped to the coarser InvalidTransaction
    let tx = Transaction::new("X".to_string(), "Y".to_string(), 1000);
    match net.add_transaction_to_node("A", tx) {
        Err(NodeError::InvalidTransaction) => {}
        other => panic!("expected InvalidTransaction, got {:?}", other),
    }
    // an affordable transaction lands in the pending pool
    let tx = Transaction::new("X".to_string(), "Y".to_string(), 10);
    assert!(net.add_transaction_to_node("A", tx).is_ok());
    let a = node_index(&net, "A");
    assert_eq!(net.nodes[a].blockchain.pending_transactions.len(), 1);
}
