use repyh::block::Block;
use repyh::blockchain::Blockchain;
use repyh::mining::{mine, mine_sync};
use repyh::server::Server;
use repyh::simple_transaction::SimpleTransaction;
use repyh::worker::{candidate_for, commit_mined_block, on_network_block, Worker};
use tokio_util::sync::CancellationToken;

fn tx(text: &str) -> SimpleTransaction {
    SimpleTransaction::from_str(text)
}

fn pool(server: &Server) -> Vec<String> {
    server.pending_transactions().iter().map(|t| t.to_string()).collect()
}

#[test]
fn mining_finds_first_nonce_meeting_difficulty() {
    let g = Block::genesis();
    let mut b = Block::new_after_block(tx("mine me"), &g);
    let h = mine_sync(&mut b, 2).unwrap();
    assert!(h.starts_with("00"));
    assert_eq!(h, b.hash());
    assert!(b.is_hash_valid(2));
    let mut probe = b.clone();
    for n in 0..b.nonce() {
        probe.set_nonce(n);
        assert!(!probe.is_hash_valid(2));
    }
}

#[test]
fn mining_with_live_token_succeeds() {
    let g = Block::genesis();
    let mut b = Block::new_after_block(tx("async"), &g);
    let token = CancellationToken::new();
    let h = mine(&mut b, 1, token).unwrap();
    assert!(h.starts_with('0'));
    assert_eq!(h, b.hash());
}

#[test]
fn mining_stops_when_cancelled() {
    let g = Block::genesis();
    let mut b = Block::new_after_block(tx("cancel"), &g);
    let token = CancellationToken::new();
    token.cancel();
    assert_eq!(None, mine(&mut b, 64, token));
    assert_eq!(0, b.nonce());
}

#[test]
fn server_retires_transaction_past_the_horizon() {
    let mut server = Server::new();
    server.submit_transaction(tx("T"));
    server.submit_transaction(tx("U"));
    let b = server.blockchain().get_candidate_block(tx("T"));
    server.ingest_block(b);
    for i in 0..3 {
        let b = server.blockchain().get_candidate_block(tx(&format!("x{i}")));
        server.ingest_block(b);
        assert_eq!(vec!["T", "U"], pool(&server));
    }
    let b = server.blockchain().get_candidate_block(tx("x3"));
    server.ingest_block(b);
    assert_eq!(6, server.blockchain().len());
    assert_eq!(vec!["U"], pool(&server));
}

#[test]
fn server_serves_a_pending_transaction() {
    let mut server = Server::new();
    assert!(server.get_pending_transaction().is_none());
    server.submit_transaction(tx("a"));
    server.submit_transaction(tx("b"));
    for _ in 0..20 {
        let t = server.get_pending_transaction().unwrap().to_string();
        assert!(t == "a" || t == "b");
    }
    assert_eq!(vec!["a", "b"], pool(&server));
}

#[test]
fn invalid_proof_of_work_is_dropped() {
    let mut chain = Blockchain::new();
    let b = chain.get_candidate_block(tx("x"));
    assert!(!on_network_block(&mut chain, b.clone(), 64));
    assert_eq!(1, chain.len());
    assert!(on_network_block(&mut chain, b, 0));
    assert_eq!(2, chain.len());
}

#[test]
fn candidate_is_skipped_for_known_transaction() {
    let mut chain = Blockchain::new();
    let b = candidate_for(&chain, tx("x")).unwrap();
    assert_eq!(1, b.index_in_chain());
    commit_mined_block(&mut chain, b);
    assert_eq!(2, chain.len());
    assert!(candidate_for(&chain, tx("x")).is_none());
}

#[test]
fn stale_mined_block_is_admitted_as_fork() {
    let mut chain = Blockchain::new();
    let mine_b = chain.get_candidate_block(tx("mine"));
    let peer_b = chain.get_candidate_block(tx("peer"));
    assert!(on_network_block(&mut chain, peer_b, 0));
    commit_mined_block(&mut chain, mine_b);
    assert_eq!(2, chain.len());
    assert_eq!("peer", chain.last_transaction().to_string());
    assert_eq!(1, chain.fork_count());
}

#[test]
fn worker_starts_without_peers() {
    let _w = Worker::new();
}
