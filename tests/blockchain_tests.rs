use repyh::block::Block;
use repyh::blockchain::Blockchain;
use repyh::simple_transaction::SimpleTransaction;

fn tx(text: &str) -> SimpleTransaction {
    SimpleTransaction::from_str(text)
}

fn main_transactions(chain: &Blockchain) -> Vec<String> {
    chain.snapshot()[0].iter().map(|(_, t)| t.to_string()).collect()
}

#[test]
fn test_blockchain_divergence_when_divergent_chain_is_longer_at_resolution() {
    let mut chain = Blockchain::new();

    let b1 = chain.get_candidate_block(SimpleTransaction::new());
    chain.add_block_safe(b1);

    let b2 = chain.get_candidate_block(SimpleTransaction::from_str("left"));
    let b3 = chain.get_candidate_block(SimpleTransaction::from_str("right"));

    chain.add_block_safe(b2);

    assert_eq!(false, chain.add_block_safe(b3.clone()));
    assert_eq!(1, chain.fork_count());

    let b4 = Block::new_after_block(SimpleTransaction::from_str("I was easy to mine..."), &b3);
    assert_eq!(false, chain.add_block_safe(b4.clone()));
    assert_eq!(1, chain.fork_count());

    assert_eq!(3, chain.len());
    chain.resolve_pending_forks();
    assert_eq!(4, chain.len());

    assert_eq!(0, chain.fork_count());
}

#[test]
fn test_blockchain_divergence_when_main_chain_is_longer_at_resolution() {
    let mut chain = Blockchain::new();

    let b1 = chain.get_candidate_block(SimpleTransaction::new());
    chain.add_block_safe(b1);

    let b2 = chain.get_candidate_block(SimpleTransaction::from_str("left"));
    let b3 = chain.get_candidate_block(SimpleTransaction::from_str("right"));

    chain.add_block_safe(b2.clone());

    assert_eq!(false, chain.add_block_safe(b3));
    assert_eq!(1, chain.fork_count());

    let b4 = Block::new_after_block(SimpleTransaction::from_str("I was easy to mine..."), &b2);
    assert_eq!(true, chain.add_block_safe(b4));
    assert_eq!(1, chain.fork_count());

    assert_eq!(4, chain.len());
    chain.resolve_pending_forks();
    assert_eq!(4, chain.len());

    assert_eq!(1, chain.fork_count());
}

#[test]
fn test_divergence_with_unordered_buffer() {
    let mut chain = Blockchain::new();
    let b1 = chain.get_candidate_block(SimpleTransaction::new());
    chain.add_block_safe(b1.clone());

    let b2 = Block::new_after_block(SimpleTransaction::from_str("1"), &b1);
    let b3 = Block::new_after_block(SimpleTransaction::from_str("1"), &b2);

    assert_eq!(2, chain.len());
    chain.add_block_safe(b3);
    assert_eq!(2, chain.len());

    assert_eq!(1, chain.orphan_count());

    chain.add_block_safe(b2);
    assert_eq!(4, chain.len());
}

#[test]
fn linear_growth_on_a_fresh_replica() {
    let mut chain = Blockchain::new();
    assert_eq!(1, chain.len());
    let b1 = chain.get_candidate_block(tx("b1"));
    assert!(chain.add_block_safe(b1.clone()));
    assert_eq!(2, chain.len());
    let b2 = Block::new_after_block(tx("b2"), &b1);
    assert!(chain.add_block_safe(b2));
    assert_eq!(3, chain.len());
    assert_eq!(vec!["", "b1", "b2"], main_transactions(&chain));
    assert_eq!("b2", chain.last_transaction().to_string());
}

#[test]
fn fork_shorter_than_main_stays_pending() {
    let mut chain = Blockchain::new();
    let b1 = chain.get_candidate_block(tx("b1"));
    chain.add_block_safe(b1.clone());
    let b2 = Block::new_after_block(tx("b2"), &b1);
    chain.add_block_safe(b2);
    let b2_alt = Block::new_after_block(tx("b2'"), &b1);
    assert!(!chain.add_block_safe(b2_alt));
    assert_eq!(1, chain.fork_count());
    chain.resolve_pending_forks();
    assert_eq!(3, chain.len());
    assert_eq!(vec!["", "b1", "b2"], main_transactions(&chain));
    assert_eq!(1, chain.fork_count());
}

#[test]
fn fork_overtakes_main() {
    let mut chain = Blockchain::new();
    let b1 = chain.get_candidate_block(tx("b1"));
    chain.add_block_safe(b1.clone());
    let b2 = Block::new_after_block(tx("b2"), &b1);
    assert!(chain.add_block_safe(b2));
    let b2_alt = Block::new_after_block(tx("b2'"), &b1);
    assert!(!chain.add_block_safe(b2_alt.clone()));
    let b3_alt = Block::new_after_block(tx("b3'"), &b2_alt);
    assert!(!chain.add_block_safe(b3_alt));
    assert_eq!(3, chain.len());
    chain.resolve_pending_forks();
    assert_eq!(vec!["", "b1", "b2'", "b3'"], main_transactions(&chain));
    assert_eq!(0, chain.fork_count());
}

#[test]
fn orphan_is_spliced_when_its_parent_arrives() {
    let mut chain = Blockchain::new();
    let b1 = chain.get_candidate_block(tx("b1"));
    chain.add_block_safe(b1.clone());
    let b2 = Block::new_after_block(tx("b2"), &b1);
    let b3 = Block::new_after_block(tx("b3"), &b2);
    assert!(!chain.add_block_safe(b3));
    assert_eq!(1, chain.orphan_count());
    assert_eq!(2, chain.len());
    assert!(chain.add_block_safe(b2));
    assert_eq!(4, chain.len());
    assert_eq!(0, chain.orphan_count());
    assert_eq!(vec!["", "b1", "b2", "b3"], main_transactions(&chain));
}

#[test]
fn stale_fork_is_dropped_past_the_safe_horizon() {
    let mut chain = Blockchain::new();
    let b1 = chain.get_candidate_block(tx("b1"));
    chain.add_block_safe(b1.clone());
    let b2 = Block::new_after_block(tx("b2"), &b1);
    chain.add_block_safe(b2);
    let b2_alt = Block::new_after_block(tx("b2'"), &b1);
    chain.add_block_safe(b2_alt);
    assert_eq!(1, chain.fork_count());
    for i in 0..4 {
        let b = chain.get_candidate_block(tx(&format!("m{i}")));
        assert!(chain.add_block_safe(b));
    }
    // tip height 6: the fork's tip (height 2) is exactly the horizon below
    chain.resolve_pending_forks();
    assert_eq!(1, chain.fork_count());
    for i in 4..6 {
        let b = chain.get_candidate_block(tx(&format!("m{i}")));
        assert!(chain.add_block_safe(b));
    }
    assert_eq!(9, chain.len());
    chain.resolve_pending_forks();
    assert_eq!(0, chain.fork_count());
    assert_eq!(9, chain.len());
}

#[test]
fn duplicate_block_changes_nothing() {
    let mut chain = Blockchain::new();
    let b1 = chain.get_candidate_block(tx("b1"));
    assert!(chain.add_block_safe(b1.clone()));
    let b2 = Block::new_after_block(tx("b2"), &b1);
    assert!(chain.add_block_safe(b2.clone()));
    assert!(!chain.add_block_safe(b1));
    assert!(!chain.add_block_safe(b2));
    assert_eq!(3, chain.len());
    assert_eq!(0, chain.fork_count());
    assert_eq!(0, chain.orphan_count());
}

#[test]
fn block_without_parent_hash_becomes_an_orphan() {
    let mut chain = Blockchain::new();
    let b = Block::from_parts(tx("x"), None, 7, 1);
    assert!(!chain.add_block_safe(b));
    assert_eq!(1, chain.orphan_count());
    assert_eq!(1, chain.len());
}

#[test]
fn block_with_wrong_height_is_not_put_on_main() {
    let mut chain = Blockchain::new();
    let genesis = Block::genesis();
    let b = Block::from_parts(tx("x"), Some(genesis.hash()), 0, 5);
    assert!(!chain.add_block_safe(b));
    assert_eq!(1, chain.len());
    assert_eq!(1, chain.orphan_count());
}

#[test]
fn resolve_twice_equals_resolve_once() {
    let mut chain = Blockchain::new();
    let b1 = chain.get_candidate_block(tx("b1"));
    chain.add_block_safe(b1.clone());
    let b2 = Block::new_after_block(tx("b2"), &b1);
    chain.add_block_safe(b2);
    let c2 = Block::new_after_block(tx("c2"), &b1);
    chain.add_block_safe(c2.clone());
    let c3 = Block::new_after_block(tx("c3"), &c2);
    chain.add_block_safe(c3);
    chain.resolve_pending_forks();
    let once = (main_transactions(&chain), chain.fork_count(), chain.orphan_count());
    chain.resolve_pending_forks();
    let twice = (main_transactions(&chain), chain.fork_count(), chain.orphan_count());
    assert_eq!(once, twice);
    assert_eq!(vec!["", "b1", "c2", "c3"], once.0);
}

#[test]
fn equal_forks_resolve_to_the_first_one() {
    let mut chain = Blockchain::new();
    let b1 = chain.get_candidate_block(tx("b1"));
    chain.add_block_safe(b1.clone());
    let b2 = Block::new_after_block(tx("b2"), &b1);
    chain.add_block_safe(b2.clone());
    let b3 = Block::new_after_block(tx("b3"), &b2);
    chain.add_block_safe(b3);
    // a fork from genesis and a fork from b1, both reaching height 4
    let g = Block::genesis();
    let x1 = Block::new_after_block(tx("x1"), &g);
    let x2 = Block::new_after_block(tx("x2"), &x1);
    let x3 = Block::new_after_block(tx("x3"), &x2);
    let x4 = Block::new_after_block(tx("x4"), &x3);
    let y2 = Block::new_after_block(tx("y2"), &b1);
    let y3 = Block::new_after_block(tx("y3"), &y2);
    let y4 = Block::new_after_block(tx("y4"), &y3);
    for b in [x1, x2, x3, x4, y2, y3, y4] {
        assert!(!chain.add_block_safe(b));
    }
    assert_eq!(2, chain.fork_count());
    chain.resolve_pending_forks();
    assert_eq!(vec!["", "x1", "x2", "x3", "x4"], main_transactions(&chain));
    // the fork from b1 lost its root
    assert_eq!(0, chain.fork_count());
}

#[test]
fn safely_written_needs_more_than_the_horizon_above() {
    let mut chain = Blockchain::new();
    let t = tx("T");
    assert!(!chain.is_transaction_safely_written(&t));
    let b = chain.get_candidate_block(t.clone());
    chain.add_block_safe(b);
    assert!(chain.has_transaction(&t));
    for i in 0..3 {
        let b = chain.get_candidate_block(tx(&format!("f{i}")));
        chain.add_block_safe(b);
    }
    // T at position 1 of 5 blocks
    assert!(!chain.is_transaction_safely_written(&t));
    let b = chain.get_candidate_block(tx("f3"));
    chain.add_block_safe(b);
    assert!(chain.is_transaction_safely_written(&t));
    let b = chain.get_candidate_block(tx("f4"));
    chain.add_block_safe(b);
    assert!(chain.is_transaction_safely_written(&t));
    assert!(!chain.has_transaction(&tx("absent")));
}

#[test]
fn mined_block_goes_straight_on_the_tip() {
    let mut chain = Blockchain::new();
    let b1 = chain.get_candidate_block(tx("b1"));
    assert!(chain.can_append_trusted(&b1));
    chain.add_block_unsafe(b1.clone());
    assert_eq!(2, chain.len());
    assert!(!chain.can_append_trusted(&b1));
}
