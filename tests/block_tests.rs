use repyh::block::Block;
use repyh::simple_transaction::SimpleTransaction;
use repyh::client::TransactionError;
use serde_json::Value;

fn to_json(b: &Block) -> String {
    let mut t = serde_json::Map::new();
    t.insert("message".to_string(), Value::String(b.transactions().to_string()));
    let mut m = serde_json::Map::new();
    m.insert("transactions".to_string(), Value::Object(t));
    m.insert(
        "previous_hash".to_string(),
        match b.previous_hash() {
            Some(h) => Value::String(h),
            None => Value::Null,
        },
    );
    m.insert("nonce".to_string(), Value::from(b.nonce()));
    m.insert("index_in_chain".to_string(), Value::from(b.index_in_chain()));
    serde_json::to_string(&Value::Object(m)).unwrap()
}

fn from_json(text: &str) -> Block {
    let v: Value = serde_json::from_str(text).unwrap();
    Block::from_parts(
        SimpleTransaction::from_str(v["transactions"]["message"].as_str().unwrap()),
        v["previous_hash"].as_str().map(|s| s.to_string()),
        v["nonce"].as_u64().unwrap(),
        v["index_in_chain"].as_u64().unwrap(),
    )
}

#[test]
fn test_hash_consistency() {
    let mut b1 = Block::genesis();
    b1.set_nonce(1234);
    let as_json = to_json(&b1);
    let b1_parsed: Block = from_json(&as_json);
    assert_eq!(b1.hash(), b1_parsed.hash());

    let mut b2 = Block::new_after_block(SimpleTransaction::from_str("Hello world"), &b1);
    b2.set_nonce(9876);
    let as_json = to_json(&b2);
    let b2_parsed: Block = from_json(&as_json);
    assert_eq!(b2.hash(), b2_parsed.hash());
}

#[test]
fn genesis_bytes_are_the_nonce_alone() {
    let g = Block::genesis();
    assert_eq!(vec![0x55, 0xBD, 0x13, 0, 0, 0, 0, 0], g.bytes());
    assert_eq!(None, g.previous_hash());
    assert_eq!(0, g.index_in_chain());
    assert_eq!(1293653, g.nonce());
}

#[test]
fn genesis_meets_difficulty_five() {
    let g = Block::genesis();
    assert!(g.is_hash_valid(5));
    assert!(g.hash().starts_with("00000"));
}

#[test]
fn hash_is_sha256_hex_of_bytes() {
    let b = Block::from_parts(SimpleTransaction::from_str("abc"), Some("ff".to_string()), 1, 3);
    let mut expected = b"abc".to_vec();
    expected.extend_from_slice(&1u64.to_le_bytes());
    expected.extend_from_slice(b"ff");
    assert_eq!(expected, b.bytes());
    assert_eq!(sha256::digest(&expected), b.hash());
    assert_eq!(64, b.hash().len());
    assert_ne!(String::from_utf8(b.bytes()).unwrap(), b.hash());
}

#[test]
fn child_block_links_to_parent() {
    let g = Block::genesis();
    let c = Block::new_after_block(SimpleTransaction::from_str("x"), &g);
    assert_eq!(Some(g.hash()), c.previous_hash());
    assert_eq!(1, c.index_in_chain());
    assert_eq!(0, c.nonce());
    assert_eq!("x", c.transactions().to_string());
}

#[test]
fn setters_change_one_field() {
    let mut b = Block::genesis();
    b.set_previous_hash("abc".to_string());
    b.set_nonce(42);
    assert_eq!(Some("abc".to_string()), b.previous_hash());
    assert_eq!(42, b.nonce());
    assert!(b.same_as(&b.duplicate()));
    assert!(!b.same_as(&Block::genesis()));
}

#[test]
fn difficulty_zero_always_holds_and_sixty_five_never() {
    let b = Block::from_parts(SimpleTransaction::from_str("q"), None, 0, 0);
    assert!(b.is_hash_valid(0));
    assert!(!b.is_hash_valid(65));
}

#[test]
fn transaction_bytes_are_utf8() {
    let t = SimpleTransaction::from_str("héllo");
    assert_eq!("héllo".as_bytes().to_vec(), t.to_bytes());
    assert_eq!("héllo", t.to_string());
    assert!(t == SimpleTransaction::from_str("héllo"));
    assert!(!(t == SimpleTransaction::new()));
    assert_eq!("", SimpleTransaction::new().to_string());
}

#[test]
fn transaction_error_message() {
    assert_eq!("Not enough sold", TransactionError::NotEnoughSold.message());
}
