use macc_lib::ecdsa::{base58_encode, pb_key_to_addr, Client};
use macc_lib::hashes::checksum;
use macc_lib::hex;
use macc_lib::mempool::MemPool;
use macc_lib::script::eval;
use macc_lib::transaction::{Transaction, UTXO, UTXOU};
use macc_lib::txstore::TxStore;
use macc_lib::utils::current_time;

#[test]
fn hex_round_trip() {
    assert_eq!(hex::encode(&[0xBE, 0xEF]), "beef");
    assert_eq!(hex::encode(&[]), "");
    assert_eq!(hex::encode(&[0x00, 0x0A, 0xFF]), "000aff");

    assert_eq!(hex::decode("beef"), Some(vec![0xBE, 0xEF]));
    assert_eq!(hex::decode("BEEF"), Some(vec![0xBE, 0xEF]));
    assert_eq!(hex::decode(""), Some(Vec::new()));
    assert!(hex::decode("abc").is_none());
    assert!(hex::decode("zz").is_none());

    let data: Vec<u8> = (0u8..=255).collect();
    assert_eq!(hex::decode(&hex::encode(&data)), Some(data));
}

#[test]
fn base58_known_values() {
    // leading zero bytes become ones; the empty string stays empty
    assert_eq!(base58_encode(&[]), "");
    assert_eq!(base58_encode(&[0]), "1");
    assert_eq!(base58_encode(&[0, 0]), "11");
    assert_eq!(base58_encode(&[1]), "2");
}

#[test]
fn hashing_depends_on_contents() {
    let a = Transaction::new(1, Vec::new(), vec![UTXO::new(5, "l".to_string())]);
    let b = Transaction::new(2, Vec::new(), vec![UTXO::new(5, "l".to_string())]);
    assert_ne!(a.hash(), b.hash());
    assert_eq!(a.hash(), a.clone().hash());

    // the checksum is four bytes of the double digest, not the input
    let cs = checksum(&[1, 2, 3, 4]);
    assert_eq!(cs.len(), 4);
    assert_ne!(cs, vec![1, 2, 3, 4]);
}

#[test]
fn address_derivation() {
    let client = Client::new_random();
    let addr = pb_key_to_addr(&client.pb_key);
    assert!(!addr.is_empty());
    // Base58 output, not hex of the key
    assert_ne!(addr, hex::encode(&client.pb_key));

    // the to_addr opcode derives the same address
    let stack = eval(&format!("{} to_addr", hex::encode(&client.pb_key))).unwrap();
    assert_eq!(stack, vec![addr]);
}

#[test]
fn script_opcodes() {
    // literals are pushed verbatim
    assert_eq!(
        eval("a b c").unwrap(),
        vec!["a".to_string(), "b".to_string(), "c".to_string()]
    );
    // doubled spaces separate the same tokens
    assert_eq!(eval("  a   b  ").unwrap(), vec!["a".to_string(), "b".to_string()]);

    // eq pops two equal values and pushes nothing
    assert_eq!(eval("x x eq").unwrap(), Vec::<String>::new());
    // opcodes match case-insensitively
    assert_eq!(eval("x x EQ").unwrap(), Vec::<String>::new());
    // unequal values abort
    assert!(eval("x y eq").is_none());
    // underflow aborts
    assert!(eval("eq").is_none());
    assert!(eval("to_addr").is_none());
    assert!(eval("one two verify_sig").is_none());
    // a popped value that is not hex aborts to_addr
    assert!(eval("nothex to_addr").is_none());
    // garbage signature data fails verification
    assert!(eval("aa bb cc verify_sig").is_none());
}

#[test]
fn txstore_set_get_remove() {
    let mut store = TxStore::new_empty();
    let h1 = [1u8; 32];
    let h2 = [2u8; 32];

    assert!(store.get(&h1, 0).is_none());
    store.set(&h1, 0, UTXO::new(10, "a".to_string()));
    store.set(&h1, 3, UTXO::new(20, "b".to_string()));
    store.set(&h2, 0, UTXO::new(30, "c".to_string()));

    assert_eq!(store.get(&h1, 0).unwrap().value, 10);
    assert_eq!(store.get(&h1, 3).unwrap().value, 20);
    assert_eq!(store.get(&h2, 0).unwrap().value, 30);
    assert!(store.get(&h1, 1).is_none());

    // replacing an output keeps one entry per index
    store.set(&h1, 0, UTXO::new(11, "a2".to_string()));
    assert_eq!(store.get(&h1, 0).unwrap().value, 11);

    // removing all outputs of a hash prunes its entry
    store.remove(&h1, 0);
    assert!(store.get(&h1, 0).is_none());
    store.remove(&h1, 3);
    assert_eq!(store.entries.len(), 1);
    assert_eq!(store.get(&h2, 0).unwrap().value, 30);

    // removing what is absent changes nothing
    store.remove(&h1, 7);
    assert_eq!(store.entries.len(), 1);
}

#[test]
fn mempool_dedupe_and_sort() {
    let mut store = TxStore::new_empty();
    let source = [3u8; 32];
    store.set(&source, 0, UTXO::new(100, "anyone".to_string()));
    store.set(&source, 1, UTXO::new(100, "anyone".to_string()));

    // fees 60 and 15
    let big = Transaction::new(
        1,
        vec![UTXOU::new(source, 0, "s".to_string())],
        vec![UTXO::new(40, "x".to_string())],
    );
    let small = Transaction::new(
        2,
        vec![UTXOU::new(source, 1, "s".to_string())],
        vec![UTXO::new(85, "y".to_string())],
    );
    // spends an output the store does not have: no fee, not extracted
    let dangling = Transaction::new(
        3,
        vec![UTXOU::new([9u8; 32], 0, "s".to_string())],
        vec![UTXO::new(1, "z".to_string())],
    );

    let mut pool = MemPool::new();
    pool.add_tx(&small);
    pool.add_tx(&small);
    pool.add_tx(&big);
    pool.add_tx(&dangling);
    assert_eq!(pool.transactions.len(), 3);
    assert!(pool.contains(&small));

    let sorted = pool.sorted_txs(&store);
    assert_eq!(sorted.len(), 2);
    assert_eq!(sorted[0].nonce, big.nonce);
    assert_eq!(sorted[1].nonce, small.nonce);

    pool.remove_tx(&small);
    assert_eq!(pool.transactions.len(), 2);
    assert!(!pool.contains(&small));
    pool.remove_tx(&small);
    assert_eq!(pool.transactions.len(), 2);
}

#[test]
fn clock_reads() {
    // seconds since the epoch: positive on any sane clock
    assert!(current_time() > 0);
}

#[test]
fn empty_script_and_attempts() {
    // an empty program evaluates to the empty stack
    assert_eq!(eval("").unwrap(), Vec::<String>::new());
    assert_eq!(eval("   ").unwrap(), Vec::<String>::new());

    // a zero-attempt search tries nothing
    let b = macc_lib::block::Block::new(
        1,
        [0u8; 32],
        macc_lib::difficulty::create(0).unwrap(),
        0,
        Vec::new(),
    );
    assert_eq!(
        macc_lib::utils::mine_attempt(&b, &macc_lib::difficulty::create(0).unwrap(), 0, 0),
        None
    );
}

#[test]
fn wallet_failure_modes() {
    // keys that are not hex are refused outright
    assert!(Client::new("zz", "aabb", 0).is_none());

    // a well-formed but too-short secret key cannot sign
    let lame = Client::new("00", "aabb", 7).unwrap();
    assert_eq!(lame.nonce, 7);
    assert!(lame.sign(&[0u8; 32]).is_none());
    assert!(lame.create_solution(&[0u8; 32], 0).is_none());

    // a spend with inputs then fails, while a mint without inputs succeeds
    let mut lame = lame;
    assert!(lame
        .create_transaction(vec![([0u8; 32], 0usize)], Vec::new())
        .is_none());
    assert_eq!(lame.nonce, 7);
    assert!(lame.create_transaction(Vec::new(), Vec::new()).is_some());
    assert_eq!(lame.nonce, 8);

    // a real key signs a 32-byte digest and nothing shorter
    let client = Client::new_random();
    assert!(client.sign(&[1u8; 32]).is_some());
    assert!(client.sign(&[1u8; 31]).is_none());
}
