use macc_lib::blockchain::{calculate_mining_reward, is_valid_tx, Blockchain};
use macc_lib::block::Block;
use macc_lib::difficulty;
use macc_lib::ecdsa::{create_lock, pb_key_to_addr, Client};
use macc_lib::settings::Settings;
use macc_lib::transaction::{Transaction, UTXO, UTXOU};
use macc_lib::txstore::TxStore;
use macc_lib::utils::find_nonce;

fn test_settings(start_difficulty: [u8; 32]) -> Settings {
    Settings::new(2, 30, 5, 10, 100, 3, start_difficulty)
}

/// A block containing two transactions that each spend the same output must
/// be rejected even though each transaction alone validates.
#[test]
fn double_spend_in_one_block_rejected() {
    let settings = test_settings(difficulty::create(0).unwrap());
    let easy = difficulty::create(0).unwrap();

    let mut store = TxStore::new_empty();
    let source = [7u8; 32];
    store.set(&source, 0, UTXO::new(50, "anyone".to_string()));

    let tx1 = Transaction::new(
        1,
        vec![UTXOU::new(source, 0, "a".to_string())],
        vec![UTXO::new(50, "x".to_string())],
    );
    let tx2 = Transaction::new(
        2,
        vec![UTXOU::new(source, 0, "b".to_string())],
        vec![UTXO::new(50, "y".to_string())],
    );

    // each alone validates against the pre-block UTXO set
    assert!(is_valid_tx(&tx1, &store));
    assert!(is_valid_tx(&tx2, &store));

    let bc = Blockchain::new_empty();

    // together they double-spend
    let both = Block::new(100, [0u8; 32], easy, 0, vec![tx1.clone(), tx2]);
    assert!(!bc.valid_next(&both, &store, &easy, &settings));

    // one alone is accepted
    let single = Block::new(100, [0u8; 32], easy, 0, vec![tx1]);
    assert!(bc.valid_next(&single, &store, &easy, &settings));
}

/// End to end: mine a coinbase block from genesis, spend the minted output
/// in a second mined block, and watch the UTXO set follow.
#[test]
fn end_to_end_two_blocks() {
    let diff = difficulty::create(1).unwrap();
    let settings = Settings::new(2, 30, 5, 43200, 3_000_000, 3, diff);

    let mut bc = Blockchain::new_empty();
    let mut store = TxStore::new_empty();

    let mut miner = Client::new_random();
    let other = Client::new_random();

    let reward = calculate_mining_reward(0, &settings);
    assert_eq!(reward, 3_000_000);

    // block at height 0: only the coinbase
    let cb = Transaction::new_coinbase(0, reward, create_lock(&miner.pb_key));
    let cb_hash = cb.hash();
    let mut b0 = Block::new(100, [0u8; 32], diff, 0, vec![cb]);
    b0.nonce = find_nonce(&b0, &diff).unwrap();
    assert!(bc.valid_next(&b0, &store, &diff, &settings));
    bc.add(&mut store, b0);

    // exactly one spendable output, the reward, locked to the miner
    let minted = store.get(&cb_hash, 0).expect("coinbase output missing");
    assert_eq!(minted.value, reward);
    assert_eq!(minted.lock, create_lock(&miner.pb_key));

    // spend it: half to the other client, the rest back to the miner
    let tx = miner
        .create_transaction(
            vec![(cb_hash, 0usize)],
            vec![
                (reward / 2, other.pb_key.clone()),
                (reward - reward / 2, miner.pb_key.clone()),
            ],
        )
        .unwrap();
    let tx_hash = tx.hash();

    let previous = bc.at(-1).hash(None);
    let mut b1 = Block::new(101, previous, diff, 1, vec![tx]);
    b1.nonce = find_nonce(&b1, &diff).unwrap();
    assert!(bc.valid_next(&b1, &store, &diff, &settings));
    bc.add(&mut store, b1);

    // the first output is gone, the two new ones are there
    assert!(store.get(&cb_hash, 0).is_none());
    let to_other = store.get(&tx_hash, 0).expect("first output missing");
    assert_eq!(to_other.value, reward / 2);
    assert!(to_other.lock.contains(&pb_key_to_addr(&other.pb_key)));
    let back = store.get(&tx_hash, 1).expect("second output missing");
    assert_eq!(back.value, reward - reward / 2);
    assert!(back.lock.contains(&pb_key_to_addr(&miner.pb_key)));

    // the whole chain replays: bulk validation agrees with the
    // incrementally built UTXO set
    let (replayed, replayed_diff) = bc.is_valid(&settings).expect("chain must replay");
    assert!(replayed.get(&cb_hash, 0).is_none());
    assert_eq!(replayed.get(&tx_hash, 0).unwrap().value, reward / 2);
    assert_eq!(
        replayed.get(&tx_hash, 1).unwrap().value,
        reward - reward / 2
    );
    assert_eq!(replayed_diff, diff);
}

/// Mutating stored bytes of a valid chain makes the replay fail.
#[test]
fn mutated_chain_rejected() {
    let diff = difficulty::create(1).unwrap();
    let settings = Settings::new(2, 30, 5, 43200, 3_000_000, 3, diff);

    let mut bc = Blockchain::new_empty();
    let mut store = TxStore::new_empty();
    let miner = Client::new_random();
    let reward = calculate_mining_reward(0, &settings);

    let cb0 = Transaction::new_coinbase(0, reward, create_lock(&miner.pb_key));
    let mut b0 = Block::new(100, [0u8; 32], diff, 0, vec![cb0]);
    b0.nonce = find_nonce(&b0, &diff).unwrap();
    assert!(bc.valid_next(&b0, &store, &diff, &settings));
    bc.add(&mut store, b0);

    let cb1 = Transaction::new_coinbase(1, reward, create_lock(&miner.pb_key));
    let previous = bc.at(-1).hash(None);
    let mut b1 = Block::new(101, previous, diff, 1, vec![cb1]);
    b1.nonce = find_nonce(&b1, &diff).unwrap();
    assert!(bc.valid_next(&b1, &store, &diff, &settings));
    bc.add(&mut store, b1);

    assert!(bc.is_valid(&settings).is_some());

    // a flipped byte in a block's previous-hash breaks the link
    let mut broken = bc.clone();
    broken.0[1].previous[0] ^= 1;
    assert!(broken.is_valid(&settings).is_none());

    // a changed coinbase nonce no longer matches the height
    let mut broken = bc.clone();
    broken.0[0].transactions[0].nonce = 5;
    assert!(broken.is_valid(&settings).is_none());

    // a changed stored difficulty no longer matches the derived one
    let mut broken = bc.clone();
    broken.0[0].difficulty[31] ^= 1;
    assert!(broken.is_valid(&settings).is_none());

    // a raised coinbase value overshoots the reward
    let mut broken = bc.clone();
    broken.0[1].transactions[0].vout[0].value = reward + 1;
    assert!(broken.is_valid(&settings).is_none());
}

/// An empty chain replays to the empty ledger and the starting target.
#[test]
fn empty_chain_replays() {
    let diff = difficulty::create(1).unwrap();
    let settings = Settings::new(2, 30, 5, 43200, 3_000_000, 3, diff);
    let bc = Blockchain::new_empty();
    let (store, replayed_diff) = bc.is_valid(&settings).unwrap();
    assert_eq!(store.entries.len(), 0);
    assert_eq!(replayed_diff, diff);
}

/// A genesis block whose previous hash is not the zero sentinel is refused.
#[test]
fn genesis_sentinel_enforced() {
    let settings = test_settings(difficulty::create(0).unwrap());
    let easy = difficulty::create(0).unwrap();
    let bc = Blockchain::new_empty();
    let store = TxStore::new_empty();

    let good = Block::new(100, [0u8; 32], easy, 0, Vec::new());
    assert!(bc.valid_next(&good, &store, &easy, &settings));

    let bad = Block::new(100, [1u8; 32], easy, 0, Vec::new());
    assert!(!bc.valid_next(&bad, &store, &easy, &settings));

    // a wrong height field is refused as well
    let bad_height = Block::new(100, [0u8; 32], easy, 3, Vec::new());
    assert!(!bc.valid_next(&bad_height, &store, &easy, &settings));

    // two coinbase transactions in one block are refused
    let cb1 = Transaction::new_coinbase(0, 10, "a".to_string());
    let cb2 = Transaction::new_coinbase(0, 10, "b".to_string());
    let two = Block::new(100, [0u8; 32], easy, 0, vec![cb1.clone(), cb2]);
    assert!(!bc.valid_next(&two, &store, &easy, &settings));

    // a coinbase whose nonce is not the height is refused
    let wrong_nonce = Transaction::new_coinbase(4, 10, "a".to_string());
    let block = Block::new(100, [0u8; 32], easy, 0, vec![wrong_nonce]);
    assert!(!bc.valid_next(&block, &store, &easy, &settings));

    // a coinbase minting more than reward plus fees is refused
    let greedy = Transaction::new_coinbase(0, 101, "a".to_string());
    let block = Block::new(100, [0u8; 32], easy, 0, vec![greedy]);
    assert!(!bc.valid_next(&block, &store, &easy, &settings));

    // up to the reward it is accepted
    let fair = Block::new(100, [0u8; 32], easy, 0, vec![cb1]);
    assert!(bc.valid_next(&fair, &store, &easy, &settings));
}
