use macc_lib::blockchain::{calculate_mining_reward, Blockchain};
use macc_lib::block::Block;
use macc_lib::difficulty;
use macc_lib::ecdsa::{create_lock, Client};
use macc_lib::settings::Settings;
use macc_lib::transaction::Transaction;
use macc_lib::txstore::TxStore;
use macc_lib::utils::{current_time, find_nonce};

#[test]
fn test_blockchain_full() {
    // init settings
    let settings = Settings::default();

    // create blockchain
    let mut bc = Blockchain::new_empty();
    // create store
    let mut store = TxStore::new_empty();
    // create start difficulty
    let diff = difficulty::create(1).unwrap();

    // setup for key & script handling
    let mut miner_client = Client::new_random();
    let my_client = Client::new_random();

    // create coinbase transaction
    let reward = calculate_mining_reward(bc.height(), &settings);
    let lock = create_lock(&miner_client.pb_key);
    let cb_tx = Transaction::new_coinbase(bc.height(), reward, lock);
    let cb_hash = cb_tx.hash();

    // create a block holding it; the first block's previous hash is the
    // zero sentinel
    let mut b = Block::new(current_time(), [0u8; 32], diff, 0, vec![cb_tx]);

    // find & set nonce for block
    b.nonce = find_nonce(&b, &diff).expect("no nonce satisfies the target");

    // check if block can be added
    let can_be_added = bc.valid_next(&b, &store, &diff, &settings);
    assert!(can_be_added);

    // add block
    bc.add(&mut store, b);

    // create our own transaction in which the miner sends half of his
    // previous mining reward to our address and the other half back to
    // himself
    let input = vec![(cb_hash, 0usize)];
    let output = vec![
        (reward / 2, my_client.pb_key.clone()),
        (reward - (reward / 2), miner_client.pb_key.clone()),
    ];
    let tx = miner_client
        .create_transaction(input, output)
        .expect("Couldn't create the transaction!");
    let tx_hash = tx.hash();

    // create the next block
    let previous = bc.at(-1).hash(None);
    let mut b = Block::new(current_time(), previous, diff, 1, vec![tx]);

    // find & set nonce for block
    b.nonce = find_nonce(&b, &diff).expect("no nonce satisfies the target");

    // check if block can be added
    let can_be_added = bc.valid_next(&b, &store, &diff, &settings);
    assert!(can_be_added);

    // add block
    bc.add(&mut store, b);

    println!("Transaction {} added!", macc_lib::hex::encode(&tx_hash));
}
