use macc_lib::blockchain::{calculate_mining_reward, Blockchain};
use macc_lib::block::Block;
use macc_lib::difficulty::create;
use macc_lib::node::{BlockDecision, Node};
use macc_lib::settings::Settings;
use macc_lib::transaction::{Transaction, UTXO, UTXOU};

fn easy_settings() -> Settings {
    // all-ones start target: every nonce mines, rewards stay small
    Settings::new(2, 30, 5, 10, 100, 3, create(0).unwrap())
}

/// An empty-transaction chain of the given height, valid under the
/// all-ones target; `salt` keeps chains of different origin divergent.
fn empty_chain(height: usize, salt: u64) -> Blockchain {
    let easy = create(0).unwrap();
    let mut chain = Blockchain::new_empty();
    for h in 0..height {
        let prev = if h == 0 {
            [0u8; 32]
        } else {
            chain.at(-1).hash(None)
        };
        chain.0.push(Block::new(salt + h as u64, prev, easy, h, Vec::new()));
    }
    chain
}

#[test]
fn reward_halving_schedule() {
    // halving interval 10, start reward 100 (under 2^7)
    let settings = easy_settings();
    assert_eq!(calculate_mining_reward(0, &settings), 100);
    assert_eq!(calculate_mining_reward(9, &settings), 100);
    assert_eq!(calculate_mining_reward(10, &settings), 50);
    assert_eq!(calculate_mining_reward(20, &settings), 25);
    assert_eq!(calculate_mining_reward(60, &settings), 1);
    // from seven halvings on the reward is and stays zero
    assert_eq!(calculate_mining_reward(70, &settings), 0);
    assert_eq!(calculate_mining_reward(71, &settings), 0);
    assert_eq!(calculate_mining_reward(700, &settings), 0);
    assert_eq!(calculate_mining_reward(1_000_000, &settings), 0);
}

#[test]
fn block_decisions() {
    let settings = easy_settings();
    let mut node = Node::new(settings);
    let local = empty_chain(3, 100);
    let (accepted, _) = node.replace_chain(local);
    assert!(accepted);

    // a block of a shorter or equal chain is stale
    let b = Block::new(1, [0u8; 32], create(0).unwrap(), 0, Vec::new());
    assert_eq!(node.process_block(3, &b), BlockDecision::Stale);

    // the valid immediate successor is accepted
    let prev = node.blockchain.at(-1).hash(None);
    let next = Block::new(200, prev, create(0).unwrap(), 3, Vec::new());
    assert_eq!(node.process_block(4, &next), BlockDecision::AcceptNext);

    // a block claiming a much longer chain prompts a fetch
    assert_eq!(node.process_block(9, &next), BlockDecision::FetchChain);

    // a block of the right height that does not link prompts a fetch too
    let stranger = Block::new(200, [9u8; 32], create(0).unwrap(), 3, Vec::new());
    assert_eq!(node.process_block(4, &stranger), BlockDecision::FetchChain);

    // accepting the successor grows the chain
    node.accept_block(next);
    assert_eq!(node.blockchain.height(), 4);
}

/// Fork choice: a strictly longer, independently valid peer chain replaces
/// the local one wholesale, and pending transactions that depended on a
/// UTXO the new chain lacks are dropped on re-validation.
#[test]
fn fork_choice_replaces_and_drops() {
    let settings = easy_settings();
    let mut node = Node::new(settings);

    // local chain of height 5 whose first block mints an output
    let easy = create(0).unwrap();
    let mut local = Blockchain::new_empty();
    let cb = Transaction::new_coinbase(0, 100, "anyone".to_string());
    let cb_hash = cb.hash();
    local.0.push(Block::new(100, [0u8; 32], easy, 0, vec![cb]));
    for h in 1..5usize {
        let prev = local.at(-1).hash(None);
        local.0.push(Block::new(100 + h as u64, prev, easy, h, Vec::new()));
    }
    let (accepted, requeue) = node.replace_chain(local);
    assert!(accepted);
    assert_eq!(requeue.len(), 0);
    assert_eq!(node.blockchain.height(), 5);

    // a pending transaction spending the minted output is admitted
    let tx = Transaction::new(
        1,
        vec![UTXOU::new(cb_hash, 0, "spend".to_string())],
        vec![UTXO::new(100, "elsewhere".to_string())],
    );
    assert!(node.process_transaction(&tx));
    assert_eq!(node.mem_transactions.transactions.len(), 1);

    // a shorter valid chain does not replace
    let shorter = empty_chain(4, 900);
    let (accepted, _) = node.replace_chain(shorter);
    assert!(!accepted);
    assert_eq!(node.blockchain.height(), 5);

    // a peer chain of height 7 that verifies independently replaces chain
    // and UTXO set wholesale
    let peer = empty_chain(7, 500);
    let (accepted, requeue) = node.replace_chain(peer);
    assert!(accepted);
    assert_eq!(node.blockchain.height(), 7);
    assert_eq!(requeue.len(), 1);

    // the pending transaction's input vanished with the old chain: it is
    // dropped on re-validation
    for tx in &requeue {
        assert!(!node.process_transaction(tx));
    }
    assert_eq!(node.mem_transactions.transactions.len(), 0);
}

#[test]
fn prepare_mining_block_shape() {
    let settings = easy_settings();
    let mut node = Node::new(settings);

    // a chain whose first block mints two outputs to spend
    let easy = create(0).unwrap();
    let mut chain = Blockchain::new_empty();
    let cb = Transaction::new(
        0,
        Vec::new(),
        vec![
            UTXO::new(60, "anyone".to_string()),
            UTXO::new(40, "anyone".to_string()),
        ],
    );
    let cb_hash = cb.hash();
    chain.0.push(Block::new(100, [0u8; 32], easy, 0, vec![cb]));
    let (accepted, _) = node.replace_chain(chain);
    assert!(accepted);

    // two pending transactions with fees 10 and 25
    let low_fee = Transaction::new(
        1,
        vec![UTXOU::new(cb_hash, 0, "a".to_string())],
        vec![UTXO::new(50, "x".to_string())],
    );
    let high_fee = Transaction::new(
        2,
        vec![UTXOU::new(cb_hash, 1, "b".to_string())],
        vec![UTXO::new(15, "y".to_string())],
    );
    assert!(node.process_transaction(&low_fee));
    assert!(node.process_transaction(&high_fee));

    let candidate = node.prepare_mining_block(777, &"miner-address".to_string());
    assert_eq!(candidate.timestamp, 777);
    assert_eq!(candidate.height, 1);
    assert_eq!(candidate.previous, node.blockchain.at(-1).hash(None));
    assert_eq!(candidate.transactions.len(), 3);

    // the coinbase mints reward plus fees and comes first
    let coinbase = &candidate.transactions[0];
    assert_eq!(coinbase.vin.len(), 0);
    assert_eq!(coinbase.nonce, 1);
    assert_eq!(coinbase.vout[0].value, 100 + 10 + 25);

    // the rest is ordered by descending fee
    assert_eq!(candidate.transactions[1].nonce, high_fee.nonce);
    assert_eq!(candidate.transactions[2].nonce, low_fee.nonce);

    // the candidate is the valid next block once a nonce is found
    let mut candidate = candidate;
    candidate.nonce = macc_lib::utils::find_nonce(&candidate, &candidate.difficulty.clone())
        .unwrap();
    let diff = node
        .blockchain
        .adjust_difficulty(node.difficulty, &node.settings);
    assert!(node.blockchain.valid_next(&candidate, &node.store, &diff, &node.settings));
}

#[test]
fn block_range_clamps() {
    let settings = easy_settings();
    let mut node = Node::new(settings);
    let (accepted, _) = node.replace_chain(empty_chain(5, 300));
    assert!(accepted);

    let mid = node.block_range(1, 3);
    assert_eq!(mid.len(), 2);
    assert_eq!(mid[0].height, 1);
    assert_eq!(mid[1].height, 2);

    assert_eq!(node.block_range(3, 99).len(), 2);
    assert_eq!(node.block_range(4, 2).len(), 0);
    assert_eq!(node.block_range(9, 12).len(), 0);
}
