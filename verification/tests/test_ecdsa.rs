use macc_lib::ecdsa::{create_lock_with_addr, pb_key_to_addr, Client};
use macc_lib::script;
use macc_lib::transaction::UTXOU;

#[test]
fn test_with_script() {
    let utxou = UTXOU::new([0u8; 32], 0, String::new());
    let client = Client::new_random();

    let addr = pb_key_to_addr(&client.pb_key);
    let lock = create_lock_with_addr(&addr);
    let solution = client
        .create_solution(&utxou.tx_hash, utxou.index)
        .expect("couldn't sign the spend reference");

    assert!(script::eval(&format!("{} {}", solution, lock)).is_some());
}
