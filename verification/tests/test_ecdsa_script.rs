use macc_lib::ecdsa::{create_lock, msg_from_str, valid_signature, Client};
use macc_lib::hex;
use macc_lib::script;

#[test]
fn test_ecdsa_with_script() {
    // test signing
    let client = Client::new_random();

    let message = msg_from_str("Hello, World!");

    let sig = client.sign(&message).expect("couldn't sign the digest");

    assert!(valid_signature(&message, &sig, &client.pb_key));

    // test script
    let lock = create_lock(&client.pb_key);

    let solution = format!(
        "{} {} {}",
        hex::encode(&message),
        hex::encode(&sig),
        hex::encode(&client.pb_key),
    );

    let stack = script::eval(&format!("{} {}", solution, lock));

    let valid = stack.is_some();

    assert!(valid);
}
