//! Keys, signatures and addresses. The elliptic-curve operations and the
//! Base58 text encoding live in outside crates behind named, trusted
//! wrappers; address derivation, locks and solutions are verified on top.

use vstd::prelude::*;
use vstd::string::StrSliceExecFns;
use vstd::string::StringExecFns;
use crate::hashes::{sha256, sha256_of, ripemd160, ripemd160_of, checksum, checksum_of};
use crate::hex::hex_enc;
use crate::encode::enc_u64;
use crate::transaction::{Transaction, UTXO, UTXOU, UtxoV, UtxouV};

verus! {

/// Whether the compact-encoded ECDSA signature verifies for the 32-byte
/// digest under the serialized public key; false as well when any of the
/// three byte strings fails to parse.
pub uninterp spec fn sig_check(msg: Seq<u8>, sig: Seq<u8>, pk: Seq<u8>) -> bool;

/// The compressed serialization of the public key derived from a 32-byte
/// secret key.
pub uninterp spec fn pk_of_sk(sk: Seq<u8>) -> Seq<u8>;

/// Whether 32 bytes form a usable secret key: nonzero and below the curve
/// order, a function of the bytes alone.
pub uninterp spec fn sk_ok(sk: Seq<u8>) -> bool;

/// The compact RFC 6979 ECDSA signature of a 32-byte digest under a secret
/// key: deterministic, a function of the two byte strings alone.
pub uninterp spec fn ecdsa_sig(sk: Seq<u8>, msg: Seq<u8>) -> Seq<u8>;

/// The Base58 text of a byte string.
pub uninterp spec fn base58_of(data: Seq<u8>) -> Seq<char>;

/// Relies on secp256k1: Message::from_digest_slice, ecdsa::Signature::from_compact,
/// PublicKey::from_slice and ecdsa::verify. The outcome is a function of the
/// three byte strings alone; a parse failure verifies as false.
#[verifier::external_body]
pub fn valid_signature(message: &[u8], signature: &[u8], pb_key: &[u8]) -> (r: bool)
    ensures
        r == sig_check(message@, signature@, pb_key@),
{
    let msg = secp256k1::Message::from_digest_slice(message);
    let sig = secp256k1::ecdsa::Signature::from_compact(signature);
    let pk = secp256k1::PublicKey::from_slice(pb_key);
    match (msg, sig, pk) {
        (Ok(m), Ok(s), Ok(p)) => secp256k1::ecdsa::verify(&s, m, &p).is_ok(),
        _ => false,
    }
}

/// Relies on secp256k1: SecretKey::from_secret_bytes (succeeds exactly on a
/// usable key), Message::from_digest_slice (succeeds exactly on 32 bytes),
/// ecdsa::sign (RFC 6979 nonces, deterministic) and
/// Signature::serialize_compact. A signature it returns verifies under the
/// secret key's public key.
#[verifier::external_body]
pub fn sign_message(sk_key: &[u8], message: &[u8]) -> (r: Option<Vec<u8>>)
    ensures
        r is Some ==> sk_key@.len() == 32 && sk_ok(sk_key@) && message@.len() == 32,
        r is None ==> !(sk_key@.len() == 32 && sk_ok(sk_key@) && message@.len() == 32),
        r is Some ==> r->Some_0@ == ecdsa_sig(sk_key@, message@),
        r is Some ==> sig_check(message@, ecdsa_sig(sk_key@, message@), pk_of_sk(sk_key@)),
{
    let arr: [u8; 32] = sk_key.try_into().ok()?;
    let sk = secp256k1::SecretKey::from_secret_bytes(arr).ok()?;
    let msg = secp256k1::Message::from_digest_slice(message).ok()?;
    Some(secp256k1::ecdsa::sign(msg, &sk).serialize_compact().to_vec())
}

/// Relies on secp256k1::generate_keypair with rand::rng(): a fresh key pair
/// whose serialized public key is the one derived from the secret key.
/// SecretKey::new retries until from_secret_bytes accepts, so the secret key
/// is usable. The keys themselves are random; nothing else is promised.
#[verifier::external_body]
pub fn generate_keypair() -> (r: (Vec<u8>, Vec<u8>))
    ensures
        r.0@.len() == 32,
        sk_ok(r.0@),
        r.1@ == pk_of_sk(r.0@),
{
    let (sk, pk) = secp256k1::generate_keypair(&mut secp256k1::rand::rng());
    (sk.to_secret_bytes().to_vec(), pk.serialize().to_vec())
}

/// Relies on secp256k1: SecretKey::from_secret_bytes, PublicKey::from_secret_key
/// and PublicKey::serialize: the serialized public key of a secret key.
#[verifier::external_body]
pub fn derive_pb_key(sk_key: &[u8]) -> (r: Option<Vec<u8>>)
    ensures
        r is Some ==> sk_key@.len() == 32 && sk_ok(sk_key@),
        r is None ==> !(sk_key@.len() == 32 && sk_ok(sk_key@)),
        r is Some ==> r->Some_0@ == pk_of_sk(sk_key@),
{
    let arr: [u8; 32] = sk_key.try_into().ok()?;
    let sk = secp256k1::SecretKey::from_secret_bytes(arr).ok()?;
    Some(secp256k1::PublicKey::from_secret_key(&sk).serialize().to_vec())
}

/// A character of the Bitcoin Base58 alphabet: the digits and letters with
/// 0, O, I and l left out.
pub open spec fn is_base58_char(c: char) -> bool {
    let u = c as u32;
    (49 <= u && u <= 57) || (65 <= u && u <= 90 && u != 73 && u != 79) || (97 <= u && u <= 122
        && u != 108)
}

/// Relies on bs58::encode(..).into_string() with the default Bitcoin
/// alphabet: the Base58 text of a byte string, a function of the bytes
/// alone. Every output character is an alphabet character; the output
/// carries one character per leading zero byte and one per base-58 digit of
/// the remaining value, so it is at least as long as the input.
#[verifier::external_body]
pub fn base58_encode(data: &[u8]) -> (r: String)
    ensures
        r@ == base58_of(data@),
        r@.len() >= data@.len(),
        forall|i: int| 0 <= i < r@.len() ==> is_base58_char(#[trigger] r@[i]),
{
    bs58::encode(data).into_string()
}

/// The address payload of a public key: a version byte, the RIPEMD-160 of
/// the SHA-256 of the key, and a four-byte checksum of those 21 bytes.
pub open spec fn addr_payload(pk: Seq<u8>) -> Seq<u8> {
    let body = seq![0u8] + ripemd160_of(sha256_of(pk));
    body + checksum_of(body)
}

/// The Base58 address text of a serialized public key.
pub open spec fn addr_of(pk: Seq<u8>) -> Seq<char> {
    base58_of(addr_payload(pk))
}

/// Derives the Base58 address of a serialized public key. The 25-byte
/// payload keeps the address at least 25 characters of the Base58 alphabet,
/// so an address always stands as one script token and matches no opcode.
pub fn pb_key_to_addr(pk: &[u8]) -> (r: String)
    ensures
        r@ == addr_of(pk@),
        r@.len() >= 25,
        forall|i: int| 0 <= i < r@.len() ==> is_base58_char(#[trigger] r@[i]),
{
    let sha = sha256(pk);
    let ripe = ripemd160(sha.as_slice());
    let mut payload: Vec<u8> = Vec::new();
    payload.push(0u8);
    let mut ripe_tail = ripe;
    payload.append(&mut ripe_tail);
    proof {
        assert(payload@ =~= seq![0u8] + ripemd160_of(sha256_of(pk@)));
    }
    let mut cs = checksum(payload.as_slice());
    payload.append(&mut cs);
    proof {
        assert(payload@ =~= addr_payload(pk@));
    }
    base58_encode(payload.as_slice())
}

/// The standard lock: the spender must present a public key that signs the
/// spend and whose address equals the given one.
pub open spec fn lock_script(addr: Seq<char>) -> Seq<char> {
    "verify_sig to_addr "@ + addr + " eq"@
}

/// The standard lock for an address.
pub fn create_lock_with_addr(address: &String) -> (r: String)
    ensures
        r@ == lock_script(address@),
{
    let mut r = String::from_str("verify_sig to_addr ");
    r.append(address.as_str());
    r.append(" eq");
    r
}

/// The standard lock for a serialized public key.
pub fn create_lock(pb_key: &[u8]) -> (r: String)
    ensures
        r@ == lock_script(addr_of(pb_key@)),
{
    let addr = pb_key_to_addr(pb_key);
    create_lock_with_addr(&addr)
}

/// The digest that stands for a string message: the SHA-256 of its UTF-8
/// bytes.
pub fn msg_from_str(message: &str) -> (r: [u8; 32])
    ensures
        r@ == sha256_of(vstd::utf8::encode_utf8(message@)),
{
    let bytes = message.as_bytes_vec();
    sha256(bytes.as_slice())
}

/// The digest identifying one spend reference: the SHA-256 of the source
/// transaction hash followed by the encoded output index.
pub open spec fn utxou_digest(tx_hash: Seq<u8>, index: usize) -> Seq<u8> {
    sha256_of(tx_hash + enc_u64(index as u64))
}

/// Hashes a spend reference to the digest its solution signs.
pub fn hash_utxou(tx_hash: &[u8; 32], index: usize) -> (r: [u8; 32])
    ensures
        r@ == utxou_digest(tx_hash@, index),
{
    let mut bytes: Vec<u8> = Vec::new();
    crate::encode::push_bytes(&mut bytes, tx_hash.as_slice());
    crate::encode::push_u64(&mut bytes, index as u64);
    sha256(bytes.as_slice())
}

/// The standard solution text: the signed digest, the signature and the
/// public key, hex-encoded, so that evaluation leaves the key on top.
pub open spec fn solution_script(msg: Seq<u8>, sig: Seq<u8>, pk: Seq<u8>) -> Seq<char> {
    hex_enc(msg) + seq![' '] + hex_enc(sig) + seq![' '] + hex_enc(pk)
}

/// A key pair with a transaction nonce, as a wallet holds it.
pub struct Client {
    pub pb_key: Vec<u8>,
    pub sk_key: Vec<u8>,
    pub nonce: u128,
}

impl Clone for Client {
    fn clone(&self) -> (r: Self)
        ensures
            r.pb_key@ == self.pb_key@,
            r.sk_key@ == self.sk_key@,
            r.nonce == self.nonce,
    {
        Client { pb_key: self.pb_key.clone(), sk_key: self.sk_key.clone(), nonce: self.nonce }
    }
}

impl Client {
    /// A client from hex-encoded keys.
    pub fn new(sk_key: &str, pb_key: &str, nonce: u128) -> (r: Option<Client>)
        ensures
            r is Some <==> crate::hex::is_hex_str(sk_key@) && crate::hex::is_hex_str(pb_key@),
            r is Some ==> crate::hex::hex_dec(sk_key@) == Some(r->Some_0.sk_key@),
            r is Some ==> crate::hex::hex_dec(pb_key@) == Some(r->Some_0.pb_key@),
            r is Some ==> r->Some_0.nonce == nonce,
    {
        let sk = match crate::hex::decode(sk_key) {
            Some(b) => b,
            None => {
                return None;
            },
        };
        let pb = match crate::hex::decode(pb_key) {
            Some(b) => b,
            None => {
                return None;
            },
        };
        Some(Client { pb_key: pb, sk_key: sk, nonce })
    }

    /// A client with a freshly generated key pair.
    pub fn new_random() -> (r: Client)
        ensures
            r.sk_key@.len() == 32,
            sk_ok(r.sk_key@),
            r.pb_key@ == pk_of_sk(r.sk_key@),
            r.nonce == 0,
    {
        let (sk, pb) = generate_keypair();
        Client { pb_key: pb, sk_key: sk, nonce: 0 }
    }

    /// Signs a 32-byte digest with the client's secret key; succeeds exactly
    /// when the key is usable and the digest is 32 bytes.
    pub fn sign(&self, message: &[u8]) -> (r: Option<Vec<u8>>)
        ensures
            r is Some <==> self.sk_key@.len() == 32 && sk_ok(self.sk_key@) && message@.len()
                == 32,
            r is Some ==> r->Some_0@ == ecdsa_sig(self.sk_key@, message@),
    {
        sign_message(self.sk_key.as_slice(), message)
    }

    /// The solution unlocking one spend reference: signs the reference's
    /// digest and lays out digest, signature and public key as hex text;
    /// succeeds exactly when the key is usable.
    pub fn create_solution(&self, tx_hash: &[u8; 32], index: usize) -> (r: Option<String>)
        ensures
            r is Some <==> self.sk_key@.len() == 32 && sk_ok(self.sk_key@),
            r is Some ==> r->Some_0@ == solution_script(
                utxou_digest(tx_hash@, index),
                ecdsa_sig(self.sk_key@, utxou_digest(tx_hash@, index)),
                self.pb_key@,
            ),
    {
        let digest = hash_utxou(tx_hash, index);
        let sig = match self.sign(digest.as_slice()) {
            Some(s) => s,
            None => {
                return None;
            },
        };
        let mut r = crate::hex::encode(digest.as_slice());
        r.append(" ");
        let sig_hex = crate::hex::encode(sig.as_slice());
        r.append(sig_hex.as_str());
        r.append(" ");
        let pk_hex = crate::hex::encode(self.pb_key.as_slice());
        r.append(pk_hex.as_str());
        proof {
            reveal_strlit(" ");
            assert(" "@ =~= seq![' ']);
            assert(r@ =~= solution_script(
                utxou_digest(tx_hash@, index),
                ecdsa_sig(self.sk_key@, utxou_digest(tx_hash@, index)),
                self.pb_key@,
            ));
        }
        Some(r)
    }

    /// Builds a transaction spending the given references to the given
    /// receivers, with a solution signed for every input and the standard
    /// lock for every output; bumps the client's nonce. It succeeds exactly
    /// when the nonce can still grow and, for a spend with inputs, the key
    /// is usable.
    pub fn create_transaction(
        &mut self,
        input: Vec<([u8; 32], usize)>,
        output: Vec<(u128, Vec<u8>)>,
    ) -> (r: Option<Transaction>)
        ensures
            final(self).pb_key@ == old(self).pb_key@,
            final(self).sk_key@ == old(self).sk_key@,
            r is Some <==> old(self).nonce < u128::MAX && (input@.len() == 0 || (old(
                self,
            ).sk_key@.len() == 32 && sk_ok(old(self).sk_key@))),
            r is Some ==> final(self).nonce == old(self).nonce + 1,
            r is None ==> final(self).nonce == old(self).nonce,
            r is Some ==> {
                let tx = r->Some_0;
                &&& tx.nonce == old(self).nonce
                &&& tx@.vin.len() == input@.len()
                &&& forall|i: int|
                    0 <= i < input@.len() ==> (#[trigger] tx@.vin[i]) == (UtxouV {
                        tx_hash: input@[i].0@,
                        index: input@[i].1,
                        solution: solution_script(
                            utxou_digest(input@[i].0@, input@[i].1),
                            ecdsa_sig(old(self).sk_key@, utxou_digest(input@[i].0@, input@[i].1)),
                            old(self).pb_key@,
                        ),
                    })
                &&& tx@.vout.len() == output@.len()
                &&& forall|i: int|
                    0 <= i < output@.len() ==> (#[trigger] tx@.vout[i]) == (UtxoV {
                        value: output@[i].0,
                        lock: lock_script(addr_of(output@[i].1@)),
                    })
            },
    {
        if self.nonce == u128::MAX {
            return None;
        }
        let mut vin: Vec<UTXOU> = Vec::new();
        let mut i: usize = 0;
        while i < input.len()
            invariant
                i <= input@.len(),
                vin@.len() == i,
                forall|j: int|
                    0 <= j < i ==> (#[trigger] vin@[j]@) == (UtxouV {
                        tx_hash: input@[j].0@,
                        index: input@[j].1,
                        solution: solution_script(
                            utxou_digest(input@[j].0@, input@[j].1),
                            ecdsa_sig(self.sk_key@, utxou_digest(input@[j].0@, input@[j].1)),
                            self.pb_key@,
                        ),
                    }),
                self.pb_key@ == old(self).pb_key@,
                self.sk_key@ == old(self).sk_key@,
                self.nonce == old(self).nonce,
                i > 0 ==> self.sk_key@.len() == 32 && sk_ok(self.sk_key@),
            decreases input@.len() - i,
        {
            let (hash, index) = (input[i].0, input[i].1);
            let solution = match self.create_solution(&hash, index) {
                Some(s) => s,
                None => {
                    return None;
                },
            };
            vin.push(UTXOU { tx_hash: hash, index, solution });
            i = i + 1;
        }
        let mut vout: Vec<UTXO> = Vec::new();
        let mut k: usize = 0;
        while k < output.len()
            invariant
                k <= output@.len(),
                vout@.len() == k,
                forall|j: int|
                    0 <= j < k ==> (#[trigger] vout@[j]@) == (UtxoV {
                        value: output@[j].0,
                        lock: lock_script(addr_of(output@[j].1@)),
                    }),
                self.pb_key@ == old(self).pb_key@,
                self.sk_key@ == old(self).sk_key@,
                self.nonce == old(self).nonce,
            decreases output@.len() - k,
        {
            let lock = create_lock(output[k].1.as_slice());
            vout.push(UTXO { value: output[k].0, lock });
            k = k + 1;
        }
        let tx = Transaction { nonce: self.nonce, vin, vout };
        self.nonce = self.nonce + 1;
        Some(tx)
    }
}

} // verus!
