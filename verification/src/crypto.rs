//! The primitives that come from the Bitcoin libraries: hashes, Base58Check,
//! the descriptor checksum, secp256k1 keys and ECDSA, and address and key
//! decoding. Each is a call behind a contract that is taken on trust; what a
//! call returns is named by a function of its arguments.

use vstd::prelude::*;
use crate::network::{AddressKind, Network};

verus! {

/// RIPEMD160(SHA256(`data`)).
pub uninterp spec fn hash160(data: Seq<u8>) -> Seq<u8>;

/// SHA256(SHA256(`data`)).
pub uninterp spec fn sha256d(data: Seq<u8>) -> Seq<u8>;

/// The Base58Check text of `payload`.
pub uninterp spec fn base58check(payload: Seq<u8>) -> Seq<char>;

/// The checksum of a descriptor without its `#` part; `None` where it holds a
/// character outside the descriptor alphabet.
pub uninterp spec fn descriptor_checksum(body: Seq<char>) -> Option<Seq<char>>;

/// Whether `encoded` is the encoding of a point on secp256k1.
pub uninterp spec fn curve_point(encoded: Seq<u8>) -> bool;

/// The compressed public key of a secret scalar; `None` where the scalar is
/// not valid.
pub uninterp spec fn public_key_of(secret: Seq<u8>) -> Option<Seq<u8>>;

/// The DER encoding of the deterministic ECDSA signature of `digest` under `secret`.
pub uninterp spec fn ecdsa_signature(secret: Seq<u8>, digest: Seq<u8>) -> Option<Seq<u8>>;

/// Whether `signature`, in DER, is accepted for `digest` under `public_key`.
pub uninterp spec fn ecdsa_accepts(public_key: Seq<u8>, digest: Seq<u8>, signature: Seq<u8>) -> bool;

/// What an address in text form decodes to: the network its prefix names, the
/// form of its script, and the script that pays to it.
pub uninterp spec fn address_decoding(text: Seq<char>) -> Option<(Network, AddressKind, Seq<u8>)>;

/// What a private key in wallet import format decodes to: its network, whether
/// it asks for compressed public keys, and the secret scalar.
pub uninterp spec fn wif_decoding(text: Seq<char>) -> Option<(Network, bool, Seq<u8>)>;

/// `hash160::Hash::hash` of bitcoin_hashes: the 20-byte RIPEMD160 of the SHA256
/// of `data`.
#[verifier::external_body]
pub(crate) fn compute_hash160(data: &[u8]) -> (digest: Vec<u8>)
    ensures
        digest@ == hash160(data@),
        digest@.len() == 20,
{
    <bdk::bitcoin::hashes::hash160::Hash as bdk::bitcoin::hashes::Hash>::hash(data).to_vec()
}

/// `sha256d::Hash::hash` of bitcoin_hashes: the 32 bytes of SHA256 applied
/// twice, in the order the hash function emits them.
#[verifier::external_body]
pub(crate) fn compute_sha256d(data: &[u8]) -> (digest: Vec<u8>)
    ensures
        digest@ == sha256d(data@),
        digest@.len() == 32,
{
    <bdk::bitcoin::hashes::sha256d::Hash as bdk::bitcoin::hashes::Hash>::hash(data).to_vec()
}

/// `base58::check_encode_slice` of bitcoin: the payload followed by the first
/// four bytes of its double SHA256, in base 58.
#[verifier::external_body]
pub(crate) fn encode_base58check(payload: &[u8]) -> (text: String)
    ensures
        text@ == base58check(payload@),
{
    bdk::bitcoin::util::base58::check_encode_slice(payload)
}

/// `descriptor::checksum::calc_checksum` of bdk: eight characters, or an error
/// where the text holds a character outside the descriptor alphabet.
#[verifier::external_body]
pub(crate) fn compute_descriptor_checksum(body: &str) -> (sum: Option<String>)
    ensures
        match descriptor_checksum(body@) {
            Some(text) => sum is Some && sum.unwrap()@ == text && text.len() == 8,
            None => sum is None,
        },
{
    bdk::descriptor::checksum::calc_checksum(body).ok()
}

/// `PublicKey::from_slice` of secp256k1: whether the bytes parse as a point.
#[verifier::external_body]
pub(crate) fn is_curve_point(encoded: &[u8]) -> (ok: bool)
    ensures
        ok == curve_point(encoded@),
{
    bdk::bitcoin::secp256k1::PublicKey::from_slice(encoded).is_ok()
}

/// `PublicKey::from_secret_key` of secp256k1, serialized in compressed form (33
/// bytes); `None` where `SecretKey::from_slice` refuses the scalar.
#[verifier::external_body]
pub(crate) fn derive_public_key(secret: &[u8]) -> (key: Option<Vec<u8>>)
    ensures
        match public_key_of(secret@) {
            Some(k) => key is Some && key.unwrap()@ == k && k.len() == 33,
            None => key is None,
        },
{
    let scalar = bdk::bitcoin::secp256k1::SecretKey::from_slice(secret).ok()?;
    let context = bdk::bitcoin::secp256k1::Secp256k1::signing_only();
    Some(bdk::bitcoin::secp256k1::PublicKey::from_secret_key(&context, &scalar).serialize().to_vec())
}

/// `Secp256k1::sign_ecdsa` of secp256k1, serialized in DER (at most 72 bytes).
/// The nonce follows RFC 6979, so the signature is a function of the scalar and
/// the digest. It is refused exactly where `SecretKey::from_slice` refuses the
/// scalar or the digest is not 32 bytes long.
#[verifier::external_body]
pub(crate) fn ecdsa_sign(secret: &[u8], digest: &[u8]) -> (signature: Option<Vec<u8>>)
    ensures
        match ecdsa_signature(secret@, digest@) {
            Some(s) => signature is Some && signature.unwrap()@ == s && s.len() <= 72,
            None => signature is None,
        },
        (signature is Some) == (public_key_of(secret@) is Some && digest@.len() == 32),
{
    let scalar = bdk::bitcoin::secp256k1::SecretKey::from_slice(secret).ok()?;
    let message = bdk::bitcoin::secp256k1::Message::from_slice(digest).ok()?;
    let context = bdk::bitcoin::secp256k1::Secp256k1::signing_only();
    Some(context.sign_ecdsa(&message, &scalar).serialize_der().to_vec())
}

/// `Secp256k1::verify_ecdsa` of secp256k1: true where the key, the digest and
/// the DER signature all parse and the signature is correct.
#[verifier::external_body]
pub(crate) fn ecdsa_verify(public_key: &[u8], digest: &[u8], signature: &[u8]) -> (ok: bool)
    ensures
        ok == ecdsa_accepts(public_key@, digest@, signature@),
{
    let key = bdk::bitcoin::secp256k1::PublicKey::from_slice(public_key);
    let message = bdk::bitcoin::secp256k1::Message::from_slice(digest);
    let parsed = bdk::bitcoin::secp256k1::ecdsa::Signature::from_der(signature);
    match (key, message, parsed) {
        (Ok(k), Ok(m), Ok(s)) => bdk::bitcoin::secp256k1::Secp256k1::verification_only()
            .verify_ecdsa(&m, &s, &k).is_ok(),
        _ => false,
    }
}

/// `Address::from_str` of bitcoin, taken apart: the network, the payload's
/// variant, and `script_pubkey()` as bytes.
#[verifier::external_body]
pub(crate) fn decode_address(text: &str) -> (decoded: Option<(Network, AddressKind, Vec<u8>)>)
    ensures
        match address_decoding(text@) {
            Some((network, kind, script)) => decoded is Some && decoded.unwrap().0 == network
                && decoded.unwrap().1 == kind && decoded.unwrap().2@ == script,
            None => decoded is None,
        },
{
    let address = text.parse::<bdk::bitcoin::Address>().ok()?;
    let network = match address.network {
        bdk::bitcoin::Network::Bitcoin => Network::Bitcoin,
        bdk::bitcoin::Network::Testnet => Network::Testnet,
        bdk::bitcoin::Network::Signet => Network::Signet,
        bdk::bitcoin::Network::Regtest => Network::Regtest,
    };
    let kind = match address.payload {
        bdk::bitcoin::util::address::Payload::PubkeyHash(_) => AddressKind::PubkeyHash,
        bdk::bitcoin::util::address::Payload::ScriptHash(_) => AddressKind::ScriptHash,
        bdk::bitcoin::util::address::Payload::WitnessProgram { .. } => AddressKind::WitnessProgram,
    };
    Some((network, kind, address.script_pubkey().to_bytes()))
}

/// `PrivateKey::from_wif` of bitcoin, taken apart: the network, the compression
/// flag and the 32 bytes of the scalar.
#[verifier::external_body]
pub(crate) fn decode_wif(text: &str) -> (decoded: Option<(Network, bool, Vec<u8>)>)
    ensures
        match wif_decoding(text@) {
            Some((network, compressed, secret)) => decoded is Some && decoded.unwrap().0 == network
                && decoded.unwrap().1 == compressed && decoded.unwrap().2@ == secret
                && secret.len() == 32,
            None => decoded is None,
        },
{
    let key = bdk::bitcoin::PrivateKey::from_wif(text).ok()?;
    let network = match key.network {
        bdk::bitcoin::Network::Bitcoin => Network::Bitcoin,
        bdk::bitcoin::Network::Testnet => Network::Testnet,
        bdk::bitcoin::Network::Signet => Network::Signet,
        bdk::bitcoin::Network::Regtest => Network::Regtest,
    };
    Some((network, key.compressed, key.inner.secret_bytes().to_vec()))
}

} // verus!
