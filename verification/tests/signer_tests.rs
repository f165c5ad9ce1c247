use btc_multisig::encoding::hex_encode;
use btc_multisig::{Network, ParseError, Signer};

fn wif_of(secret: &[u8; 32], network: bdk::bitcoin::Network, compressed: bool) -> String {
    let inner = bdk::bitcoin::secp256k1::SecretKey::from_slice(secret).unwrap();
    bdk::bitcoin::PrivateKey { compressed, network, inner }.to_wif()
}

fn wif_error(text: &str, network: Network) -> ParseError {
    match Signer::from_wif(text, network) {
        Ok(_) => panic!("accepted"),
        Err(e) => e,
    }
}

#[test]
fn public_key_of_the_scalar_one() {
    let mut one = [0u8; 32];
    one[31] = 1;
    let signer = Signer::from_secret(&one, Network::Testnet).expect("1 is a valid scalar");
    assert_eq!(
        hex_encode(signer.public_key()),
        b"0279be667ef9dcbbac55a06295ce870b07029bfcdb2dce28d959f2815b16f81798".to_vec()
    );
    assert_eq!(signer.network(), Network::Testnet);
}

#[test]
fn scalars_out_of_range_are_refused() {
    assert!(Signer::from_secret(&[0u8; 32], Network::Testnet).is_none());
    assert!(Signer::from_secret(&[0xffu8; 32], Network::Testnet).is_none());
    assert!(Signer::from_secret(&[1u8; 31], Network::Testnet).is_none());
    assert!(Signer::from_secret(&[1u8; 33], Network::Testnet).is_none());
    assert!(Signer::from_secret(&[], Network::Testnet).is_none());
}

#[test]
fn testnet_key_in_import_format() {
    let wif = wif_of(&[1u8; 32], bdk::bitcoin::Network::Testnet, true);
    let signer = Signer::from_wif(&wif, Network::Testnet).expect("a testnet key");
    let direct = Signer::from_secret(&[1u8; 32], Network::Testnet).unwrap();
    assert_eq!(signer.public_key(), direct.public_key());
    assert_eq!(signer.public_key().len(), 33);
    assert!(Signer::from_wif(&wif, Network::Regtest).is_ok());
    assert!(Signer::from_wif(&wif, Network::Signet).is_ok());
}

#[test]
fn known_key_in_import_format() {
    let signer = Signer::from_wif("cVt4o7BGAig1UXywgGSmARhxMdzP5qvQsxKkSsc1XEkw3tDTQFpy", Network::Testnet)
        .expect("a testnet key");
    let key = bdk::bitcoin::PrivateKey::from_wif("cVt4o7BGAig1UXywgGSmARhxMdzP5qvQsxKkSsc1XEkw3tDTQFpy").unwrap();
    let secp = bdk::bitcoin::secp256k1::Secp256k1::new();
    assert_eq!(signer.public_key(), &key.public_key(&secp).to_bytes());
}

#[test]
fn key_of_another_network_is_refused() {
    let testnet = wif_of(&[1u8; 32], bdk::bitcoin::Network::Testnet, true);
    assert_eq!(wif_error(&testnet, Network::Bitcoin), ParseError::WrongKeyNetwork);
    let mainnet = "5HueCGU8rMjxEXxiPuD5BDku4MkFqeZyd4dZ1jvhTVqvbTLvyTJ";
    assert_eq!(wif_error(mainnet, Network::Testnet), ParseError::WrongKeyNetwork);
    assert_eq!(wif_error(mainnet, Network::Regtest), ParseError::WrongKeyNetwork);
    assert!(Signer::from_wif(mainnet, Network::Bitcoin).is_ok());
}

#[test]
fn uncompressed_import_format_still_gives_the_compressed_key() {
    let wif = wif_of(&[9u8; 32], bdk::bitcoin::Network::Testnet, false);
    let signer = Signer::from_wif(&wif, Network::Testnet).unwrap();
    assert_eq!(signer.public_key().len(), 33);
    assert_eq!(signer.public_key(), Signer::from_secret(&[9u8; 32], Network::Testnet).unwrap().public_key());
}

#[test]
fn damaged_import_format_is_refused() {
    let wif = wif_of(&[1u8; 32], bdk::bitcoin::Network::Testnet, true);
    let mut damaged = wif.clone();
    let last = damaged.pop().unwrap();
    damaged.push(if last == '1' { '2' } else { '1' });
    assert_eq!(wif_error(&damaged, Network::Testnet), ParseError::BadWif);
    assert_eq!(wif_error("", Network::Testnet), ParseError::BadWif);
    assert_eq!(wif_error("not a key", Network::Testnet), ParseError::BadWif);
    assert_eq!(wif_error("mnzUjWRB8QEmVXi4q8K8wP8YTScZ5JzQD2", Network::Testnet), ParseError::BadWif);
}

#[test]
fn discarding_a_signer_gives_it_up() {
    let signer = Signer::from_secret(&[5u8; 32], Network::Testnet).unwrap();
    signer.discard();
}
