use btc_multisig::descriptor_text::parse_descriptor_text;
use btc_multisig::encoding::hex_encode;
use btc_multisig::{Descriptor, Network, ParseError};

const EXAMPLE_DESCRIPTOR: &str = "sh(multi(2,0330ec812aac4cbc71be2b058a9273a674101b077060e58a70e884db01e3506dfc,0364a819858641c0185d6ba6359712d191e57dcaa5c095c8ceedefb47665480a1e,0235cc22f1ef466270ff652f89eaba49b75527788ae2053b2ba71a0cba73e7dc55))#x02227ng";

const KEY_1: &str = "0330ec812aac4cbc71be2b058a9273a674101b077060e58a70e884db01e3506dfc";
const KEY_2: &str = "0364a819858641c0185d6ba6359712d191e57dcaa5c095c8ceedefb47665480a1e";
const KEY_3: &str = "0235cc22f1ef466270ff652f89eaba49b75527788ae2053b2ba71a0cba73e7dc55";

fn with_checksum(body: &str) -> String {
    let sum = bdk::descriptor::checksum::calc_checksum(body).expect("a body in the alphabet");
    format!("{}#{}", body, sum)
}

fn parse_error(text: &str) -> ParseError {
    match Descriptor::parse(text, Network::Testnet) {
        Ok(_) => panic!("accepted: {}", text),
        Err(e) => e,
    }
}

#[test]
fn two_of_three_descriptor_is_read() {
    let d = Descriptor::parse(EXAMPLE_DESCRIPTOR, Network::Testnet).expect("the descriptor is valid");
    assert_eq!(d.threshold(), 2);
    assert_eq!(d.keys().len(), 3);
    assert_eq!(hex_encode(&d.keys()[0]), KEY_1.as_bytes().to_vec());
    assert_eq!(hex_encode(&d.keys()[1]), KEY_2.as_bytes().to_vec());
    assert_eq!(hex_encode(&d.keys()[2]), KEY_3.as_bytes().to_vec());
    assert_eq!(d.network(), Network::Testnet);
    assert_eq!(d.checksum(), "x02227ng");
}

#[test]
fn redeem_script_is_the_concatenation() {
    let d = Descriptor::parse(EXAMPLE_DESCRIPTOR, Network::Testnet).unwrap();
    let expected = format!("5221{}21{}21{}53ae", KEY_1, KEY_2, KEY_3);
    assert_eq!(hex_encode(d.redeem_script()), expected.as_bytes().to_vec());
    assert_eq!(d.redeem_script().len(), 3 + 34 * 3);
}

#[test]
fn address_is_base58check_of_prefix_and_script_hash() {
    let d = Descriptor::parse(EXAMPLE_DESCRIPTOR, Network::Testnet).unwrap();
    let script = bdk::bitcoin::Script::from(d.redeem_script().clone());
    let expected = bdk::bitcoin::Address::p2sh(&script, bdk::bitcoin::Network::Testnet).unwrap();
    assert_eq!(d.address(), &expected.to_string());
    assert_eq!(d.address(), "2MxQXpoCDMNs8sm7LJ5tt3ofLzhoFS5VT3v");
    assert_eq!(d.script_pubkey(), &expected.script_pubkey().to_bytes());
    assert_eq!(d.script_hash().len(), 20);
    assert_eq!(d.script_pubkey()[..2], [0xa9, 0x14]);
    assert_eq!(d.script_pubkey()[2..22], d.script_hash()[..]);
    assert_eq!(d.script_pubkey()[22], 0x87);
}

#[test]
fn mainnet_address_has_the_mainnet_prefix() {
    let d = Descriptor::parse(EXAMPLE_DESCRIPTOR, Network::Bitcoin).unwrap();
    let script = bdk::bitcoin::Script::from(d.redeem_script().clone());
    let expected = bdk::bitcoin::Address::p2sh(&script, bdk::bitcoin::Network::Bitcoin).unwrap();
    assert_eq!(d.address(), &expected.to_string());
    assert!(d.address().starts_with('3'));
    let regtest = Descriptor::parse(EXAMPLE_DESCRIPTOR, Network::Regtest).unwrap();
    let testnet = Descriptor::parse(EXAMPLE_DESCRIPTOR, Network::Testnet).unwrap();
    let signet = Descriptor::parse(EXAMPLE_DESCRIPTOR, Network::Signet).unwrap();
    assert_eq!(regtest.address(), testnet.address());
    assert_eq!(signet.address(), testnet.address());
}

#[test]
fn descriptor_round_trip() {
    let d = Descriptor::parse(EXAMPLE_DESCRIPTOR, Network::Testnet).unwrap();
    let text = d.to_text();
    assert_eq!(text, EXAMPLE_DESCRIPTOR);
    let again = Descriptor::parse(&text, Network::Testnet).unwrap();
    assert_eq!(again.threshold(), d.threshold());
    assert_eq!(again.keys(), d.keys());
    assert_eq!(again.checksum(), d.checksum());
    assert_eq!(again.address(), d.address());
    assert_eq!(again.redeem_script(), d.redeem_script());
}

#[test]
fn checksum_mismatch_is_refused() {
    let mut changed = EXAMPLE_DESCRIPTOR.to_string();
    changed.pop();
    changed.push('h');
    assert_eq!(parse_error(&changed), ParseError::BadChecksum);
}

#[test]
fn checksum_is_needed() {
    let body = format!("sh(multi(2,{},{},{}))", KEY_1, KEY_2, KEY_3);
    assert_eq!(parse_error(&body), ParseError::MissingChecksum);
    assert_eq!(parse_error(""), ParseError::MissingChecksum);
    assert_eq!(parse_error(&format!("{}#x02227n", body)), ParseError::MissingChecksum);
}

#[test]
fn other_wrappers_are_refused() {
    let wsh = with_checksum(&format!("wsh(multi(2,{},{},{}))", KEY_1, KEY_2, KEY_3));
    assert_eq!(parse_error(&wsh), ParseError::UnsupportedWrapper);
    let sorted = with_checksum(&format!("sh(sortedmulti(2,{},{},{}))", KEY_1, KEY_2, KEY_3));
    assert_eq!(parse_error(&sorted), ParseError::UnsupportedWrapper);
    let upper = with_checksum(&format!("SH(MULTI(2,{},{},{}))", KEY_1, KEY_2, KEY_3));
    assert_eq!(parse_error(&upper), ParseError::UnsupportedWrapper);
}

#[test]
fn white_space_and_stray_text_are_refused() {
    let spaced = with_checksum(&format!("sh(multi(2 ,{},{},{}))", KEY_1, KEY_2, KEY_3));
    assert_eq!(parse_error(&spaced), ParseError::Malformed);
    let in_key = with_checksum(&format!("sh(multi(2, {},{},{}))", KEY_1, KEY_2, KEY_3));
    assert_eq!(parse_error(&in_key), ParseError::MalformedHex);
    let leading = with_checksum(&format!(" sh(multi(2,{},{},{}))", KEY_1, KEY_2, KEY_3));
    assert_eq!(parse_error(&leading), ParseError::UnsupportedWrapper);
    let open = with_checksum(&format!("sh(multi(2,{},{},{})", KEY_1, KEY_2, KEY_3));
    assert_eq!(parse_error(&open), ParseError::Malformed);
    let short_key = with_checksum(&format!("sh(multi(1,{}))", &KEY_1[..60]));
    assert_eq!(parse_error(&short_key), ParseError::Malformed);
    let tail = with_checksum(&format!("sh(multi(1,{}ab))", KEY_1));
    assert_eq!(parse_error(&tail), ParseError::Malformed);
    let not_ascii = format!("sh(multi(2,{},{},{}))#x02227n\u{e9}", KEY_1, KEY_2, KEY_3);
    assert_eq!(parse_error(&not_ascii), ParseError::Malformed);
}

#[test]
fn threshold_must_be_a_number_from_one_to_the_key_count() {
    for bad in ["0", "17", "01", "100", "x", ""] {
        let text = with_checksum(&format!("sh(multi({},{},{}))", bad, KEY_1, KEY_2));
        assert_eq!(parse_error(&text), ParseError::BadThreshold, "threshold {:?}", bad);
    }
    let too_many = with_checksum(&format!("sh(multi(3,{},{}))", KEY_1, KEY_2));
    assert_eq!(parse_error(&too_many), ParseError::BadThreshold);
}

#[test]
fn key_count_must_be_from_one_to_sixteen() {
    let none = with_checksum("sh(multi(1))");
    assert_eq!(parse_error(&none), ParseError::BadKeyCount);
    let secp = bdk::bitcoin::secp256k1::Secp256k1::new();
    let mut body = String::from("sh(multi(1");
    for i in 1..=17u8 {
        let secret = bdk::bitcoin::secp256k1::SecretKey::from_slice(&[i; 32]).unwrap();
        let key = bdk::bitcoin::secp256k1::PublicKey::from_secret_key(&secp, &secret);
        body.push(',');
        body.push_str(&String::from_utf8(hex_encode(&key.serialize())).unwrap());
    }
    body.push_str("))");
    assert_eq!(parse_error(&with_checksum(&body)), ParseError::BadKeyCount);
}

#[test]
fn sixteen_keys_are_accepted() {
    let secp = bdk::bitcoin::secp256k1::Secp256k1::new();
    let mut body = String::from("sh(multi(16");
    for i in 1..=16u8 {
        let secret = bdk::bitcoin::secp256k1::SecretKey::from_slice(&[i; 32]).unwrap();
        let key = bdk::bitcoin::secp256k1::PublicKey::from_secret_key(&secp, &secret);
        body.push(',');
        body.push_str(&String::from_utf8(hex_encode(&key.serialize())).unwrap());
    }
    body.push_str("))");
    let text = with_checksum(&body);
    let d = Descriptor::parse(&text, Network::Testnet).expect("16 of 16");
    assert_eq!(d.threshold(), 16);
    assert_eq!(d.keys().len(), 16);
    assert_eq!(d.redeem_script().len(), 3 + 34 * 16);
    assert_eq!(d.redeem_script()[0], 0x60);
    assert_eq!(d.to_text(), text);
}

#[test]
fn keys_must_be_lower_case_hex() {
    let upper = with_checksum(&format!("sh(multi(1,{}))", KEY_1.to_uppercase()));
    assert_eq!(parse_error(&upper), ParseError::MalformedHex);
    let letters = with_checksum(&format!("sh(multi(1,{}zz))", &KEY_1[..64]));
    assert_eq!(parse_error(&letters), ParseError::MalformedHex);
}

#[test]
fn uncompressed_keys_are_refused() {
    let secp = bdk::bitcoin::secp256k1::Secp256k1::new();
    let secret = bdk::bitcoin::secp256k1::SecretKey::from_slice(&[7; 32]).unwrap();
    let key = bdk::bitcoin::secp256k1::PublicKey::from_secret_key(&secp, &secret);
    let long = String::from_utf8(hex_encode(&key.serialize_uncompressed())).unwrap();
    let text = with_checksum(&format!("sh(multi(1,{}))", long));
    assert_eq!(parse_error(&text), ParseError::UncompressedKey);
}

#[test]
fn keys_off_the_curve_are_refused() {
    let mut found = None;
    for x in 0..=255u8 {
        let mut candidate = vec![0x02u8];
        candidate.extend_from_slice(&[x; 32]);
        if bdk::bitcoin::secp256k1::PublicKey::from_slice(&candidate).is_err() {
            found = Some(candidate);
            break;
        }
    }
    let off_curve = found.expect("some x is no coordinate of a point");
    let text = with_checksum(
        &format!("sh(multi(1,{},{}))", KEY_1, String::from_utf8(hex_encode(&off_curve)).unwrap()),
    );
    assert_eq!(parse_error(&text), ParseError::InvalidKey);
}

#[test]
fn duplicate_keys_are_refused() {
    let text = with_checksum(&format!("sh(multi(2,{},{},{}))", KEY_1, KEY_2, KEY_1));
    assert_eq!(parse_error(&text), ParseError::DuplicateKey);
}

#[test]
fn grammar_is_checked_before_the_checksum() {
    let text = format!("sh(multi(2,{},{},{}))#aaaaaaaa", KEY_1, KEY_2, KEY_1);
    assert_eq!(parse_error(&text), ParseError::DuplicateKey);
}

#[test]
fn text_parser_gives_policy_and_declared_checksum() {
    let parsed = parse_descriptor_text(EXAMPLE_DESCRIPTOR.as_bytes()).expect("the grammar holds");
    assert_eq!(parsed.threshold, 2);
    assert_eq!(parsed.keys.len(), 3);
    assert_eq!(parsed.checksum, b"x02227ng".to_vec());
    let unchecked = format!("sh(multi(10,{}))#????????", KEY_1);
    assert_eq!(parse_descriptor_text(unchecked.as_bytes()).unwrap_err(), ParseError::BadThreshold);
}
