use btc_multisig::builder::check_recipient;
use btc_multisig::{AddressKind, BuildError, Error, Network, OutPoint, ParseError, Transaction, TxIn, TxOut, Utxo};

#[test]
fn p2sh_prefixes() {
    assert_eq!(Network::Bitcoin.p2sh_prefix(), 0x05);
    assert_eq!(Network::Testnet.p2sh_prefix(), 0xc4);
    assert_eq!(Network::Regtest.p2sh_prefix(), 0xc4);
    assert_eq!(Network::Signet.p2sh_prefix(), 0xc4);
}

#[test]
fn addresses_fit_their_own_network_and_its_kin() {
    let all = [Network::Bitcoin, Network::Testnet, Network::Signet, Network::Regtest];
    let kinds = [AddressKind::PubkeyHash, AddressKind::ScriptHash, AddressKind::WitnessProgram];
    for wallet in all {
        for address in all {
            for kind in kinds {
                let expected = bdk_fits(address, kind, wallet);
                assert_eq!(wallet.accepts(address, kind), expected, "{:?} {:?} {:?}", wallet, address, kind);
            }
        }
    }
    assert!(Network::Regtest.accepts(Network::Testnet, AddressKind::ScriptHash));
    assert!(!Network::Regtest.accepts(Network::Testnet, AddressKind::WitnessProgram));
    assert!(Network::Signet.accepts(Network::Testnet, AddressKind::WitnessProgram));
    assert!(!Network::Bitcoin.accepts(Network::Testnet, AddressKind::PubkeyHash));
    assert!(!Network::Testnet.accepts(Network::Bitcoin, AddressKind::PubkeyHash));
}

fn bdk_fits(address: Network, kind: AddressKind, wallet: Network) -> bool {
    let to_bdk = |n: Network| match n {
        Network::Bitcoin => bdk::bitcoin::Network::Bitcoin,
        Network::Testnet => bdk::bitcoin::Network::Testnet,
        Network::Signet => bdk::bitcoin::Network::Signet,
        Network::Regtest => bdk::bitcoin::Network::Regtest,
    };
    let payload = match kind {
        AddressKind::PubkeyHash => bdk::bitcoin::util::address::Payload::PubkeyHash(
            <bdk::bitcoin::PubkeyHash as bdk::bitcoin::hashes::Hash>::from_slice(&[7u8; 20]).unwrap(),
        ),
        AddressKind::ScriptHash => bdk::bitcoin::util::address::Payload::ScriptHash(
            <bdk::bitcoin::ScriptHash as bdk::bitcoin::hashes::Hash>::from_slice(&[7u8; 20]).unwrap(),
        ),
        AddressKind::WitnessProgram => bdk::bitcoin::util::address::Payload::WitnessProgram {
            version: bdk::bitcoin::util::address::WitnessVersion::V0,
            program: vec![7u8; 20],
        },
    };
    bdk::bitcoin::Address { payload, network: to_bdk(address) }.is_valid_for_network(to_bdk(wallet))
}

#[test]
fn decoded_recipient_is_held_against_the_network() {
    let script = vec![0x76, 0xa9, 0x14];
    let fits = check_recipient(Some((Network::Testnet, AddressKind::PubkeyHash, script.clone())), Network::Signet);
    assert_eq!(fits.unwrap(), script);
    let other = check_recipient(Some((Network::Bitcoin, AddressKind::PubkeyHash, script.clone())), Network::Testnet);
    assert!(matches!(other, Err(Error::Build(BuildError::WrongNetwork))));
    let none = check_recipient(None, Network::Testnet);
    assert!(matches!(none, Err(Error::Parse(ParseError::BadAddress))));
}

fn listed(height: Option<u32>, txid_byte: u8, vout: u32) -> Utxo {
    Utxo {
        outpoint: OutPoint { txid: vec![txid_byte; 32], vout },
        value: 1,
        script_pubkey: vec![],
        height,
        funding_tx: Transaction {
            version: 2,
            inputs: vec![TxIn { previous_output: OutPoint { txid: vec![0; 32], vout: 0 }, script_sig: vec![], sequence: 0 }],
            outputs: vec![TxOut { value: 1, script_pubkey: vec![] }],
            lock_time: 0,
        },
    }
}

#[test]
fn unspent_outputs_are_listed_by_height_txid_and_index() {
    assert!(listed(Some(1), 9, 9).precedes(&listed(Some(2), 0, 0)));
    assert!(!listed(Some(2), 0, 0).precedes(&listed(Some(1), 9, 9)));
    assert!(listed(Some(5), 1, 9).precedes(&listed(Some(5), 2, 0)));
    assert!(listed(Some(5), 1, 0).precedes(&listed(Some(5), 1, 1)));
    assert!(!listed(Some(5), 1, 1).precedes(&listed(Some(5), 1, 1)));
    assert!(listed(Some(u32::MAX), 9, 9).precedes(&listed(None, 0, 0)));
    assert!(!listed(None, 0, 0).precedes(&listed(Some(u32::MAX), 9, 9)));
    assert!(listed(None, 1, 0).precedes(&listed(None, 1, 1)));
    assert!(!listed(Some(1), 0, 0).is_consistent());
}
