use btc_multisig::encoding::hex_encode;
use btc_multisig::{
    BuildError, BuildOptions, Descriptor, Error, InsufficientFunds, MultisigWallet, Network, OutPoint,
    ParseError, Signer, Transaction, TxIn, TxOut, Utxo,
};

const EXAMPLE_DESCRIPTOR: &str = "sh(multi(2,0330ec812aac4cbc71be2b058a9273a674101b077060e58a70e884db01e3506dfc,0364a819858641c0185d6ba6359712d191e57dcaa5c095c8ceedefb47665480a1e,0235cc22f1ef466270ff652f89eaba49b75527788ae2053b2ba71a0cba73e7dc55))#x02227ng";

const RECIPIENT: &str = "mnzUjWRB8QEmVXi4q8K8wP8YTScZ5JzQD2";

fn signer(seed: u8) -> Signer {
    Signer::from_secret(&[seed; 32], Network::Testnet).expect("a valid scalar")
}

fn two_of_three() -> Descriptor {
    let keys: Vec<String> = [1u8, 2, 3]
        .iter()
        .map(|&seed| String::from_utf8(hex_encode(signer(seed).public_key())).unwrap())
        .collect();
    let body = format!("sh(multi(2,{},{},{}))", keys[0], keys[1], keys[2]);
    let sum = bdk::descriptor::checksum::calc_checksum(&body).unwrap();
    Descriptor::parse(&format!("{}#{}", body, sum), Network::Testnet).expect("a valid descriptor")
}

fn funded(descriptor: &Descriptor, value: u64, height: Option<u32>, salt: u8) -> Utxo {
    let funding_tx = Transaction {
        version: 2,
        inputs: vec![TxIn {
            previous_output: OutPoint { txid: vec![salt; 32], vout: 0 },
            script_sig: vec![],
            sequence: 0xffff_ffff,
        }],
        outputs: vec![
            TxOut { value: 1, script_pubkey: vec![0x51] },
            TxOut { value, script_pubkey: descriptor.script_pubkey().clone() },
        ],
        lock_time: 0,
    };
    Utxo {
        outpoint: OutPoint { txid: funding_tx.txid(), vout: 1 },
        value,
        script_pubkey: descriptor.script_pubkey().clone(),
        height,
        funding_tx,
    }
}

fn wallet_with(descriptor: Descriptor, coins: Vec<Utxo>) -> MultisigWallet {
    let mut wallet = MultisigWallet::new(descriptor);
    assert!(wallet.sync(coins));
    wallet
}

fn decode(raw: &[u8]) -> bdk::bitcoin::Transaction {
    bdk::bitcoin::consensus::encode::deserialize(raw).expect("a transaction")
}

fn check_multisig_input(tx: &bdk::bitcoin::Transaction, index: usize, descriptor: &Descriptor, signed_by: &[u8]) {
    let redeem = bdk::bitcoin::Script::from(descriptor.redeem_script().clone());
    let pushes: Vec<Vec<u8>> = tx.input[index]
        .script_sig
        .instructions()
        .map(|i| match i.expect("a well formed script") {
            bdk::bitcoin::blockdata::script::Instruction::PushBytes(bytes) => bytes.to_vec(),
            bdk::bitcoin::blockdata::script::Instruction::Op(op) => panic!("opcode {:?}", op),
        })
        .collect();
    assert_eq!(pushes.len(), signed_by.len() + 2);
    assert_eq!(pushes[0], Vec::<u8>::new());
    assert_eq!(pushes[pushes.len() - 1], descriptor.redeem_script().clone());
    let cache = bdk::bitcoin::util::sighash::SighashCache::new(tx);
    let digest = cache.legacy_signature_hash(index, &redeem, 1).unwrap();
    let message = bdk::bitcoin::secp256k1::Message::from_slice(digest.as_ref()).unwrap();
    let secp = bdk::bitcoin::secp256k1::Secp256k1::new();
    for (k, &seed) in signed_by.iter().enumerate() {
        let signature = &pushes[1 + k];
        assert_eq!(*signature.last().unwrap(), 0x01);
        let der = bdk::bitcoin::secp256k1::ecdsa::Signature::from_der(&signature[..signature.len() - 1]).unwrap();
        let key = bdk::bitcoin::secp256k1::PublicKey::from_slice(signer(seed).public_key()).unwrap();
        secp.verify_ecdsa(&message, &der, &key).expect("the signature verifies");
    }
}

#[test]
fn new_wallet_is_empty_and_replaceable() {
    let wallet = MultisigWallet::new(two_of_three());
    assert_eq!(wallet.utxos().len(), 0);
    assert_eq!(wallet.signer_count(), 0);
    assert_eq!(wallet.descriptor().threshold(), 2);
    assert_eq!(BuildOptions::default(), BuildOptions { rbf: true, lock_time: 0 });
}

#[test]
fn two_of_three_happy_path() {
    let descriptor = two_of_three();
    let coin = funded(&descriptor, 10_000, Some(100), 0x11);
    let outpoint_txid = coin.outpoint.txid.clone();
    let mut wallet = wallet_with(two_of_three(), vec![coin]);
    wallet.add_signer(signer(1));
    wallet.add_signer(signer(2));
    let signed = wallet.create_and_sign_transaction(RECIPIENT, 1000).expect("two signers suffice");
    let tx = decode(&signed.raw_tx);
    assert_eq!(tx.version, 2);
    assert_eq!(tx.lock_time.0, 0);
    assert_eq!(tx.input.len(), 1);
    assert_eq!(tx.input[0].sequence.0, 0xffff_fffd);
    let txid: &[u8] = tx.input[0].previous_output.txid.as_ref();
    assert_eq!(txid.to_vec(), outpoint_txid);
    assert_eq!(tx.input[0].previous_output.vout, 1);
    assert_eq!(tx.output.len(), 2);
    assert_eq!(tx.output[0].value, 1000);
    let recipient: bdk::bitcoin::Address = RECIPIENT.parse().unwrap();
    assert_eq!(tx.output[0].script_pubkey, recipient.script_pubkey());
    assert_eq!(tx.output[1].value, 8625);
    assert_eq!(tx.output[1].script_pubkey.to_bytes(), descriptor.script_pubkey().clone());
    check_multisig_input(&tx, 0, &descriptor, &[1, 2]);
    let expected_txid: &[u8] = &tx.txid();
    assert_eq!(signed.txid, expected_txid.to_vec());
    assert_eq!(String::from_utf8(signed.txid_hex()).unwrap(), tx.txid().to_string());
    assert_eq!(bdk::bitcoin::consensus::encode::serialize(&tx), signed.raw_tx);
    assert_eq!(wallet.utxos().len(), 1);
    assert_eq!(wallet.signer_count(), 2);
}

#[test]
fn signatures_stand_in_the_order_of_the_keys() {
    let descriptor = two_of_three();
    let mut wallet = wallet_with(two_of_three(), vec![funded(&descriptor, 10_000, Some(100), 0x11)]);
    wallet.add_signer(signer(3));
    wallet.add_signer(signer(1));
    let signed = wallet.create_and_sign_transaction(RECIPIENT, 1000).unwrap();
    check_multisig_input(&decode(&signed.raw_tx), 0, &descriptor, &[1, 3]);
}

#[test]
fn three_signers_give_the_first_two_signatures() {
    let descriptor = two_of_three();
    let mut wallet = wallet_with(two_of_three(), vec![funded(&descriptor, 10_000, Some(100), 0x11)]);
    wallet.add_signer(signer(3));
    wallet.add_signer(signer(2));
    wallet.add_signer(signer(1));
    let signed = wallet.create_and_sign_transaction(RECIPIENT, 1000).unwrap();
    check_multisig_input(&decode(&signed.raw_tx), 0, &descriptor, &[1, 2]);
}

#[test]
fn build_for_the_example_descriptor() {
    let descriptor = Descriptor::parse(EXAMPLE_DESCRIPTOR, Network::Testnet).unwrap();
    let coin = funded(&descriptor, 10_000, None, 0x22);
    let wallet = wallet_with(Descriptor::parse(EXAMPLE_DESCRIPTOR, Network::Testnet).unwrap(), vec![coin]);
    let pst = wallet.build_transaction(RECIPIENT, 1000).expect("funds suffice");
    assert_eq!(pst.input_count(), 1);
    let tx = pst.tx();
    assert_eq!(tx.version, 2);
    assert_eq!(tx.lock_time, 0);
    assert_eq!(tx.inputs.len(), 1);
    assert_eq!(tx.inputs[0].sequence, 0xffff_fffd);
    assert!(tx.inputs[0].script_sig.is_empty());
    assert_eq!(tx.outputs.len(), 2);
    assert_eq!(tx.outputs[0].value, 1000);
    assert_eq!(tx.outputs[1].value, 8625);
    let input = pst.input(0);
    assert_eq!(input.threshold(), 2);
    assert_eq!(input.keys(), descriptor.keys());
    assert_eq!(input.sighash_type(), 1);
    for j in 0..3 {
        assert!(input.signature(j).is_none());
    }
    assert_eq!(input.funding_tx().outputs[1].value, 10_000);
}

#[test]
fn wrong_network_address_is_refused() {
    let descriptor = two_of_three();
    let mut wallet = wallet_with(two_of_three(), vec![funded(&descriptor, 10_000, Some(1), 0x11)]);
    wallet.add_signer(signer(1));
    wallet.add_signer(signer(2));
    let r = wallet.create_and_sign_transaction("1A1zP1eP5QGefi2DMPTfTL5SLmv7DivfNa", 1000);
    assert!(matches!(r, Err(Error::Build(BuildError::WrongNetwork))));
    let segwit_mainnet = wallet.build_transaction("bc1qw508d6qejxtdg4y5r3zarvary0c5xw7kv8f3t4", 1000);
    assert!(matches!(segwit_mainnet, Err(Error::Build(BuildError::WrongNetwork))));
    let regtest = wallet.build_transaction("bcrt1qs758ursh4q9z627kt3pp5yysm78ddny6txaqgw", 1000);
    assert!(matches!(regtest, Err(Error::Build(BuildError::WrongNetwork))));
}

#[test]
fn segwit_recipient_on_the_same_network_is_paid() {
    let descriptor = two_of_three();
    let wallet = wallet_with(two_of_three(), vec![funded(&descriptor, 10_000, Some(1), 0x11)]);
    let address = "tb1qw508d6qejxtdg4y5r3zarvary0c5xw7kxpjzsx";
    let pst = wallet.build_transaction(address, 1000).expect("a testnet address");
    let expected: bdk::bitcoin::Address = address.parse().unwrap();
    assert_eq!(pst.tx().outputs[0].script_pubkey, expected.script_pubkey().to_bytes());
}

#[test]
fn address_that_does_not_decode_is_refused() {
    let descriptor = two_of_three();
    let wallet = wallet_with(two_of_three(), vec![funded(&descriptor, 10_000, Some(1), 0x11)]);
    assert!(matches!(
        wallet.build_transaction("mnzUjWRB8QEmVXi4q8K8wP8YTScZ5JzQD3", 1000),
        Err(Error::Parse(ParseError::BadAddress))
    ));
    assert!(matches!(wallet.build_transaction("", 1000), Err(Error::Parse(ParseError::BadAddress))));
}

#[test]
fn single_signer_only_is_incomplete() {
    let descriptor = two_of_three();
    let mut wallet = wallet_with(two_of_three(), vec![funded(&descriptor, 10_000, Some(1), 0x11)]);
    wallet.add_signer(signer(1));
    match wallet.create_and_sign_transaction(RECIPIENT, 1000) {
        Err(Error::Incomplete { short_inputs }) => assert_eq!(short_inputs, vec![0]),
        other => panic!("not incomplete: {:?}", other),
    }
}

#[test]
fn signer_not_in_descriptor_changes_nothing() {
    let descriptor = two_of_three();
    let mut wallet = wallet_with(two_of_three(), vec![funded(&descriptor, 10_000, Some(1), 0x11)]);
    wallet.add_signer(signer(9));
    let mut pst = wallet.build_transaction(RECIPIENT, 1000).unwrap();
    wallet.sign_transaction(&mut pst).expect("nothing to object to");
    for j in 0..3 {
        assert!(pst.input(0).signature(j).is_none());
    }
    match wallet.create_and_sign_transaction(RECIPIENT, 1000) {
        Err(Error::Incomplete { short_inputs }) => assert_eq!(short_inputs, vec![0]),
        other => panic!("not incomplete: {:?}", other),
    }
}

#[test]
fn insufficient_funds() {
    let descriptor = two_of_three();
    let mut wallet = wallet_with(two_of_three(), vec![funded(&descriptor, 500, Some(1), 0x11)]);
    wallet.add_signer(signer(1));
    wallet.add_signer(signer(2));
    match wallet.create_and_sign_transaction(RECIPIENT, 1000) {
        Err(Error::InsufficientFunds(shortfall)) => {
            assert_eq!(shortfall, InsufficientFunds { requested: 1341, available: 500 })
        }
        other => panic!("not short of funds: {:?}", other),
    }
}

#[test]
fn several_inputs_are_signed_each() {
    let descriptor = two_of_three();
    let coins = vec![
        funded(&descriptor, 4000, Some(5), 0x31),
        funded(&descriptor, 7000, Some(6), 0x32),
        funded(&descriptor, 2000, None, 0x33),
    ];
    let mut wallet = wallet_with(two_of_three(), coins);
    wallet.set_fee_rate(2);
    wallet.add_signer(signer(2));
    wallet.add_signer(signer(3));
    let signed = wallet.create_and_sign_transaction(RECIPIENT, 9000).unwrap();
    let tx = decode(&signed.raw_tx);
    assert_eq!(tx.input.len(), 2);
    assert_eq!(tx.output.len(), 2);
    assert_eq!(tx.output[0].value, 9000);
    assert_eq!(tx.output[1].value, 11_000 - 9000 - (10 + 2 * 297 + 2 * 34) * 2);
    assert_eq!(tx.input[0].previous_output.vout, 1);
    for index in 0..2 {
        assert_eq!(tx.input[index].sequence.0, 0xffff_fffd);
        check_multisig_input(&tx, index, &descriptor, &[2, 3]);
    }
}

#[test]
fn without_replacement_the_sequence_is_final() {
    let descriptor = two_of_three();
    let mut wallet = wallet_with(two_of_three(), vec![funded(&descriptor, 10_000, Some(1), 0x11)]);
    wallet.set_options(BuildOptions { rbf: false, lock_time: 700_000 });
    let pst = wallet.build_transaction(RECIPIENT, 1000).unwrap();
    assert_eq!(pst.tx().inputs[0].sequence, 0xffff_ffff);
    assert_eq!(pst.tx().lock_time, 700_000);
    wallet.set_options(BuildOptions::default());
    let replaceable = wallet.build_transaction(RECIPIENT, 1000).unwrap();
    assert!(replaceable.tx().inputs.iter().all(|i| i.sequence < 0xffff_fffe));
}

#[test]
fn change_below_dust_goes_to_the_fee() {
    let descriptor = two_of_three();
    let wallet = wallet_with(two_of_three(), vec![funded(&descriptor, 1900, Some(1), 0x11)]);
    let pst = wallet.build_transaction(RECIPIENT, 1000).unwrap();
    assert_eq!(pst.tx().outputs.len(), 1);
    assert_eq!(pst.tx().outputs[0].value, 1000);
}

#[test]
fn a_signer_is_kept_once() {
    let mut wallet = MultisigWallet::new(two_of_three());
    wallet.add_signer(signer(1));
    wallet.add_signer(signer(2));
    wallet.add_signer(signer(1));
    assert_eq!(wallet.signer_count(), 2);
    assert_eq!(wallet.signer_public_key(0), signer(1).public_key());
    assert_eq!(wallet.signer_public_key(1), signer(2).public_key());
    wallet.clear_signers();
    assert_eq!(wallet.signer_count(), 0);
}

#[test]
fn sync_takes_a_list_in_the_order_of_the_chain() {
    let descriptor = two_of_three();
    let a = funded(&descriptor, 1000, Some(5), 0x41);
    let b = funded(&descriptor, 2000, Some(6), 0x42);
    let c = funded(&descriptor, 3000, None, 0x43);
    let mut wallet = MultisigWallet::new(two_of_three());
    assert!(wallet.sync(vec![a, b, c]));
    assert_eq!(wallet.utxos().len(), 3);
    let b_again = funded(&descriptor, 2000, Some(6), 0x42);
    let a_again = funded(&descriptor, 1000, Some(5), 0x41);
    assert!(!wallet.sync(vec![b_again, a_again]));
    assert_eq!(wallet.utxos().len(), 3);
    let twice = vec![funded(&descriptor, 1000, Some(5), 0x41), funded(&descriptor, 1000, Some(5), 0x41)];
    assert!(!wallet.sync(twice));
    let mempool_first = vec![funded(&descriptor, 1, None, 0x44), funded(&descriptor, 1, Some(9), 0x45)];
    assert!(!wallet.sync(mempool_first));
    assert!(wallet.sync(vec![]));
    assert_eq!(wallet.utxos().len(), 0);
}

#[test]
fn sync_refuses_records_that_do_not_match_their_funding() {
    let descriptor = two_of_three();
    let mut wallet = MultisigWallet::new(two_of_three());
    let mut wrong_value = funded(&descriptor, 1000, Some(5), 0x41);
    wrong_value.value = 2000;
    assert!(!wallet.sync(vec![wrong_value]));
    let mut wrong_txid = funded(&descriptor, 1000, Some(5), 0x41);
    wrong_txid.outpoint.txid[0] ^= 1;
    assert!(!wallet.sync(vec![wrong_txid]));
    let mut wrong_vout = funded(&descriptor, 1000, Some(5), 0x41);
    wrong_vout.outpoint.vout = 0;
    assert!(!wallet.sync(vec![wrong_vout]));
    let mut out_of_range = funded(&descriptor, 1000, Some(5), 0x41);
    out_of_range.outpoint.vout = 2;
    assert!(!wallet.sync(vec![out_of_range]));
    let other = Descriptor::parse(EXAMPLE_DESCRIPTOR, Network::Testnet).unwrap();
    assert!(!wallet.sync(vec![funded(&other, 1000, Some(5), 0x41)]));
    assert_eq!(wallet.utxos().len(), 0);
}
