use btc_multisig::encoding::hex_encode;
use btc_multisig::lifecycle::{stage, Stage};
use btc_multisig::wire::serialize_pst;
use btc_multisig::{sign, Descriptor, MultisigWallet, Network, OutPoint, Pst, Signer, Transaction, TxIn, TxOut, Utxo};

fn holder(seed: u8) -> Signer {
    Signer::from_secret(&[seed; 32], Network::Testnet).expect("a valid scalar")
}

fn shared_policy() -> Descriptor {
    let keys: Vec<String> = [1u8, 2, 3]
        .iter()
        .map(|&seed| String::from_utf8(hex_encode(holder(seed).public_key())).unwrap())
        .collect();
    let body = format!("sh(multi(2,{},{},{}))", keys[0], keys[1], keys[2]);
    let sum = bdk::descriptor::checksum::calc_checksum(&body).unwrap();
    Descriptor::parse(&format!("{}#{}", body, sum), Network::Testnet).unwrap()
}

fn fresh_pst() -> Pst {
    let descriptor = shared_policy();
    let funding_tx = Transaction {
        version: 2,
        inputs: vec![TxIn {
            previous_output: OutPoint { txid: vec![0x55; 32], vout: 0 },
            script_sig: vec![0x51],
            sequence: 0xffff_ffff,
        }],
        outputs: vec![TxOut { value: 10_000, script_pubkey: descriptor.script_pubkey().clone() }],
        lock_time: 0,
    };
    let utxo = Utxo {
        outpoint: OutPoint { txid: funding_tx.txid(), vout: 0 },
        value: 10_000,
        script_pubkey: descriptor.script_pubkey().clone(),
        height: Some(3),
        funding_tx,
    };
    let mut wallet = MultisigWallet::new(descriptor);
    assert!(wallet.sync(vec![utxo]));
    wallet.build_transaction("mnzUjWRB8QEmVXi4q8K8wP8YTScZ5JzQD2", 1000).unwrap()
}

fn read(bytes: &[u8]) -> bdk::bitcoin::psbt::PartiallySignedTransaction {
    bdk::bitcoin::consensus::encode::deserialize(bytes).expect("a PSBT")
}

#[test]
fn wire_format_starts_with_the_magic_and_the_transaction() {
    let pst = fresh_pst();
    let bytes = serialize_pst(&pst);
    let tx = pst.tx().serialize();
    assert_eq!(bytes[..5], [0x70, 0x73, 0x62, 0x74, 0xff]);
    assert_eq!(bytes[5..8], [0x01, 0x00, tx.len() as u8]);
    assert_eq!(bytes[8..8 + tx.len()], tx[..]);
    assert_eq!(bytes[8 + tx.len()], 0x00);
    assert_eq!(bytes[bytes.len() - 3..], [0x00, 0x00, 0x00]);
}

#[test]
fn unsigned_pst_is_read_by_the_bitcoin_library() {
    let pst = fresh_pst();
    let bytes = serialize_pst(&pst);
    let psbt = read(&bytes);
    assert_eq!(bdk::bitcoin::consensus::encode::serialize(&psbt.unsigned_tx), pst.tx().serialize());
    assert_eq!(psbt.inputs.len(), 1);
    assert_eq!(psbt.outputs.len(), 2);
    let input = &psbt.inputs[0];
    let funding = input.non_witness_utxo.as_ref().expect("the funding transaction");
    assert_eq!(bdk::bitcoin::consensus::encode::serialize(funding), pst.input(0).funding_tx().serialize());
    assert!(input.partial_sigs.is_empty());
    assert_eq!(input.sighash_type.expect("a sighash type").to_u32(), 1);
    assert_eq!(
        input.redeem_script.as_ref().expect("a redeem script").to_bytes(),
        shared_policy().redeem_script().clone()
    );
    assert_eq!(bdk::bitcoin::consensus::encode::serialize(&psbt), bytes);
}

#[test]
fn partial_signatures_are_read_by_the_bitcoin_library() {
    let mut pst = fresh_pst();
    sign(&mut pst, &holder(3)).unwrap();
    sign(&mut pst, &holder(1)).unwrap();
    let psbt = read(&serialize_pst(&pst));
    let input = &psbt.inputs[0];
    assert_eq!(input.partial_sigs.len(), 2);
    for (j, seed) in [(0usize, 1u8), (2, 3)] {
        let key = bdk::bitcoin::PublicKey::from_slice(holder(seed).public_key()).unwrap();
        let held = input.partial_sigs.get(&key).expect("a signature under the key");
        assert_eq!(&held.to_vec(), pst.input(0).signature(j).unwrap());
    }
    let second = bdk::bitcoin::PublicKey::from_slice(holder(2).public_key()).unwrap();
    assert!(input.partial_sigs.get(&second).is_none());
}

#[test]
fn stages_follow_the_signatures() {
    let mut pst = fresh_pst();
    assert_eq!(stage(&pst), Stage::Unsigned);
    sign(&mut pst, &holder(9)).unwrap();
    assert_eq!(stage(&pst), Stage::Unsigned);
    sign(&mut pst, &holder(2)).unwrap();
    assert_eq!(stage(&pst), Stage::PartiallySigned);
    sign(&mut pst, &holder(2)).unwrap();
    assert_eq!(stage(&pst), Stage::PartiallySigned);
    sign(&mut pst, &holder(1)).unwrap();
    assert_eq!(stage(&pst), Stage::FullySigned);
    sign(&mut pst, &holder(3)).unwrap();
    assert_eq!(stage(&pst), Stage::FullySigned);
}

fn held(pst: &Pst) -> Vec<Vec<Option<Vec<u8>>>> {
    (0..pst.input_count())
        .map(|i| (0..pst.input(i).keys().len()).map(|j| pst.input(i).signature(j).cloned()).collect())
        .collect()
}

#[test]
fn reading_gives_back_what_was_written() {
    let mut pst = fresh_pst();
    for seed in [0u8, 2, 3, 1] {
        if seed != 0 {
            sign(&mut pst, &holder(seed)).unwrap();
        }
        let bytes = serialize_pst(&pst);
        let read = btc_multisig::wire::read_pst(&bytes).expect("a PST");
        assert!(read.tx().same_as(pst.tx()));
        assert_eq!(read.input_count(), 1);
        assert!(read.input(0).funding_tx().same_as(pst.input(0).funding_tx()));
        assert_eq!(read.input(0).threshold(), 2);
        assert_eq!(read.input(0).keys(), pst.input(0).keys());
        assert_eq!(read.input(0).sighash_type(), 1);
        assert_eq!(held(&read), held(&pst));
        assert_eq!(serialize_pst(&read), bytes);
    }
}

#[test]
fn reading_takes_the_records_in_any_order() {
    let mut pst = fresh_pst();
    sign(&mut pst, &holder(1)).unwrap();
    sign(&mut pst, &holder(2)).unwrap();
    sign(&mut pst, &holder(3)).unwrap();
    let theirs = bdk::bitcoin::consensus::encode::serialize(&read(&serialize_pst(&pst)));
    let back = btc_multisig::wire::read_pst(&theirs).expect("a PST from the bitcoin library");
    assert_eq!(held(&back), held(&pst));
    let mut without_sighash = read(&serialize_pst(&pst));
    without_sighash.inputs[0].sighash_type = None;
    let bytes = bdk::bitcoin::consensus::encode::serialize(&without_sighash);
    let back = btc_multisig::wire::read_pst(&bytes).expect("the sighash type may be left out");
    assert_eq!(back.input(0).sighash_type(), 1);
    assert_eq!(held(&back), held(&pst));
}

#[test]
fn a_signer_can_sign_what_was_read() {
    let mut first = fresh_pst();
    sign(&mut first, &holder(1)).unwrap();
    let mut second = btc_multisig::wire::read_pst(&serialize_pst(&first)).unwrap();
    sign(&mut second, &holder(3)).unwrap();
    assert_eq!(stage(&second), Stage::FullySigned);
    assert!(matches!(btc_multisig::finalize(&second), btc_multisig::Finalization::Final { .. }));
}

#[test]
fn reading_refuses_what_is_no_pst_of_this_kind() {
    let mut pst = fresh_pst();
    sign(&mut pst, &holder(1)).unwrap();
    let bytes = serialize_pst(&pst);
    assert!(btc_multisig::wire::read_pst(&[]).is_none());
    assert!(btc_multisig::wire::read_pst(&bytes[..4]).is_none());
    for cut in 5..bytes.len() {
        assert!(btc_multisig::wire::read_pst(&bytes[..cut]).is_none(), "cut at {}", cut);
    }
    let mut longer = bytes.clone();
    longer.push(0);
    assert!(btc_multisig::wire::read_pst(&longer).is_none());
    let mut other_magic = bytes.clone();
    other_magic[4] = 0xfe;
    assert!(btc_multisig::wire::read_pst(&other_magic).is_none());
    let mut with_witness_utxo = read(&bytes);
    with_witness_utxo.inputs[0].witness_utxo =
        Some(bdk::bitcoin::TxOut { value: 1, script_pubkey: bdk::bitcoin::Script::new() });
    let unknown = bdk::bitcoin::consensus::encode::serialize(&with_witness_utxo);
    assert!(btc_multisig::wire::read_pst(&unknown).is_none());
    let mut no_script = read(&bytes);
    no_script.inputs[0].redeem_script = None;
    assert!(btc_multisig::wire::read_pst(&bdk::bitcoin::consensus::encode::serialize(&no_script)).is_none());
    let mut no_funding = read(&bytes);
    no_funding.inputs[0].non_witness_utxo = None;
    assert!(btc_multisig::wire::read_pst(&bdk::bitcoin::consensus::encode::serialize(&no_funding)).is_none());
    let mut foreign_key = read(&bytes);
    let stranger = bdk::bitcoin::PublicKey::from_slice(holder(9).public_key()).unwrap();
    let some_signature = foreign_key.inputs[0].partial_sigs.values().next().unwrap().clone();
    foreign_key.inputs[0].partial_sigs.insert(stranger, some_signature);
    assert!(btc_multisig::wire::read_pst(&bdk::bitcoin::consensus::encode::serialize(&foreign_key)).is_none());
    let mut other_sighash = read(&bytes);
    other_sighash.inputs[0].sighash_type = Some(bdk::bitcoin::psbt::PsbtSighashType::from_u32(3));
    assert!(btc_multisig::wire::read_pst(&bdk::bitcoin::consensus::encode::serialize(&other_sighash)).is_none());
}
