use btc_multisig::encoding::hex_encode;
use btc_multisig::{
    finalize, sign, Descriptor, Finalization, MultisigWallet, Network, OutPoint, Pst, PstInput,
    SignError, Signer, Transaction, TxIn, TxOut, Utxo,
};

const TO: &str = "mnzUjWRB8QEmVXi4q8K8wP8YTScZ5JzQD2";

fn key(seed: u8) -> Signer {
    Signer::from_secret(&[seed; 32], Network::Testnet).expect("a valid scalar")
}

fn policy() -> Descriptor {
    let keys: Vec<String> = [1u8, 2, 3]
        .iter()
        .map(|&seed| String::from_utf8(hex_encode(key(seed).public_key())).unwrap())
        .collect();
    let body = format!("sh(multi(2,{},{},{}))", keys[0], keys[1], keys[2]);
    let sum = bdk::descriptor::checksum::calc_checksum(&body).unwrap();
    Descriptor::parse(&format!("{}#{}", body, sum), Network::Testnet).unwrap()
}

fn coin(descriptor: &Descriptor, value: u64, height: u32, salt: u8) -> Utxo {
    let funding_tx = Transaction {
        version: 2,
        inputs: vec![TxIn {
            previous_output: OutPoint { txid: vec![salt; 32], vout: 0 },
            script_sig: vec![],
            sequence: 0xffff_ffff,
        }],
        outputs: vec![TxOut { value, script_pubkey: descriptor.script_pubkey().clone() }],
        lock_time: 0,
    };
    Utxo {
        outpoint: OutPoint { txid: funding_tx.txid(), vout: 0 },
        value,
        script_pubkey: descriptor.script_pubkey().clone(),
        height: Some(height),
        funding_tx,
    }
}

fn unsigned(coins: Vec<(u64, u32, u8)>, amount: u64) -> Pst {
    let descriptor = policy();
    let list = coins.into_iter().map(|(v, h, s)| coin(&descriptor, v, h, s)).collect();
    let mut wallet = MultisigWallet::new(descriptor);
    assert!(wallet.sync(list));
    wallet.build_transaction(TO, amount).unwrap()
}

fn signatures(pst: &Pst) -> Vec<Vec<Option<Vec<u8>>>> {
    (0..pst.input_count())
        .map(|i| (0..pst.input(i).keys().len()).map(|j| pst.input(i).signature(j).cloned()).collect())
        .collect()
}

#[test]
fn signing_fills_the_place_of_the_signers_key() {
    let mut pst = unsigned(vec![(10_000, 1, 0x11)], 1000);
    sign(&mut pst, &key(2)).unwrap();
    let held = signatures(&pst);
    assert!(held[0][0].is_none());
    assert!(held[0][2].is_none());
    let signature = held[0][1].clone().expect("the second key signed");
    assert_eq!(*signature.last().unwrap(), 0x01);
    assert!(signature.len() <= 73);
    let redeem = policy().redeem_script().clone();
    let digest = pst.tx().sighash(0, &redeem);
    let secp = bdk::bitcoin::secp256k1::Secp256k1::new();
    let secret = bdk::bitcoin::secp256k1::SecretKey::from_slice(&[2u8; 32]).unwrap();
    let message = bdk::bitcoin::secp256k1::Message::from_slice(&digest).unwrap();
    let expected = secp.sign_ecdsa(&message, &secret).serialize_der().to_vec();
    assert_eq!(signature[..signature.len() - 1], expected[..]);
    let parsed = bdk::bitcoin::secp256k1::ecdsa::Signature::from_der(&expected).unwrap();
    let mut normalized = parsed;
    normalized.normalize_s();
    assert_eq!(parsed, normalized);
}

#[test]
fn signing_twice_is_signing_once() {
    let mut once = unsigned(vec![(10_000, 1, 0x11), (20_000, 2, 0x12)], 25_000);
    sign(&mut once, &key(1)).unwrap();
    let mut twice = unsigned(vec![(10_000, 1, 0x11), (20_000, 2, 0x12)], 25_000);
    sign(&mut twice, &key(1)).unwrap();
    sign(&mut twice, &key(1)).unwrap();
    assert_eq!(signatures(&once), signatures(&twice));
    assert_eq!(once.tx().serialize(), twice.tx().serialize());
    assert_eq!(twice.input_count(), 2);
}

#[test]
fn signing_order_does_not_matter() {
    let mut forward = unsigned(vec![(10_000, 1, 0x11), (20_000, 2, 0x12)], 25_000);
    sign(&mut forward, &key(1)).unwrap();
    sign(&mut forward, &key(3)).unwrap();
    let mut backward = unsigned(vec![(10_000, 1, 0x11), (20_000, 2, 0x12)], 25_000);
    sign(&mut backward, &key(3)).unwrap();
    sign(&mut backward, &key(1)).unwrap();
    assert_eq!(signatures(&forward), signatures(&backward));
    assert!(signatures(&forward).iter().all(|input| input[0].is_some() && input[2].is_some()));
}

#[test]
fn signing_keeps_what_was_signed() {
    let mut pst = unsigned(vec![(10_000, 1, 0x11)], 1000);
    sign(&mut pst, &key(1)).unwrap();
    let before = signatures(&pst);
    sign(&mut pst, &key(3)).unwrap();
    let after = signatures(&pst);
    assert_eq!(after[0][0], before[0][0]);
    assert!(after[0][2].is_some());
    sign(&mut pst, &key(9)).unwrap();
    assert_eq!(signatures(&pst), after);
}

#[test]
fn finalize_reports_every_short_input() {
    let mut pst = unsigned(vec![(10_000, 1, 0x11), (20_000, 2, 0x12)], 25_000);
    match finalize(&pst) {
        Finalization::Incomplete { short_inputs } => assert_eq!(short_inputs, vec![0, 1]),
        other => panic!("not incomplete: {:?}", other),
    }
    sign(&mut pst, &key(1)).unwrap();
    match finalize(&pst) {
        Finalization::Incomplete { short_inputs } => assert_eq!(short_inputs, vec![0, 1]),
        other => panic!("not incomplete: {:?}", other),
    }
    sign(&mut pst, &key(2)).unwrap();
    assert!(matches!(finalize(&pst), Finalization::Final { .. }));
}

#[test]
fn finalize_does_not_change_the_pst() {
    let mut pst = unsigned(vec![(10_000, 1, 0x11)], 1000);
    sign(&mut pst, &key(1)).unwrap();
    sign(&mut pst, &key(2)).unwrap();
    let first = finalize(&pst);
    let second = finalize(&pst);
    match (first, second) {
        (Finalization::Final { raw_tx: a, txid: x }, Finalization::Final { raw_tx: b, txid: y }) => {
            assert_eq!(a, b);
            assert_eq!(x, y);
        }
        other => panic!("not final: {:?}", other),
    }
    assert!(pst.tx().inputs[0].script_sig.is_empty());
}

#[test]
fn a_signature_that_does_not_verify_is_invalid() {
    let mut pst = unsigned(vec![(10_000, 1, 0x11)], 1000);
    sign(&mut pst, &key(1)).unwrap();
    let good = pst.input(0).signature(0).cloned().unwrap();
    assert!(pst.add_signature(0, 1, good));
    assert!(matches!(finalize(&pst), Finalization::Invalid));
}

#[test]
fn a_signature_with_another_sighash_byte_is_invalid() {
    let mut pst = unsigned(vec![(10_000, 1, 0x11)], 1000);
    sign(&mut pst, &key(1)).unwrap();
    let mut other = unsigned(vec![(10_000, 1, 0x11)], 1000);
    sign(&mut other, &key(2)).unwrap();
    let mut signature = other.input(0).signature(1).cloned().unwrap();
    *signature.last_mut().unwrap() = 0x02;
    assert!(pst.add_signature(0, 1, signature));
    assert!(matches!(finalize(&pst), Finalization::Invalid));
    let mut empty = unsigned(vec![(10_000, 1, 0x11)], 1000);
    sign(&mut empty, &key(1)).unwrap();
    assert!(empty.add_signature(0, 2, vec![]));
    assert!(matches!(finalize(&empty), Finalization::Invalid));
}

#[test]
fn merge_is_the_union_of_the_signatures() {
    let mut mine = unsigned(vec![(10_000, 1, 0x11), (20_000, 2, 0x12)], 25_000);
    sign(&mut mine, &key(1)).unwrap();
    let mut theirs = unsigned(vec![(10_000, 1, 0x11), (20_000, 2, 0x12)], 25_000);
    sign(&mut theirs, &key(3)).unwrap();
    sign(&mut theirs, &key(1)).unwrap();
    let expected_first = signatures(&mine);
    let expected_third = signatures(&theirs);
    assert!(mine.can_merge_with(&theirs));
    assert!(mine.merge(&theirs));
    let held = signatures(&mine);
    for input in 0..2 {
        assert_eq!(held[input][0], expected_first[input][0]);
        assert!(held[input][1].is_none());
        assert_eq!(held[input][2], expected_third[input][2]);
    }
    assert!(mine.merge(&theirs));
    assert_eq!(signatures(&mine), held);
    assert!(matches!(finalize(&mine), Finalization::Final { .. }));
    assert_eq!(signatures(&theirs), expected_third);
}

#[test]
fn merge_refuses_another_transaction_and_other_signatures() {
    let mut mine = unsigned(vec![(10_000, 1, 0x11)], 1000);
    sign(&mut mine, &key(1)).unwrap();
    let before = signatures(&mine);
    let mut other_amount = unsigned(vec![(10_000, 1, 0x11)], 1001);
    sign(&mut other_amount, &key(2)).unwrap();
    assert!(!mine.can_merge_with(&other_amount));
    assert!(!mine.merge(&other_amount));
    assert_eq!(signatures(&mine), before);
    let mut contradicting = unsigned(vec![(10_000, 1, 0x11)], 1000);
    let mut forged = before[0][0].clone().unwrap();
    forged[6] ^= 1;
    assert!(contradicting.add_signature(0, 0, forged));
    assert!(!mine.merge(&contradicting));
    assert_eq!(signatures(&mine), before);
    let more_inputs = unsigned(vec![(10_000, 1, 0x11), (20_000, 2, 0x12)], 25_000);
    assert!(!mine.merge(&more_inputs));
}

#[test]
fn wallet_reports_a_mismatch_in_a_pst_from_elsewhere() {
    let descriptor = policy();
    let good = coin(&descriptor, 10_000, 1, 0x11);
    let mut funding = good.funding_tx.duplicate();
    funding.outputs[0].script_pubkey[5] ^= 1;
    let tx = Transaction {
        version: 2,
        inputs: vec![TxIn { previous_output: good.outpoint.duplicate(), script_sig: vec![], sequence: 0 }],
        outputs: vec![],
        lock_time: 0,
    };
    let input = PstInput::new(funding, 2, descriptor.keys().clone()).unwrap();
    let mut pst = Pst::new(tx, vec![input]).unwrap();
    let mut wallet = MultisigWallet::new(policy());
    assert!(wallet.sign_transaction(&mut pst).is_ok());
    wallet.add_signer(key(1));
    assert!(matches!(
        wallet.sign_transaction(&mut pst),
        Err(btc_multisig::Error::Sign(SignError::DescriptorMismatch(0)))
    ));
}

#[test]
fn signatures_from_copies_can_be_merged() {
    let mut mine = unsigned(vec![(10_000, 1, 0x11)], 1000);
    sign(&mut mine, &key(1)).unwrap();
    let mut theirs = unsigned(vec![(10_000, 1, 0x11)], 1000);
    sign(&mut theirs, &key(3)).unwrap();
    let given = theirs.input(0).signature(2).cloned().unwrap();
    assert!(mine.add_signature(0, 2, given.clone()));
    assert!(mine.add_signature(0, 2, given.clone()));
    let mut changed = given.clone();
    changed[5] ^= 1;
    assert!(!mine.add_signature(0, 2, changed));
    assert_eq!(mine.input(0).signature(2), Some(&given));
    assert!(!mine.add_signature(0, 1, vec![0u8; 74]));
    assert!(matches!(finalize(&mine), Finalization::Final { .. }));
}

#[test]
fn redeem_script_that_does_not_match_the_output_is_a_mismatch() {
    let descriptor = policy();
    let good = coin(&descriptor, 10_000, 1, 0x11);
    let mut funding = good.funding_tx.duplicate();
    funding.outputs[0].script_pubkey[5] ^= 1;
    let tx = Transaction {
        version: 2,
        inputs: vec![
            TxIn { previous_output: good.outpoint.duplicate(), script_sig: vec![], sequence: 0xffff_fffd },
            TxIn { previous_output: good.outpoint.duplicate(), script_sig: vec![], sequence: 0xffff_fffd },
        ],
        outputs: vec![TxOut { value: 1000, script_pubkey: vec![0x51] }],
        lock_time: 0,
    };
    let inputs = vec![
        PstInput::new(good.funding_tx.duplicate(), 2, descriptor.keys().clone()).unwrap(),
        PstInput::new(funding, 2, descriptor.keys().clone()).unwrap(),
    ];
    let mut pst = Pst::new(tx, inputs).unwrap();
    assert_eq!(sign(&mut pst, &key(1)), Err(SignError::DescriptorMismatch(1)));
    assert!(pst.input(0).signature(0).is_some());
    assert!(pst.input(1).signature(0).is_none());
    assert_eq!(sign(&mut pst, &key(2)), Err(SignError::DescriptorMismatch(1)));
    match finalize(&pst) {
        Finalization::Incomplete { short_inputs } => assert_eq!(short_inputs, vec![1]),
        other => panic!("not incomplete: {:?}", other),
    }
}

#[test]
fn output_that_is_missing_or_not_p2sh_is_a_mismatch() {
    let descriptor = policy();
    let good = coin(&descriptor, 10_000, 1, 0x11);
    let tx = Transaction {
        version: 2,
        inputs: vec![TxIn {
            previous_output: OutPoint { txid: good.outpoint.txid.clone(), vout: 7 },
            script_sig: vec![],
            sequence: 0xffff_fffd,
        }],
        outputs: vec![TxOut { value: 1000, script_pubkey: vec![0x51] }],
        lock_time: 0,
    };
    let input = PstInput::new(good.funding_tx.duplicate(), 2, descriptor.keys().clone()).unwrap();
    let mut pst = Pst::new(tx, vec![input]).unwrap();
    assert_eq!(sign(&mut pst, &key(1)), Err(SignError::DescriptorMismatch(0)));
    let mut plain = good.funding_tx.duplicate();
    plain.outputs[0].script_pubkey = vec![0x76, 0xa9, 0x14];
    let tx = Transaction {
        version: 2,
        inputs: vec![TxIn { previous_output: good.outpoint.duplicate(), script_sig: vec![], sequence: 0 }],
        outputs: vec![],
        lock_time: 0,
    };
    let input = PstInput::new(plain, 2, descriptor.keys().clone()).unwrap();
    let mut pst = Pst::new(tx, vec![input]).unwrap();
    assert_eq!(sign(&mut pst, &key(1)), Err(SignError::DescriptorMismatch(0)));
}

#[test]
fn unbound_input_with_enough_signatures_is_invalid() {
    let descriptor = policy();
    let good = coin(&descriptor, 10_000, 1, 0x11);
    let mut signed = unsigned(vec![(10_000, 1, 0x11)], 1000);
    sign(&mut signed, &key(1)).unwrap();
    sign(&mut signed, &key(2)).unwrap();
    let mut funding = good.funding_tx.duplicate();
    funding.outputs[0].script_pubkey[5] ^= 1;
    let input = PstInput::new(funding, 2, descriptor.keys().clone()).unwrap();
    let mut pst = Pst::new(signed.tx().duplicate(), vec![input]).unwrap();
    assert!(pst.add_signature(0, 0, signed.input(0).signature(0).cloned().unwrap()));
    assert!(pst.add_signature(0, 1, signed.input(0).signature(1).cloned().unwrap()));
    assert!(matches!(finalize(&pst), Finalization::Invalid));
}

#[test]
fn pst_parts_must_fit_together() {
    let descriptor = policy();
    let good = coin(&descriptor, 10_000, 1, 0x11);
    assert!(PstInput::new(good.funding_tx.duplicate(), 0, descriptor.keys().clone()).is_none());
    assert!(PstInput::new(good.funding_tx.duplicate(), 4, descriptor.keys().clone()).is_none());
    assert!(PstInput::new(good.funding_tx.duplicate(), 1, vec![]).is_none());
    assert!(PstInput::new(good.funding_tx.duplicate(), 1, vec![vec![2u8; 32]]).is_none());
    assert!(PstInput::new(good.funding_tx.duplicate(), 1, vec![vec![4u8; 33]]).is_none());
    let twice = vec![descriptor.keys()[0].clone(), descriptor.keys()[0].clone()];
    assert!(PstInput::new(good.funding_tx.duplicate(), 1, twice).is_none());
    let tx = Transaction {
        version: 2,
        inputs: vec![TxIn { previous_output: good.outpoint.duplicate(), script_sig: vec![0x00], sequence: 0 }],
        outputs: vec![],
        lock_time: 0,
    };
    let input = PstInput::new(good.funding_tx.duplicate(), 2, descriptor.keys().clone()).unwrap();
    assert!(Pst::new(tx, vec![input]).is_none());
    let tx = Transaction { version: 2, inputs: vec![], outputs: vec![], lock_time: 0 };
    let input = PstInput::new(good.funding_tx.duplicate(), 2, descriptor.keys().clone()).unwrap();
    assert!(Pst::new(tx, vec![input]).is_none());
}
