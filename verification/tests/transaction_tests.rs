use btc_multisig::{OutPoint, Transaction, TxIn, TxOut};

fn sample_transaction() -> Transaction {
    Transaction {
        version: 2,
        inputs: vec![
            TxIn {
                previous_output: OutPoint { txid: (0..32u8).collect(), vout: 1 },
                script_sig: vec![0x51, 0x52, 0x53],
                sequence: 0xffff_fffd,
            },
            TxIn {
                previous_output: OutPoint { txid: vec![0xab; 32], vout: 0x0102_0304 },
                script_sig: vec![],
                sequence: 0xffff_ffff,
            },
        ],
        outputs: vec![
            TxOut { value: 1000, script_pubkey: vec![0x76, 0xa9, 0x14, 1, 2, 3, 0x88, 0xac] },
            TxOut { value: 8625, script_pubkey: vec![0xa9, 0x14, 9, 9, 9, 0x87] },
        ],
        lock_time: 500_000,
    }
}

fn to_bitcoin(tx: &Transaction) -> bdk::bitcoin::Transaction {
    bdk::bitcoin::Transaction {
        version: tx.version as i32,
        lock_time: bdk::bitcoin::PackedLockTime(tx.lock_time),
        input: tx
            .inputs
            .iter()
            .map(|i| bdk::bitcoin::TxIn {
                previous_output: bdk::bitcoin::OutPoint {
                    txid: <bdk::bitcoin::Txid as bdk::bitcoin::hashes::Hash>::from_slice(
                        &i.previous_output.txid,
                    )
                    .unwrap(),
                    vout: i.previous_output.vout,
                },
                script_sig: bdk::bitcoin::Script::from(i.script_sig.clone()),
                sequence: bdk::bitcoin::Sequence(i.sequence),
                witness: bdk::bitcoin::Witness::default(),
            })
            .collect(),
        output: tx
            .outputs
            .iter()
            .map(|o| bdk::bitcoin::TxOut {
                value: o.value,
                script_pubkey: bdk::bitcoin::Script::from(o.script_pubkey.clone()),
            })
            .collect(),
    }
}

#[test]
fn serialization_is_the_legacy_format() {
    let tx = sample_transaction();
    let expected = bdk::bitcoin::consensus::encode::serialize(&to_bitcoin(&tx));
    assert_eq!(tx.serialize(), expected);
}

#[test]
fn serialization_byte_by_byte() {
    let tx = Transaction {
        version: 2,
        inputs: vec![TxIn {
            previous_output: OutPoint { txid: vec![0x11; 32], vout: 3 },
            script_sig: vec![0xaa, 0xbb],
            sequence: 0xffff_fffd,
        }],
        outputs: vec![TxOut { value: 1000, script_pubkey: vec![0x51] }],
        lock_time: 0,
    };
    let mut expected = vec![2, 0, 0, 0, 1];
    expected.extend_from_slice(&[0x11; 32]);
    expected.extend_from_slice(&[3, 0, 0, 0, 2, 0xaa, 0xbb, 0xfd, 0xff, 0xff, 0xff]);
    expected.extend_from_slice(&[1, 0xe8, 0x03, 0, 0, 0, 0, 0, 0, 1, 0x51]);
    expected.extend_from_slice(&[0, 0, 0, 0]);
    assert_eq!(tx.serialize(), expected);
}

#[test]
fn long_scripts_take_a_wider_length() {
    let tx = Transaction {
        version: 1,
        inputs: vec![TxIn {
            previous_output: OutPoint { txid: vec![0x22; 32], vout: 0 },
            script_sig: vec![0x6a; 300],
            sequence: 0,
        }],
        outputs: vec![TxOut { value: u64::MAX, script_pubkey: vec![0x00; 253] }],
        lock_time: u32::MAX,
    };
    let expected = bdk::bitcoin::consensus::encode::serialize(&to_bitcoin(&tx));
    assert_eq!(tx.serialize(), expected);
}

#[test]
fn txid_is_the_double_sha256_of_the_serialization() {
    let tx = sample_transaction();
    let expected = to_bitcoin(&tx).txid();
    let inner: &[u8] = expected.as_ref();
    assert_eq!(tx.txid(), inner.to_vec());
    assert_eq!(tx.txid().len(), 32);
}

#[test]
fn sighash_preimage_replaces_the_script_signatures() {
    let tx = sample_transaction();
    let code = vec![0x52, 0x21, 0x02, 0xae];
    let mut form = sample_transaction();
    form.inputs[0].script_sig = vec![];
    form.inputs[1].script_sig = code.clone();
    let mut expected = form.serialize();
    expected.extend_from_slice(&[1, 0, 0, 0]);
    assert_eq!(tx.sighash_preimage(1, &code), expected);
}

#[test]
fn sighash_is_that_of_the_legacy_rules() {
    let tx = sample_transaction();
    let code = vec![0x52, 0x21, 0x02, 0xae];
    let other = to_bitcoin(&tx);
    for index in 0..2usize {
        let cache = bdk::bitcoin::util::sighash::SighashCache::new(&other);
        let expected = cache
            .legacy_signature_hash(index, &bdk::bitcoin::Script::from(code.clone()), 1)
            .unwrap();
        let inner: &[u8] = expected.as_ref();
        assert_eq!(tx.sighash(index, &code), inner.to_vec());
    }
}

#[test]
fn duplicate_is_equal_in_every_field() {
    let tx = sample_transaction();
    let copy = tx.duplicate();
    assert_eq!(copy.serialize(), tx.serialize());
    assert_eq!(copy.inputs.len(), 2);
    assert_eq!(copy.outputs[1].value, 8625);
}

#[test]
fn parse_reads_back_what_serialize_wrote() {
    let tx = sample_transaction();
    let read = Transaction::parse(&tx.serialize()).expect("a transaction");
    assert!(read.same_as(&tx));
    assert_eq!(read.version, 2);
    assert_eq!(read.inputs.len(), 2);
    assert_eq!(read.inputs[0].previous_output.txid, (0..32u8).collect::<Vec<u8>>());
    assert_eq!(read.inputs[0].previous_output.vout, 1);
    assert_eq!(read.inputs[0].script_sig, vec![0x51, 0x52, 0x53]);
    assert_eq!(read.inputs[1].sequence, 0xffff_ffff);
    assert_eq!(read.outputs[1].value, 8625);
    assert_eq!(read.lock_time, 500_000);
    assert_eq!(read.serialize(), tx.serialize());
}

#[test]
fn parse_reads_what_the_bitcoin_library_writes() {
    let mut tx = sample_transaction();
    tx.inputs[0].script_sig = vec![0x6a; 300];
    tx.outputs[0].script_pubkey = vec![0x00; 253];
    let bytes = bdk::bitcoin::consensus::encode::serialize(&to_bitcoin(&tx));
    let read = Transaction::parse(&bytes).expect("a transaction");
    assert!(read.same_as(&tx));
}

#[test]
fn parse_refuses_what_is_no_legacy_serialization() {
    let bytes = sample_transaction().serialize();
    assert!(Transaction::parse(&[]).is_none());
    assert!(Transaction::parse(&bytes[..3]).is_none());
    for cut in [bytes.len() - 1, bytes.len() - 4, 40, 5] {
        assert!(Transaction::parse(&bytes[..cut]).is_none(), "cut at {}", cut);
    }
    let mut longer = bytes.clone();
    longer.push(0);
    assert!(Transaction::parse(&longer).is_none());
    let no_inputs = Transaction { version: 2, inputs: vec![], outputs: vec![], lock_time: 0 };
    assert!(Transaction::parse(&no_inputs.serialize()).is_none());
}

#[test]
fn parse_refuses_the_witness_format() {
    let mut other = to_bitcoin(&sample_transaction());
    other.input[0].witness.push(vec![1u8, 2, 3]);
    let bytes = bdk::bitcoin::consensus::encode::serialize(&other);
    assert_eq!(bytes[4..6], [0x00, 0x01]);
    assert!(Transaction::parse(&bytes).is_none());
}

#[test]
fn parse_refuses_counts_that_are_not_in_their_shortest_form() {
    let tx = Transaction {
        version: 1,
        inputs: vec![TxIn {
            previous_output: OutPoint { txid: vec![0x33; 32], vout: 0 },
            script_sig: vec![],
            sequence: 0,
        }],
        outputs: vec![],
        lock_time: 0,
    };
    let bytes = tx.serialize();
    assert!(Transaction::parse(&bytes).is_some());
    let mut wide = bytes[..4].to_vec();
    wide.extend_from_slice(&[0xfd, 0x01, 0x00]);
    wide.extend_from_slice(&bytes[5..]);
    assert!(Transaction::parse(&wide).is_none());
    let mut wide_script = bytes[..41].to_vec();
    wide_script.extend_from_slice(&[0xfe, 0x00, 0x00, 0x00, 0x00]);
    wide_script.extend_from_slice(&bytes[42..]);
    assert!(Transaction::parse(&wide_script).is_none());
    let mut huge = bytes[..41].to_vec();
    huge.extend_from_slice(&[0xff; 9]);
    huge.extend_from_slice(&bytes[42..]);
    assert!(Transaction::parse(&huge).is_none());
}

#[test]
fn same_as_sees_every_field() {
    let tx = sample_transaction();
    assert!(tx.same_as(&sample_transaction()));
    let mut other = sample_transaction();
    other.version = 1;
    assert!(!tx.same_as(&other));
    let mut other = sample_transaction();
    other.lock_time = 0;
    assert!(!tx.same_as(&other));
    let mut other = sample_transaction();
    other.inputs[1].previous_output.txid[31] ^= 1;
    assert!(!tx.same_as(&other));
    let mut other = sample_transaction();
    other.inputs[0].script_sig.pop();
    assert!(!tx.same_as(&other));
    let mut other = sample_transaction();
    other.inputs[0].sequence = 0;
    assert!(!tx.same_as(&other));
    let mut other = sample_transaction();
    other.outputs[1].value += 1;
    assert!(!tx.same_as(&other));
    let mut other = sample_transaction();
    other.outputs.pop();
    assert!(!tx.same_as(&other));
}
