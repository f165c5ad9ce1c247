//! The PST on the wire, in the format of BIP 174: a magic number, a map for
//! the transaction, one map for each input and one for each output. A map is
//! a list of records, each a key and a value with their lengths, closed by a
//! zero byte.

use vstd::prelude::*;
use crate::encoding::{
    byte_strings,
    compact_size,
    copy_bytes,
    le_bytes,
    lemma_parse_compact_size_of,
    parse_compact_size,
    push_bytes,
    push_compact_size,
    push_le,
    read_compact_size,
};
use crate::pst::{redeem_script, Pst, PstInput, PstInputView, PstView, MAX_SIGNATURE_LEN};
use crate::script::{
    build_multisig_script,
    find_key,
    key_position,
    parse_multisig_script,
    read_multisig_script,
    KEY_LEN,
};
use crate::transaction::{transaction_bytes, Transaction, TransactionView, SIGHASH_ALL};
use crate::transaction_parse::parse_transaction;

verus! {

/// The key type of the unsigned transaction, in the map of the transaction.
pub const KEY_UNSIGNED_TX: u8 = 0x00;

/// The key type of the funding transaction, in the map of an input.
pub const KEY_NON_WITNESS_UTXO: u8 = 0x00;

/// The key type of a partial signature; the public key follows it.
pub const KEY_PARTIAL_SIG: u8 = 0x02;

/// The key type of the sighash type.
pub const KEY_SIGHASH_TYPE: u8 = 0x03;

/// The key type of the redeem script.
pub const KEY_REDEEM_SCRIPT: u8 = 0x04;

/// What closes a map.
pub const MAP_END: u8 = 0x00;

/// `psbt` and 0xff.
pub open spec fn magic() -> Seq<u8> {
    seq![0x70u8, 0x73u8, 0x62u8, 0x74u8, 0xffu8]
}

/// A record: the key type with the key data after it, and the value, each
/// after its length.
pub open spec fn record(key_type: u8, key_data: Seq<u8>, value: Seq<u8>) -> Seq<u8> {
    compact_size(1 + key_data.len()) + seq![key_type] + key_data + compact_size(value.len())
        + value
}

/// The records of the signatures under the first `upto` keys, in the order
/// of the keys.
pub open spec fn signature_records(input: PstInputView, upto: int) -> Seq<u8>
    decreases upto,
{
    if upto <= 0 {
        Seq::empty()
    } else {
        match input.signatures[upto - 1] {
            Some(signature) => signature_records(input, upto - 1) + record(
                KEY_PARTIAL_SIG,
                input.keys[upto - 1],
                signature,
            ),
            None => signature_records(input, upto - 1),
        }
    }
}

/// The map of an input: the funding transaction, the partial signatures, the
/// sighash type and the redeem script.
pub open spec fn input_map(input: PstInputView) -> Seq<u8> {
    record(KEY_NON_WITNESS_UTXO, Seq::empty(), transaction_bytes(input.funding_tx))
        + signature_records(input, input.keys.len() as int) + record(
        KEY_SIGHASH_TYPE,
        Seq::empty(),
        le_bytes(input.sighash_type as nat, 4),
    ) + record(KEY_REDEEM_SCRIPT, Seq::empty(), redeem_script(input)) + seq![MAP_END]
}

/// The maps of the first `upto` inputs.
pub open spec fn input_maps(inputs: Seq<PstInputView>, upto: int) -> Seq<u8>
    decreases upto,
{
    if upto <= 0 {
        Seq::empty()
    } else {
        input_maps(inputs, upto - 1) + input_map(inputs[upto - 1])
    }
}

/// The maps of `count` outputs, each empty.
pub open spec fn output_maps(count: nat) -> Seq<u8> {
    Seq::new(count, |i: int| MAP_END)
}

/// The PST on the wire.
pub open spec fn pst_bytes(pst: PstView) -> Seq<u8> {
    magic() + record(KEY_UNSIGNED_TX, Seq::empty(), transaction_bytes(pst.tx)) + seq![MAP_END]
        + input_maps(pst.inputs, pst.inputs.len() as int) + output_maps(pst.tx.outputs.len())
}

fn push_record(out: &mut Vec<u8>, key_type: u8, key_data: &[u8], value: &[u8])
    requires
        key_data@.len() < usize::MAX,
    ensures
        final(out)@ == old(out)@ + record(key_type, key_data@, value@),
{
    let ghost start = out@;
    push_compact_size(out, 1 + key_data.len() as u64);
    out.push(key_type);
    push_bytes(out, key_data);
    push_compact_size(out, value.len() as u64);
    push_bytes(out, value);
    assert(out@ =~= start + record(key_type, key_data@, value@));
}

fn push_input_map(out: &mut Vec<u8>, input: &PstInput)
    requires
        input.wf(),
    ensures
        final(out)@ == old(out)@ + input_map(input@),
{
    let ghost start = out@;
    let empty: Vec<u8> = Vec::new();
    assert(empty@ =~= Seq::<u8>::empty());
    let funding = input.funding_tx().serialize();
    push_record(out, KEY_NON_WITNESS_UTXO, empty.as_slice(), funding.as_slice());
    let ghost head = out@;
    let keys = input.keys();
    let mut j: usize = 0;
    while j < keys.len()
        invariant
            j <= keys@.len(),
            input.wf(),
            byte_strings(keys@) == input@.keys,
            out@ == head + signature_records(input@, j as int),
        decreases keys@.len() - j,
    {
        match input.signature(j) {
            Some(signature) => {
                assert(crate::script::is_compressed_key(byte_strings(keys@)[j as int]));
                push_record(out, KEY_PARTIAL_SIG, keys[j].as_slice(), signature.as_slice());
                assert(out@ =~= head + signature_records(input@, j + 1));
            },
            None => {},
        }
        j += 1;
    }
    let mut sighash_type: Vec<u8> = Vec::new();
    push_le(&mut sighash_type, input.sighash_type() as u64, 4);
    assert(sighash_type@ =~= le_bytes(input@.sighash_type as nat, 4));
    push_record(out, KEY_SIGHASH_TYPE, empty.as_slice(), sighash_type.as_slice());
    assert forall|k: int| 0 <= k < keys@.len() implies (#[trigger] keys@[k])@.len()
        <= 0xffff_ffff by {
        assert(crate::script::is_compressed_key(byte_strings(keys@)[k]));
    }
    let script = build_multisig_script(input.threshold(), keys);
    push_record(out, KEY_REDEEM_SCRIPT, empty.as_slice(), script.as_slice());
    out.push(MAP_END);
    assert(out@ =~= start + input_map(input@));
}

/// The PST in the format of BIP 174.
pub fn serialize_pst(pst: &Pst) -> (bytes: Vec<u8>)
    requires
        pst.wf(),
    ensures
        bytes@ == pst_bytes(pst@),
{
    let mut out: Vec<u8> = Vec::new();
    out.push(0x70);
    out.push(0x73);
    out.push(0x62);
    out.push(0x74);
    out.push(0xff);
    assert(out@ =~= magic());
    let empty: Vec<u8> = Vec::new();
    assert(empty@ =~= Seq::<u8>::empty());
    let tx = pst.tx().serialize();
    push_record(&mut out, KEY_UNSIGNED_TX, empty.as_slice(), tx.as_slice());
    out.push(MAP_END);
    let ghost head = out@;
    let n = pst.input_count();
    let mut i: usize = 0;
    while i < n
        invariant
            i <= n,
            n == pst@.inputs.len(),
            pst.wf(),
            out@ == head + input_maps(pst@.inputs, i as int),
        decreases n - i,
    {
        push_input_map(&mut out, pst.input(i));
        assert(out@ =~= head + input_maps(pst@.inputs, i + 1));
        i += 1;
    }
    let ghost body = out@;
    let outputs = pst.tx().outputs.len();
    let mut k: usize = 0;
    while k < outputs
        invariant
            k <= outputs,
            out@ == body + output_maps(k as nat),
        decreases outputs - k,
    {
        out.push(MAP_END);
        assert(out@ =~= body + output_maps((k + 1) as nat));
        k += 1;
    }
    assert(outputs == pst@.tx.outputs.len());
    assert(out@ =~= pst_bytes(pst@));
    out
}

} // verus!

verus! {

/// A record of a map.
pub struct Record {
    pub key_type: u8,
    pub key_data: Seq<u8>,
    pub value: Seq<u8>,
}

/// The record at the start of `bytes`, with the number of bytes it takes. A
/// key of no bytes is no record: it closes the map.
#[verifier::opaque]
pub open spec fn parse_record(bytes: Seq<u8>) -> Option<(Record, int)> {
    match parse_compact_size(bytes) {
        None => None,
        Some((key_len, k1)) => if key_len < 1 || bytes.len() < k1 + key_len {
            None
        } else {
            match parse_compact_size(bytes.skip(k1 as int + key_len as int)) {
                None => None,
                Some((value_len, k2)) => {
                    let start = k1 as int + key_len as int + k2 as int;
                    if bytes.len() < start + value_len {
                        None
                    } else {
                        Some(
                            (
                                Record {
                                    key_type: bytes[k1 as int],
                                    key_data: bytes.subrange(
                                        k1 as int + 1,
                                        k1 as int + key_len as int,
                                    ),
                                    value: bytes.subrange(start, start + value_len as int),
                                },
                                start + value_len as int,
                            ),
                        )
                    }
                },
            }
        },
    }
}

/// A record that was written is read back, whatever follows it.
pub proof fn lemma_parse_record_of(key_type: u8, key_data: Seq<u8>, value: Seq<u8>, rest: Seq<u8>)
    requires
        key_data.len() < u64::MAX,
        value.len() <= u64::MAX,
    ensures
        parse_record(record(key_type, key_data, value) + rest) == Some(
            (Record { key_type, key_data, value }, record(key_type, key_data, value).len() as int),
        ),
        record(key_type, key_data, value).len() >= 3,
{
    reveal(parse_record);
    let bytes = record(key_type, key_data, value) + rest;
    let key_len = 1 + key_data.len();
    let size1 = compact_size(key_len);
    let size2 = compact_size(value.len());
    let k1 = size1.len() as int;
    let k2 = size2.len() as int;
    crate::encoding::lemma_compact_size_len(key_len);
    crate::encoding::lemma_compact_size_len(value.len());
    let after1 = seq![key_type] + key_data + size2 + value + rest;
    assert(bytes =~= size1 + after1);
    lemma_parse_compact_size_of(key_len, after1);
    let after2 = value + rest;
    assert(bytes.skip(k1 + key_len) =~= size2 + after2);
    lemma_parse_compact_size_of(value.len(), after2);
    let start = k1 + key_len + k2;
    assert(bytes[k1] == key_type);
    assert(bytes.subrange(k1 + 1, k1 + key_len) =~= key_data);
    assert(bytes.subrange(start, start + value.len()) =~= value);
}

/// A record as it is read: the key type, the key data and the value.
pub struct RawRecord {
    pub key_type: u8,
    pub key_data: Vec<u8>,
    pub value: Vec<u8>,
}

impl View for RawRecord {
    type V = Record;

    open spec fn view(&self) -> Record {
        Record { key_type: self.key_type, key_data: self.key_data@, value: self.value@ }
    }
}

/// Reads the record at `at`: the record and the place after it.
pub fn read_record(bytes: &[u8], at: usize) -> (r: Option<(RawRecord, usize)>)
    requires
        at <= bytes@.len(),
    ensures
        match parse_record(bytes@.skip(at as int)) {
            Some((record, used)) => r is Some && r.unwrap().0@ == record && r.unwrap().1 == at
                + used && used >= 3 && at + used <= bytes@.len(),
            None => r is None,
        },
{
    proof {
        reveal(parse_record);
    }
    let total = bytes.len();
    let ghost tail = bytes@.skip(at as int);
    let (key_len, k1) = match read_compact_size(bytes, at) {
        None => {
            return None;
        },
        Some(size) => size,
    };
    let key_at = at + k1;
    if key_len < 1 || key_len > (total - key_at) as u64 {
        return None;
    }
    let key_end = key_at + key_len as usize;
    assert(tail.skip(k1 as int + key_len as int) =~= bytes@.skip(key_end as int));
    let (value_len, k2) = match read_compact_size(bytes, key_end) {
        None => {
            return None;
        },
        Some(size) => size,
    };
    let value_at = key_end + k2;
    if value_len > (total - value_at) as u64 {
        return None;
    }
    let value_end = value_at + value_len as usize;
    let key_type = bytes[key_at];
    let key_data = copy_bytes(vstd::slice::slice_subrange(bytes, key_at + 1, key_end));
    let value = copy_bytes(vstd::slice::slice_subrange(bytes, value_at, value_end));
    proof {
        assert(tail[k1 as int] == bytes@[key_at as int]);
        assert(tail.subrange(k1 as int + 1, k1 as int + key_len as int) =~= bytes@.subrange(
            key_at + 1,
            key_end as int,
        ));
        assert(tail.subrange(
            k1 as int + key_len as int + k2 as int,
            k1 as int + key_len as int + k2 as int + value_len as int,
        ) =~= bytes@.subrange(value_at as int, value_end as int));
    }
    Some((RawRecord { key_type, key_data, value }, value_end))
}

} // verus!

verus! {

/// What the records of an input map have given so far.
pub struct InputFields {
    pub funding: Option<TransactionView>,
    pub policy: Option<(nat, Seq<Seq<u8>>)>,
    pub sighash: Option<u32>,
    /// The partial signatures in the order of the records: public key and
    /// signature.
    pub signatures: Seq<(Seq<u8>, Seq<u8>)>,
}

pub open spec fn no_fields() -> InputFields {
    InputFields { funding: None, policy: None, sighash: None, signatures: Seq::empty() }
}

/// The signature that the records from `from` on give under `key`.
pub open spec fn signature_under(
    signatures: Seq<(Seq<u8>, Seq<u8>)>,
    key: Seq<u8>,
    from: int,
) -> Option<Seq<u8>>
    decreases signatures.len() - from,
{
    if from < 0 || from >= signatures.len() {
        None
    } else if signatures[from].0 == key {
        Some(signatures[from].1)
    } else {
        signature_under(signatures, key, from + 1)
    }
}

/// The fields with one more record. A record of a type that the PST does not
/// use is refused, and so is a second record with the key of an earlier one.
#[verifier::opaque]
pub open spec fn with_record(fields: InputFields, record: Record) -> Option<InputFields> {
    if record.key_type == KEY_PARTIAL_SIG {
        if record.key_data.len() != KEY_LEN || record.value.len() > MAX_SIGNATURE_LEN
            || signature_under(fields.signatures, record.key_data, 0) is Some {
            None
        } else {
            Some(
                InputFields {
                    signatures: fields.signatures.push((record.key_data, record.value)),
                    ..fields
                },
            )
        }
    } else if record.key_data.len() != 0 {
        None
    } else if record.key_type == KEY_NON_WITNESS_UTXO {
        match parse_transaction(record.value) {
            Some(tx) if fields.funding is None => Some(InputFields { funding: Some(tx), ..fields }),
            _ => None,
        }
    } else if record.key_type == KEY_SIGHASH_TYPE {
        if fields.sighash is Some || record.value != le_bytes(SIGHASH_ALL as nat, 4) {
            None
        } else {
            Some(InputFields { sighash: Some(SIGHASH_ALL), ..fields })
        }
    } else if record.key_type == KEY_REDEEM_SCRIPT {
        match parse_multisig_script(record.value) {
            Some(policy) if fields.policy is None => Some(
                InputFields { policy: Some(policy), ..fields },
            ),
            _ => None,
        }
    } else {
        None
    }
}

/// The fields that the map at the start of `bytes` adds to `fields`, with the
/// number of bytes the map takes.
pub open spec fn parse_input_map(bytes: Seq<u8>, fields: InputFields) -> Option<(InputFields, int)>
    decreases bytes.len(),
{
    if bytes.len() == 0 {
        None
    } else if bytes[0] == MAP_END {
        Some((fields, 1))
    } else {
        match parse_record(bytes) {
            None => None,
            Some((record, used)) => if used <= 0 || used > bytes.len() {
                None
            } else {
                match with_record(fields, record) {
                    None => None,
                    Some(next) => match parse_input_map(bytes.skip(used), next) {
                        None => None,
                        Some((last, more)) => Some((last, used + more)),
                    },
                }
            },
        }
    }
}

/// The input that the fields of a map describe: the funding transaction and
/// the redeem script are needed, the sighash type is `SIGHASH_ALL` where it
/// is not given, and every signature stands under a key of the redeem script.
pub open spec fn input_of_fields(fields: InputFields) -> Option<PstInputView> {
    match (fields.funding, fields.policy) {
        (Some(funding_tx), Some((threshold, keys))) => if forall|k: int|
            0 <= k < fields.signatures.len() ==> key_position(
                keys,
                (#[trigger] fields.signatures[k]).0,
                0,
            ) is Some {
            Some(
                PstInputView {
                    funding_tx,
                    threshold,
                    keys,
                    sighash_type: SIGHASH_ALL,
                    signatures: Seq::new(
                        keys.len(),
                        |j: int| signature_under(fields.signatures, keys[j], 0),
                    ),
                },
            )
        } else {
            None
        },
        _ => None,
    }
}

/// `count` input maps at the start of `bytes`, with the number of bytes they
/// take.
pub open spec fn parse_input_maps(bytes: Seq<u8>, count: nat) -> Option<(Seq<PstInputView>, int)>
    decreases count,
{
    if count == 0 {
        Some((Seq::empty(), 0))
    } else {
        match parse_input_map(bytes, no_fields()) {
            None => None,
            Some((fields, used)) => match input_of_fields(fields) {
                None => None,
                Some(input) => match parse_input_maps(bytes.skip(used), (count - 1) as nat) {
                    None => None,
                    Some((rest, more)) => Some((seq![input] + rest, used + more)),
                },
            },
        }
    }
}

/// The PST that `bytes` hold. The map of the transaction holds the unsigned
/// transaction and nothing else, the records of an input map may come in
/// any order, and the output maps are empty.
#[verifier::opaque]
pub open spec fn parse_pst(bytes: Seq<u8>) -> Option<PstView> {
    if bytes.len() < 5 || bytes.take(5) != magic() {
        None
    } else {
        match parse_record(bytes.skip(5)) {
            None => None,
            Some((record, used)) => if record.key_type != KEY_UNSIGNED_TX || record.key_data.len()
                != 0 {
                None
            } else {
                match parse_transaction(record.value) {
                    None => None,
                    Some(tx) => if !(forall|i: int|
                        0 <= i < tx.inputs.len() ==> (#[trigger] tx.inputs[i]).script_sig.len()
                            == 0) {
                        None
                    } else if bytes.len() <= 5 + used || bytes[5 + used] != MAP_END {
                        None
                    } else {
                        match parse_input_maps(bytes.skip(6 + used), tx.inputs.len()) {
                            None => None,
                            Some((inputs, more)) => if bytes.skip(6 + used + more) != output_maps(
                                tx.outputs.len(),
                            ) {
                                None
                            } else {
                                Some(PstView { tx, inputs })
                            },
                        }
                    },
                }
            },
        }
    }
}

struct Fields {
    funding: Option<Transaction>,
    policy: Option<(u8, Vec<Vec<u8>>)>,
    sighash: Option<u32>,
    signatures: Vec<(Vec<u8>, Vec<u8>)>,
}

spec fn pairs(signatures: Seq<(Vec<u8>, Vec<u8>)>) -> Seq<(Seq<u8>, Seq<u8>)> {
    signatures.map_values(|pair: (Vec<u8>, Vec<u8>)| (pair.0@, pair.1@))
}

impl View for Fields {
    type V = InputFields;

    closed spec fn view(&self) -> InputFields {
        InputFields {
            funding: match self.funding {
                Some(tx) => Some(tx@),
                None => None,
            },
            policy: match self.policy {
                Some((threshold, keys)) => Some((threshold as nat, byte_strings(keys@))),
                None => None,
            },
            sighash: self.sighash,
            signatures: pairs(self.signatures@),
        }
    }
}

spec fn bounded(fields: InputFields) -> bool {
    &&& forall|k: int|
        0 <= k < fields.signatures.len() ==> (#[trigger] fields.signatures[k]).1.len()
            <= MAX_SIGNATURE_LEN
    &&& fields.policy is Some ==> crate::script::is_policy(
        fields.policy.unwrap().0,
        fields.policy.unwrap().1,
    )
}

spec fn after_map(used: int, rest: Option<(InputFields, int)>) -> Option<(InputFields, int)> {
    match rest {
        None => None,
        Some((fields, more)) => Some((fields, used + more)),
    }
}

spec fn after_maps(
    before: Seq<PstInputView>,
    used: int,
    rest: Option<(Seq<PstInputView>, int)>,
) -> Option<(Seq<PstInputView>, int)> {
    match rest {
        None => None,
        Some((inputs, more)) => Some((before + inputs, used + more)),
    }
}

/// The signature that the records give under `key`.
fn find_signature(signatures: &Vec<(Vec<u8>, Vec<u8>)>, key: &[u8]) -> (r: Option<usize>)
    ensures
        match signature_under(pairs(signatures@), key@, 0) {
            Some(signature) => r is Some && r.unwrap() < signatures@.len() && signatures@[r.unwrap() as int].1@
                == signature,
            None => r is None,
        },
{
    let mut k: usize = 0;
    while k < signatures.len()
        invariant
            k <= signatures@.len(),
            signature_under(pairs(signatures@), key@, k as int) == signature_under(
                pairs(signatures@),
                key@,
                0,
            ),
        decreases signatures@.len() - k,
    {
        assert(pairs(signatures@)[k as int] == (signatures@[k as int].0@, signatures@[k as int].1@));
        if crate::encoding::bytes_equal(signatures[k].0.as_slice(), key) {
            return Some(k);
        }
        k += 1;
    }
    None
}

fn take_record(fields: Fields, record: RawRecord) -> (r: Option<Fields>)
    requires
        bounded(fields@),
    ensures
        match with_record(fields@, record@) {
            Some(next) => r is Some && r.unwrap()@ == next && bounded(next),
            None => r is None,
        },
{
    proof {
        reveal(with_record);
    }
    let mut fields = fields;
    if record.key_type == KEY_PARTIAL_SIG {
        if record.key_data.len() != KEY_LEN || record.value.len() > MAX_SIGNATURE_LEN
            || find_signature(&fields.signatures, record.key_data.as_slice()).is_some() {
            return None;
        }
        let ghost before = fields@;
        fields.signatures.push((record.key_data, record.value));
        assert(fields@.signatures =~= before.signatures.push((record@.key_data, record@.value)));
        Some(fields)
    } else if record.key_data.len() != 0 {
        None
    } else if record.key_type == KEY_NON_WITNESS_UTXO {
        match Transaction::parse(record.value.as_slice()) {
            Some(tx) => {
                if fields.funding.is_some() {
                    return None;
                }
                fields.funding = Some(tx);
                Some(fields)
            },
            None => None,
        }
    } else if record.key_type == KEY_SIGHASH_TYPE {
        let mut expected: Vec<u8> = Vec::new();
        push_le(&mut expected, SIGHASH_ALL as u64, 4);
        assert(expected@ =~= le_bytes(SIGHASH_ALL as nat, 4));
        if fields.sighash.is_some() || !crate::encoding::bytes_equal(
            record.value.as_slice(),
            expected.as_slice(),
        ) {
            return None;
        }
        fields.sighash = Some(SIGHASH_ALL);
        Some(fields)
    } else if record.key_type == KEY_REDEEM_SCRIPT {
        match read_multisig_script(record.value.as_slice()) {
            Some(policy) => {
                if fields.policy.is_some() {
                    return None;
                }
                fields.policy = Some(policy);
                Some(fields)
            },
            None => None,
        }
    } else {
        None
    }
}

/// Reads the input map at `at`: its fields and the place after it.
fn read_input_map(bytes: &[u8], at: usize) -> (r: Option<(Fields, usize)>)
    requires
        at <= bytes@.len(),
    ensures
        match parse_input_map(bytes@.skip(at as int), no_fields()) {
            Some((fields, used)) => r is Some && r.unwrap().0@ == fields && r.unwrap().1 == at
                + used && used >= 1 && at + used <= bytes@.len() && bounded(fields),
            None => r is None,
        },
{
    let total = bytes.len();
    let mut fields = Fields { funding: None, policy: None, sighash: None, signatures: Vec::new() };
    assert(fields@.signatures =~= Seq::empty());
    let mut pos: usize = at;
    let ghost whole = parse_input_map(bytes@.skip(at as int), no_fields());
    while pos < total
        invariant
            at <= pos <= total,
            total == bytes@.len(),
            bounded(fields@),
            whole == parse_input_map(bytes@.skip(at as int), no_fields()),
            after_map(pos - at, parse_input_map(bytes@.skip(pos as int), fields@)) == whole,
        decreases total - pos,
    {
        assert(bytes@.skip(pos as int)[0] == bytes@[pos as int]);
        if bytes[pos] == MAP_END {
            return Some((fields, pos + 1));
        }
        let (record, next) = match read_record(bytes, pos) {
            None => {
                return None;
            },
            Some(read) => read,
        };
        assert(bytes@.skip(pos as int).skip(next - pos) =~= bytes@.skip(next as int));
        fields = match take_record(fields, record) {
            None => {
                return None;
            },
            Some(more) => more,
        };
        pos = next;
    }
    None
}

/// The input that the fields of a map describe.
fn build_input(fields: Fields) -> (r: Option<PstInput>)
    requires
        bounded(fields@),
    ensures
        match input_of_fields(fields@) {
            Some(input) => r is Some && r.unwrap()@ == input && r.unwrap().wf(),
            None => r is None,
        },
{
    let ghost view = fields@;
    let keys = match (&fields.funding, &fields.policy) {
        (Some(_), Some((_, keys))) => keys,
        _ => {
            return None;
        },
    };
    let ghost key_views = byte_strings(keys@);
    let ghost expected = Seq::new(
        key_views.len(),
        |j: int| signature_under(view.signatures, key_views[j], 0),
    );
    let mut k: usize = 0;
    while k < fields.signatures.len()
        invariant
            k <= fields.signatures@.len(),
            view == fields@,
            view.funding is Some,
            view.policy is Some,
            view.policy.unwrap().1 == key_views,
            key_views == byte_strings(keys@),
            forall|i: int|
                0 <= i < k ==> key_position(key_views, (#[trigger] view.signatures[i]).0, 0) is Some,
        decreases fields.signatures@.len() - k,
    {
        assert(view.signatures[k as int].0 == fields.signatures@[k as int].0@);
        if find_key(keys, fields.signatures[k].0.as_slice()).is_none() {
            assert(key_position(key_views, view.signatures[k as int].0, 0) is None);
            return None;
        }
        k += 1;
    }
    let mut placed: Vec<Option<Vec<u8>>> = Vec::new();
    let mut j: usize = 0;
    assert(crate::pst::optional_byte_strings(placed@) =~= expected.take(0));
    while j < keys.len()
        invariant
            j <= keys@.len(),
            view == fields@,
            key_views == byte_strings(keys@),
            expected == Seq::new(
                key_views.len(),
                |j: int| signature_under(view.signatures, key_views[j], 0),
            ),
            crate::pst::optional_byte_strings(placed@) == expected.take(j as int),
        decreases keys@.len() - j,
    {
        let ghost held = crate::pst::optional_byte_strings(placed@);
        assert(key_views[j as int] == keys@[j as int]@);
        match find_signature(&fields.signatures, keys[j].as_slice()) {
            Some(at) => {
                let copy = copy_bytes(fields.signatures[at].1.as_slice());
                placed.push(Some(copy));
                assert(crate::pst::optional_byte_strings(placed@) =~= held.push(Some(copy@)));
            },
            None => {
                placed.push(None);
                assert(crate::pst::optional_byte_strings(placed@) =~= held.push(None));
            },
        }
        assert(crate::pst::optional_byte_strings(placed@) =~= expected.take(j + 1));
        j += 1;
    }
    proof {
        assert(expected.take(keys@.len() as int) =~= expected);
        lemma_signature_under_bounded(view.signatures);
        assert(forall|i: int|
            0 <= i < expected.len() && (#[trigger] expected[i]) is Some ==> expected[i].unwrap().len()
                <= MAX_SIGNATURE_LEN);
    }
    let Fields { funding, policy, sighash: _, signatures: _ } = fields;
    match (funding, policy) {
        (Some(funding_tx), Some((threshold, keys))) => PstInput::from_parts(
            funding_tx,
            threshold,
            keys,
            placed,
        ),
        _ => None,
    }
}

proof fn lemma_signature_under_bounded(signatures: Seq<(Seq<u8>, Seq<u8>)>)
    requires
        forall|k: int| 0 <= k < signatures.len() ==> (#[trigger] signatures[k]).1.len() <= MAX_SIGNATURE_LEN,
    ensures
        forall|key: Seq<u8>, from: int|
            0 <= from && (#[trigger] signature_under(signatures, key, from)) is Some
                ==> signature_under(signatures, key, from).unwrap().len() <= MAX_SIGNATURE_LEN,
{
    assert forall|key: Seq<u8>, from: int|
        0 <= from && (#[trigger] signature_under(signatures, key, from)) is Some implies signature_under(
            signatures,
            key,
            from,
        ).unwrap().len() <= MAX_SIGNATURE_LEN by {
        lemma_signature_under_from(signatures, key, from);
    }
}

proof fn lemma_signature_under_from(signatures: Seq<(Seq<u8>, Seq<u8>)>, key: Seq<u8>, from: int)
    requires
        0 <= from,
        signature_under(signatures, key, from) is Some,
    ensures
        exists|k: int|
            from <= k < signatures.len() && (#[trigger] signatures[k]).0 == key && signatures[k].1
                == signature_under(signatures, key, from).unwrap(),
    decreases signatures.len() - from,
{
    if signatures[from].0 != key {
        lemma_signature_under_from(signatures, key, from + 1);
    }
}

} // verus!

verus! {

/// Whether `bytes` start with the magic number and the map of the
/// transaction `tx`, and the input maps start at `first`.
spec fn has_header(bytes: Seq<u8>, tx: TransactionView, first: int) -> bool {
    &&& bytes.len() >= 5
    &&& bytes.take(5) == magic()
    &&& parse_record(bytes.skip(5)) is Some
    &&& parse_record(bytes.skip(5)).unwrap().0.key_type == KEY_UNSIGNED_TX
    &&& parse_record(bytes.skip(5)).unwrap().0.key_data.len() == 0
    &&& parse_transaction(parse_record(bytes.skip(5)).unwrap().0.value) == Some(tx)
    &&& first == 6 + parse_record(bytes.skip(5)).unwrap().1
    &&& forall|i: int| 0 <= i < tx.inputs.len() ==> (#[trigger] tx.inputs[i]).script_sig.len() == 0
    &&& 0 < first <= bytes.len()
    &&& bytes[first - 1] == MAP_END
}

/// What the maps after the header come to.
spec fn after_header(bytes: Seq<u8>, tx: TransactionView, first: int) -> Option<PstView> {
    match parse_input_maps(bytes.skip(first), tx.inputs.len()) {
        None => None,
        Some((inputs, more)) => if bytes.skip(first + more) != output_maps(tx.outputs.len()) {
            None
        } else {
            Some(PstView { tx, inputs })
        },
    }
}

proof fn lemma_header(bytes: Seq<u8>, tx: TransactionView, first: int)
    requires
        has_header(bytes, tx, first),
    ensures
        parse_pst(bytes) == after_header(bytes, tx, first),
{
    reveal(parse_pst);
}

/// Reads a PST in the format of BIP 174; `None` where `bytes` hold no PST of
/// the kind this library makes.
pub fn read_pst(bytes: &[u8]) -> (r: Option<Pst>)
    ensures
        match parse_pst(bytes@) {
            Some(pst) => r is Some && r.unwrap()@ == pst && r.unwrap().wf(),
            None => r is None,
        },
{
    proof {
        reveal(parse_pst);
    }
    let total = bytes.len();
    if total < 5 || !(bytes[0] == 0x70 && bytes[1] == 0x73 && bytes[2] == 0x62 && bytes[3] == 0x74
        && bytes[4] == 0xff) {
        assert(total >= 5 ==> bytes@.take(5) != magic()) by {
            if total >= 5 && bytes@.take(5) == magic() {
                assert(bytes@.take(5)[0] == bytes@[0]);
                assert(bytes@.take(5)[1] == bytes@[1]);
                assert(bytes@.take(5)[2] == bytes@[2]);
                assert(bytes@.take(5)[3] == bytes@[3]);
                assert(bytes@.take(5)[4] == bytes@[4]);
            }
        }
        return None;
    }
    assert(bytes@.take(5) =~= magic());
    let (record, next) = match read_record(bytes, 5) {
        None => {
            return None;
        },
        Some(read) => read,
    };
    if record.key_type != KEY_UNSIGNED_TX || record.key_data.len() != 0 {
        return None;
    }
    let tx = match Transaction::parse(record.value.as_slice()) {
        None => {
            return None;
        },
        Some(tx) => tx,
    };
    let ghost used = next - 5;
    let n = tx.inputs.len();
    let mut i: usize = 0;
    while i < n
        invariant
            i <= n,
            n == tx.inputs@.len(),
            tx@.inputs.len() == n,
            bytes@.len() >= 5,
            bytes@.take(5) == magic(),
            parse_record(bytes@.skip(5)) == Some((record@, used)),
            record@.key_type == KEY_UNSIGNED_TX,
            record@.key_data.len() == 0,
            parse_transaction(record@.value) == Some(tx@),
            forall|k: int| 0 <= k < i ==> (#[trigger] tx@.inputs[k]).script_sig.len() == 0,
        decreases n - i,
    {
        assert(tx@.inputs[i as int] == tx.inputs@[i as int]@);
        if tx.inputs[i].script_sig.len() != 0 {
            proof {
                reveal(parse_pst);
            }
            return None;
        }
        i += 1;
    }
    if next >= total || bytes[next] != MAP_END {
        return None;
    }
    let first = next + 1;
    proof {
        lemma_header(bytes@, tx@, first as int);
    }
    let mut inputs: Vec<PstInput> = Vec::new();
    let mut pos: usize = first;
    let mut done: usize = 0;
    let ghost all = parse_input_maps(bytes@.skip(first as int), n as nat);
    assert(inputs@.map_values(|input: PstInput| input@) =~= Seq::<PstInputView>::empty());
    assert(after_maps(Seq::empty(), 0, all) == all) by {
        if all is Some {
            assert(Seq::<PstInputView>::empty() + all.unwrap().0 =~= all.unwrap().0);
        }
    }
    while done < n
        invariant
            done <= n,
            n == tx@.inputs.len(),
            first <= pos <= bytes@.len(),
            parse_pst(bytes@) == after_header(bytes@, tx@, first as int),
            all == parse_input_maps(bytes@.skip(first as int), n as nat),
            inputs@.len() == done,
            forall|k: int| 0 <= k < done ==> (#[trigger] inputs@[k]).wf(),
            after_maps(
                inputs@.map_values(|input: PstInput| input@),
                pos - first,
                parse_input_maps(bytes@.skip(pos as int), (n - done) as nat),
            ) == all,
        decreases n - done,
    {
        let ghost before = inputs@.map_values(|input: PstInput| input@);
        let (fields, after) = match read_input_map(bytes, pos) {
            None => {
                return None;
            },
            Some(read) => read,
        };
        let input = match build_input(fields) {
            None => {
                return None;
            },
            Some(input) => input,
        };
        proof {
            assert(bytes@.skip(pos as int).skip(after - pos) =~= bytes@.skip(after as int));
            let rest = parse_input_maps(bytes@.skip(after as int), (n - done - 1) as nat);
            if rest is Some {
                assert(before.push(input@) + rest.unwrap().0 =~= before + (seq![input@]
                    + rest.unwrap().0));
            }
        }
        inputs.push(input);
        assert(inputs@.map_values(|input: PstInput| input@) =~= before.push(input@));
        pos = after;
        done += 1;
    }
    proof {
        let views = inputs@.map_values(|input: PstInput| input@);
        assert(views + Seq::<PstInputView>::empty() =~= views);
    }
    let outputs = tx.outputs.len();
    let ghost rest = bytes@.skip(pos as int);
    if total - pos != outputs {
        assert(rest.len() != output_maps(tx@.outputs.len()).len());
        return None;
    }
    let mut k: usize = 0;
    while k < outputs
        invariant
            k <= outputs,
            outputs == tx@.outputs.len(),
            pos + outputs == bytes@.len(),
            total == bytes@.len(),
            rest == bytes@.skip(pos as int),
            parse_pst(bytes@) == after_header(bytes@, tx@, first as int),
            parse_input_maps(bytes@.skip(first as int), tx@.inputs.len()) == Some(
                (inputs@.map_values(|input: PstInput| input@), pos - first),
            ),
            forall|j: int| 0 <= j < k ==> rest[j] == MAP_END,
        decreases outputs - k,
    {
        assert(rest[k as int] == bytes@[pos + k]);
        if bytes[pos + k] != MAP_END {
            assert(rest[k as int] != output_maps(outputs as nat)[k as int]);
            return None;
        }
        k += 1;
    }
    assert(rest =~= output_maps(tx@.outputs.len()));
    Pst::new(tx, inputs)
}

} // verus!

verus! {

/// The partial signatures under the first `upto` keys, in the order of the
/// keys: public key and signature.
pub open spec fn collected(input: PstInputView, upto: int) -> Seq<(Seq<u8>, Seq<u8>)>
    decreases upto,
{
    if upto <= 0 {
        Seq::empty()
    } else {
        match input.signatures[upto - 1] {
            Some(signature) => collected(input, upto - 1).push((input.keys[upto - 1], signature)),
            None => collected(input, upto - 1),
        }
    }
}

/// The records of the signatures under the keys from `from` on.
pub open spec fn signature_records_from(input: PstInputView, from: int) -> Seq<u8>
    decreases input.keys.len() - from,
{
    if from < 0 || from >= input.keys.len() {
        Seq::empty()
    } else {
        match input.signatures[from] {
            Some(signature) => record(KEY_PARTIAL_SIG, input.keys[from], signature)
                + signature_records_from(input, from + 1),
            None => signature_records_from(input, from + 1),
        }
    }
}

/// What the records of an input that was written give.
pub open spec fn fields_of(input: PstInputView) -> InputFields {
    InputFields {
        funding: Some(input.funding_tx),
        policy: Some((input.threshold, input.keys)),
        sighash: Some(SIGHASH_ALL),
        signatures: collected(input, input.keys.len() as int),
    }
}

/// Whether a PST can be read back from its bytes: its transactions are
/// readable and their serializations no longer than 64 bits can say.
pub open spec fn is_readable_pst(pst: PstView) -> bool {
    &&& crate::pst::pst_well_formed(pst)
    &&& crate::transaction_parse::is_readable(pst.tx)
    &&& transaction_bytes(pst.tx).len() <= u64::MAX
    &&& forall|i: int|
        0 <= i < pst.inputs.len() ==> crate::transaction_parse::is_readable(
            (#[trigger] pst.inputs[i]).funding_tx,
        ) && transaction_bytes(pst.inputs[i].funding_tx).len() <= u64::MAX
}

proof fn lemma_records_split(input: PstInputView, upto: int)
    requires
        0 <= upto <= input.keys.len(),
    ensures
        signature_records(input, upto) + signature_records_from(input, upto) == signature_records(
            input,
            input.keys.len() as int,
        ),
    decreases input.keys.len() - upto,
{
    let n = input.keys.len() as int;
    if upto == n {
        assert(signature_records(input, n) + signature_records_from(input, n) =~= signature_records(
            input,
            n,
        ));
    } else {
        lemma_records_split(input, upto + 1);
        assert(signature_records(input, upto) + signature_records_from(input, upto)
            =~= signature_records(input, upto + 1) + signature_records_from(input, upto + 1));
    }
}

proof fn lemma_signature_under_push(
    list: Seq<(Seq<u8>, Seq<u8>)>,
    last: (Seq<u8>, Seq<u8>),
    key: Seq<u8>,
    from: int,
)
    requires
        0 <= from <= list.len(),
    ensures
        signature_under(list.push(last), key, from) == match signature_under(list, key, from) {
            Some(signature) => Some(signature),
            None => if last.0 == key {
                Some(last.1)
            } else {
                None
            },
        },
    decreases list.len() - from,
{
    let longer = list.push(last);
    if from < list.len() {
        assert(longer[from] == list[from]);
        if list[from].0 != key {
            lemma_signature_under_push(list, last, key, from + 1);
        }
    } else {
        assert(longer[from] == last);
        assert(signature_under(longer, key, from + 1) is None);
    }
}

/// Under each key the collected signatures give the signature of the input.
proof fn lemma_collected_lookup(input: PstInputView, upto: int, index: int)
    requires
        crate::pst::input_well_formed(input),
        0 <= upto <= input.keys.len(),
        0 <= index < input.keys.len(),
    ensures
        signature_under(collected(input, upto), input.keys[index], 0) == if index < upto {
            input.signatures[index]
        } else {
            None
        },
        forall|k: int|
            0 <= k < collected(input, upto).len() ==> key_position(
                input.keys,
                (#[trigger] collected(input, upto)[k]).0,
                0,
            ) is Some,
    decreases upto,
{
    if upto > 0 {
        lemma_collected_lookup(input, upto - 1, index);
        let before = collected(input, upto - 1);
        let now = collected(input, upto);
        match input.signatures[upto - 1] {
            Some(signature) => {
                lemma_signature_under_push(
                    before,
                    (input.keys[upto - 1], signature),
                    input.keys[index],
                    0,
                );
                crate::script::lemma_key_position(input.keys, input.keys[upto - 1], 0);
                assert forall|k: int| 0 <= k < now.len() implies key_position(
                    input.keys,
                    (#[trigger] now[k]).0,
                    0,
                ) is Some by {
                    if k < before.len() {
                        assert(now[k] == before[k]);
                    }
                }
            },
            None => {},
        }
    }
}

proof fn lemma_compact_size_first(n: nat)
    requires
        n >= 1,
    ensures
        compact_size(n)[0] != MAP_END,
        compact_size(n).len() >= 1,
{
}

/// A record at the start of a map is read, and the map goes on after it.
proof fn lemma_map_step(
    key_type: u8,
    key_data: Seq<u8>,
    value: Seq<u8>,
    rest: Seq<u8>,
    fields: InputFields,
)
    requires
        key_data.len() < u64::MAX,
        value.len() <= u64::MAX,
    ensures
        parse_input_map(record(key_type, key_data, value) + rest, fields) == match with_record(
            fields,
            Record { key_type, key_data, value },
        ) {
            None => None,
            Some(next) => after_map(
                record(key_type, key_data, value).len() as int,
                parse_input_map(rest, next),
            ),
        },
{
    let written = record(key_type, key_data, value);
    let bytes = written + rest;
    lemma_parse_record_of(key_type, key_data, value, rest);
    lemma_compact_size_first(1 + key_data.len());
    assert(bytes[0] == compact_size(1 + key_data.len())[0]);
    assert(bytes.skip(written.len() as int) =~= rest);
}

proof fn lemma_map_end(rest: Seq<u8>, fields: InputFields)
    ensures
        parse_input_map(seq![MAP_END] + rest, fields) == Some((fields, 1int)),
{
    assert((seq![MAP_END] + rest)[0] == MAP_END);
}

/// The records of the signatures are read one by one, and the map goes on
/// after them with the signatures collected.
proof fn lemma_signature_records_parse(
    input: PstInputView,
    from: int,
    rest: Seq<u8>,
    fields: InputFields,
)
    requires
        crate::pst::input_well_formed(input),
        0 <= from <= input.keys.len(),
        fields.signatures == collected(input, from),
    ensures
        parse_input_map(signature_records_from(input, from) + rest, fields) == after_map(
            signature_records_from(input, from).len() as int,
            parse_input_map(
                rest,
                InputFields { signatures: collected(input, input.keys.len() as int), ..fields },
            ),
        ),
    decreases input.keys.len() - from,
{
    let n = input.keys.len() as int;
    let done = InputFields { signatures: collected(input, n), ..fields };
    if from >= n {
        assert(signature_records_from(input, from) + rest =~= rest);
        assert(done == fields);
        let r = parse_input_map(rest, fields);
        assert(after_map(0, r) == r);
    } else {
        match input.signatures[from] {
            None => {
                lemma_signature_records_parse(input, from + 1, rest, fields);
            },
            Some(signature) => {
                let key = input.keys[from];
                let written = record(KEY_PARTIAL_SIG, key, signature);
                let later = signature_records_from(input, from + 1);
                let next = InputFields {
                    signatures: fields.signatures.push((key, signature)),
                    ..fields
                };
                assert(crate::script::is_compressed_key(key));
                lemma_collected_lookup(input, from, from);
                assert(with_record(fields, Record { key_type: KEY_PARTIAL_SIG, key_data: key, value: signature })
                    == Some(next)) by {
                    reveal(with_record);
                }
                assert(signature_records_from(input, from) + rest =~= written + (later + rest));
                lemma_map_step(KEY_PARTIAL_SIG, key, signature, later + rest, fields);
                lemma_signature_records_parse(input, from + 1, rest, next);
                assert(InputFields { signatures: collected(input, n), ..next } == done);
            },
        }
    }
}

} // verus!

verus! {

/// The map of an input that was written is read back as that input,
/// whatever follows it.
pub proof fn lemma_parse_input_map_of(input: PstInputView, rest: Seq<u8>)
    requires
        crate::pst::input_well_formed(input),
        crate::transaction_parse::is_readable(input.funding_tx),
        transaction_bytes(input.funding_tx).len() <= u64::MAX,
    ensures
        parse_input_map(input_map(input) + rest, no_fields()) == Some(
            (fields_of(input), input_map(input).len() as int),
        ),
        input_of_fields(fields_of(input)) == Some(input),
{
    let n = input.keys.len() as int;
    let empty = Seq::<u8>::empty();
    let funding = transaction_bytes(input.funding_tx);
    let sighash = le_bytes(SIGHASH_ALL as nat, 4);
    let script = redeem_script(input);
    let r1 = record(KEY_NON_WITNESS_UTXO, empty, funding);
    let r2 = signature_records_from(input, 0);
    let r3 = record(KEY_SIGHASH_TYPE, empty, sighash);
    let r4 = record(KEY_REDEEM_SCRIPT, empty, script);
    let end = seq![MAP_END];
    let f0 = no_fields();
    let f1 = InputFields { funding: Some(input.funding_tx), ..f0 };
    let f2 = InputFields { signatures: collected(input, n), ..f1 };
    let f3 = InputFields { sighash: Some(SIGHASH_ALL), ..f2 };
    let f4 = InputFields { policy: Some((input.threshold, input.keys)), ..f3 };
    assert(f4 == fields_of(input));
    lemma_records_split(input, 0);
    assert(signature_records(input, 0) + r2 =~= r2);
    assert(input_map(input) + rest =~= r1 + (r2 + (r3 + (r4 + (end + rest)))));
    assert(input_map(input).len() == r1.len() + r2.len() + r3.len() + r4.len() + 1);
    crate::encoding::lemma_le_bytes_len(SIGHASH_ALL as nat, 4);
    assert forall|k: int| 0 <= k < input.keys.len() implies (#[trigger] input.keys[k]).len()
        == KEY_LEN by {
        assert(crate::script::is_compressed_key(input.keys[k]));
    }
    crate::script::lemma_multisig_script_len(input.threshold, input.keys);
    // The funding transaction.
    crate::transaction_parse::lemma_parse_of_transaction_bytes(input.funding_tx);
    assert(with_record(f0, Record { key_type: KEY_NON_WITNESS_UTXO, key_data: empty, value: funding })
        == Some(f1)) by {
        reveal(with_record);
    }
    lemma_map_step(KEY_NON_WITNESS_UTXO, empty, funding, r2 + (r3 + (r4 + (end + rest))), f0);
    // The signatures.
    assert(f1.signatures == collected(input, 0));
    lemma_signature_records_parse(input, 0, r3 + (r4 + (end + rest)), f1);
    // The sighash type.
    assert(with_record(f2, Record { key_type: KEY_SIGHASH_TYPE, key_data: empty, value: sighash })
        == Some(f3)) by {
        reveal(with_record);
    }
    lemma_map_step(KEY_SIGHASH_TYPE, empty, sighash, r4 + (end + rest), f2);
    // The redeem script.
    crate::script::lemma_parse_multisig_script(input.threshold, input.keys);
    assert(with_record(f3, Record { key_type: KEY_REDEEM_SCRIPT, key_data: empty, value: script })
        == Some(f4)) by {
        reveal(with_record);
    }
    lemma_map_step(KEY_REDEEM_SCRIPT, empty, script, end + rest, f3);
    lemma_map_end(rest, f4);
    // The input of the fields.
    let back = Seq::new(
        input.keys.len(),
        |j: int| signature_under(collected(input, n), input.keys[j], 0),
    );
    assert forall|j: int| 0 <= j < n implies back[j] == input.signatures[j] by {
        lemma_collected_lookup(input, n, j);
    }
    assert(back =~= input.signatures);
    if n > 0 {
        lemma_collected_lookup(input, n, 0);
    }
}

/// The maps of inputs, taken apart at the first input.
proof fn lemma_input_maps_first(inputs: Seq<PstInputView>, upto: int)
    requires
        1 <= upto <= inputs.len(),
    ensures
        input_maps(inputs, upto) == input_map(inputs[0]) + input_maps(inputs.skip(1), upto - 1),
    decreases upto,
{
    if upto == 1 {
        reveal_with_fuel(input_maps, 2);
        assert(input_maps(inputs, 1) =~= input_map(inputs[0]) + input_maps(inputs.skip(1), 0));
    } else {
        lemma_input_maps_first(inputs, upto - 1);
        assert(inputs.skip(1)[upto - 2] == inputs[upto - 1]);
        assert(input_maps(inputs, upto) =~= input_map(inputs[0]) + input_maps(
            inputs.skip(1),
            upto - 1,
        ));
    }
}

/// The maps of inputs that were written are read back as those inputs,
/// whatever follows them.
pub proof fn lemma_parse_input_maps_of(inputs: Seq<PstInputView>, rest: Seq<u8>)
    requires
        forall|i: int|
            0 <= i < inputs.len() ==> crate::pst::input_well_formed(#[trigger] inputs[i])
                && crate::transaction_parse::is_readable(inputs[i].funding_tx) && transaction_bytes(
                inputs[i].funding_tx,
            ).len() <= u64::MAX,
    ensures
        parse_input_maps(input_maps(inputs, inputs.len() as int) + rest, inputs.len()) == Some(
            (inputs, input_maps(inputs, inputs.len() as int).len() as int),
        ),
    decreases inputs.len(),
{
    let n = inputs.len() as int;
    if n > 0 {
        let first = input_map(inputs[0]);
        let others = inputs.skip(1);
        let later = input_maps(others, n - 1);
        lemma_input_maps_first(inputs, n);
        let bytes = input_maps(inputs, n) + rest;
        assert(bytes =~= first + (later + rest));
        assert(crate::pst::input_well_formed(inputs[0]));
        lemma_parse_input_map_of(inputs[0], later + rest);
        assert(bytes.skip(first.len() as int) =~= later + rest);
        assert forall|i: int| 0 <= i < others.len() implies crate::pst::input_well_formed(
            #[trigger] others[i],
        ) && crate::transaction_parse::is_readable(others[i].funding_tx) && transaction_bytes(
            others[i].funding_tx,
        ).len() <= u64::MAX by {
            assert(others[i] == inputs[i + 1]);
        }
        lemma_parse_input_maps_of(others, rest);
        assert(seq![inputs[0]] + others =~= inputs);
    }
}

/// **Reading what was written.** The bytes of a readable PST are read back
/// as that PST.
pub proof fn lemma_parse_of_pst_bytes(pst: PstView)
    requires
        is_readable_pst(pst),
    ensures
        parse_pst(pst_bytes(pst)) == Some(pst),
{
    let bytes = pst_bytes(pst);
    let empty = Seq::<u8>::empty();
    let tx = transaction_bytes(pst.tx);
    let header = record(KEY_UNSIGNED_TX, empty, tx);
    let n = pst.inputs.len() as int;
    let maps = input_maps(pst.inputs, n);
    let outputs = output_maps(pst.tx.outputs.len());
    let after = seq![MAP_END] + maps + outputs;
    assert(bytes =~= magic() + (header + after));
    assert(bytes.take(5) =~= magic());
    assert(bytes.skip(5) =~= header + after);
    lemma_parse_record_of(KEY_UNSIGNED_TX, empty, tx, after);
    crate::transaction_parse::lemma_parse_of_transaction_bytes(pst.tx);
    let first = 6 + header.len() as int;
    assert(bytes[first - 1] == MAP_END);
    assert(has_header(bytes, pst.tx, first));
    lemma_header(bytes, pst.tx, first);
    assert(bytes.skip(first) =~= maps + outputs);
    lemma_parse_input_maps_of(pst.inputs, outputs);
    assert(bytes.skip(first + maps.len()) =~= outputs);
}

} // verus!
