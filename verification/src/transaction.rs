//! Transactions in the legacy format, their serialization, and the message
//! that a `SIGHASH_ALL` signature of a legacy input commits to.

use vstd::prelude::*;
use crate::crypto::{compute_sha256d, sha256d};
use crate::encoding::{
    compact_size,
    copy_bytes,
    le_bytes,
    push_bytes,
    push_compact_size,
    push_le,
};

verus! {

/// The sighash type that commits to all inputs and all outputs.
pub const SIGHASH_ALL: u32 = 1;

/// The sequence number that opts an input in to replacement.
pub const SEQUENCE_RBF: u32 = 0xffff_fffd;

/// The sequence number of an input that is final.
pub const SEQUENCE_FINAL: u32 = 0xffff_ffff;

/// The length of a transaction id.
pub const TXID_LEN: usize = 32;

/// A reference to an output of an earlier transaction.
#[derive(Debug)]
pub struct OutPoint {
    /// The id of the transaction, in the byte order of its hash.
    pub txid: Vec<u8>,
    pub vout: u32,
}

#[derive(Debug)]
pub struct TxIn {
    pub previous_output: OutPoint,
    pub script_sig: Vec<u8>,
    pub sequence: u32,
}

#[derive(Debug)]
pub struct TxOut {
    /// The amount in satoshis.
    pub value: u64,
    pub script_pubkey: Vec<u8>,
}

#[derive(Debug)]
pub struct Transaction {
    pub version: u32,
    pub inputs: Vec<TxIn>,
    pub outputs: Vec<TxOut>,
    pub lock_time: u32,
}

pub struct OutPointView {
    pub txid: Seq<u8>,
    pub vout: u32,
}

pub struct TxInView {
    pub previous_output: OutPointView,
    pub script_sig: Seq<u8>,
    pub sequence: u32,
}

pub struct TxOutView {
    pub value: u64,
    pub script_pubkey: Seq<u8>,
}

pub struct TransactionView {
    pub version: u32,
    pub inputs: Seq<TxInView>,
    pub outputs: Seq<TxOutView>,
    pub lock_time: u32,
}

impl View for OutPoint {
    type V = OutPointView;

    open spec fn view(&self) -> OutPointView {
        OutPointView { txid: self.txid@, vout: self.vout }
    }
}

impl View for TxIn {
    type V = TxInView;

    open spec fn view(&self) -> TxInView {
        TxInView {
            previous_output: self.previous_output@,
            script_sig: self.script_sig@,
            sequence: self.sequence,
        }
    }
}

impl View for TxOut {
    type V = TxOutView;

    open spec fn view(&self) -> TxOutView {
        TxOutView { value: self.value, script_pubkey: self.script_pubkey@ }
    }
}

impl View for Transaction {
    type V = TransactionView;

    open spec fn view(&self) -> TransactionView {
        TransactionView {
            version: self.version,
            inputs: self.inputs@.map_values(|input: TxIn| input@),
            outputs: self.outputs@.map_values(|output: TxOut| output@),
            lock_time: self.lock_time,
        }
    }
}

pub open spec fn input_bytes(input: TxInView) -> Seq<u8> {
    input.previous_output.txid + le_bytes(input.previous_output.vout as nat, 4) + compact_size(
        input.script_sig.len(),
    ) + input.script_sig + le_bytes(input.sequence as nat, 4)
}

pub open spec fn output_bytes(output: TxOutView) -> Seq<u8> {
    le_bytes(output.value as nat, 8) + compact_size(output.script_pubkey.len())
        + output.script_pubkey
}

pub open spec fn inputs_bytes(inputs: Seq<TxInView>) -> Seq<u8>
    decreases inputs.len(),
{
    if inputs.len() == 0 {
        Seq::empty()
    } else {
        inputs_bytes(inputs.drop_last()) + input_bytes(inputs.last())
    }
}

pub open spec fn outputs_bytes(outputs: Seq<TxOutView>) -> Seq<u8>
    decreases outputs.len(),
{
    if outputs.len() == 0 {
        Seq::empty()
    } else {
        outputs_bytes(outputs.drop_last()) + output_bytes(outputs.last())
    }
}

/// The legacy serialization: version, inputs, outputs and lock time, with no
/// witness marker.
pub open spec fn transaction_bytes(tx: TransactionView) -> Seq<u8> {
    le_bytes(tx.version as nat, 4) + compact_size(tx.inputs.len()) + inputs_bytes(tx.inputs)
        + compact_size(tx.outputs.len()) + outputs_bytes(tx.outputs) + le_bytes(
        tx.lock_time as nat,
        4,
    )
}

/// The id of a transaction: the double SHA256 of its serialization, in the byte
/// order of the hash, which is the order an outpoint holds it in.
pub open spec fn transaction_id(tx: TransactionView) -> Seq<u8> {
    sha256d(transaction_bytes(tx))
}

/// The transaction as input `index` signs it: its own script signature
/// replaced by `script_code`, every other one empty.
pub open spec fn signing_form(tx: TransactionView, index: int, script_code: Seq<u8>) -> TransactionView {
    TransactionView {
        inputs: Seq::new(
            tx.inputs.len(),
            |j: int|
                TxInView {
                    script_sig: if j == index {
                        script_code
                    } else {
                        Seq::empty()
                    },
                    ..tx.inputs[j]
                },
        ),
        ..tx
    }
}

/// What is hashed for a `SIGHASH_ALL` signature of input `index`: the signing
/// form of the transaction, then the sighash type in four bytes.
pub open spec fn sighash_preimage(tx: TransactionView, index: int, script_code: Seq<u8>) -> Seq<u8> {
    transaction_bytes(signing_form(tx, index, script_code)) + le_bytes(SIGHASH_ALL as nat, 4)
}

/// The digest that a `SIGHASH_ALL` signature of input `index` signs.
pub open spec fn sighash(tx: TransactionView, index: int, script_code: Seq<u8>) -> Seq<u8> {
    sha256d(sighash_preimage(tx, index, script_code))
}

/// The transaction with every script signature emptied.
pub open spec fn unsigned_form(tx: TransactionView) -> TransactionView {
    TransactionView {
        inputs: Seq::new(
            tx.inputs.len(),
            |j: int| TxInView { script_sig: Seq::empty(), ..tx.inputs[j] },
        ),
        ..tx
    }
}

/// The sum of the output values.
pub open spec fn outputs_total(outputs: Seq<TxOutView>) -> nat
    decreases outputs.len(),
{
    if outputs.len() == 0 {
        0
    } else {
        outputs_total(outputs.drop_last()) + outputs.last().value as nat
    }
}

/// The signing form does not depend on the script signatures that the
/// transaction holds.
pub proof fn lemma_signing_form_ignores_script_sigs(
    a: TransactionView,
    b: TransactionView,
    index: int,
    script_code: Seq<u8>,
)
    requires
        unsigned_form(a) == unsigned_form(b),
    ensures
        signing_form(a, index, script_code) == signing_form(b, index, script_code),
{
    let fa = signing_form(a, index, script_code);
    let fb = signing_form(b, index, script_code);
    let ua = unsigned_form(a);
    let ub = unsigned_form(b);
    assert(ua.inputs.len() == a.inputs.len());
    assert(ub.inputs.len() == b.inputs.len());
    assert(ua.version == a.version && ub.version == b.version);
    assert(ua.outputs == a.outputs && ub.outputs == b.outputs);
    assert(ua.lock_time == a.lock_time && ub.lock_time == b.lock_time);
    assert forall|j: int| 0 <= j < a.inputs.len() implies fa.inputs[j] == fb.inputs[j] by {
        assert(ua.inputs[j].previous_output == a.inputs[j].previous_output);
        assert(ub.inputs[j].previous_output == b.inputs[j].previous_output);
        assert(ua.inputs[j].sequence == a.inputs[j].sequence);
        assert(ub.inputs[j].sequence == b.inputs[j].sequence);
    }
    assert(fa.inputs =~= fb.inputs);
}

fn push_input(out: &mut Vec<u8>, input: &TxIn, script: &[u8])
    ensures
        final(out)@ == old(out)@ + input_bytes(TxInView { script_sig: script@, ..input@ }),
{
    let ghost start = out@;
    push_bytes(out, input.previous_output.txid.as_slice());
    push_le(out, input.previous_output.vout as u64, 4);
    push_compact_size(out, script.len() as u64);
    push_bytes(out, script);
    push_le(out, input.sequence as u64, 4);
    assert(out@ =~= start + input_bytes(TxInView { script_sig: script@, ..input@ }));
}

fn push_output(out: &mut Vec<u8>, output: &TxOut)
    ensures
        final(out)@ == old(out)@ + output_bytes(output@),
{
    let ghost start = out@;
    push_le(out, output.value, 8);
    push_compact_size(out, output.script_pubkey.len() as u64);
    push_bytes(out, output.script_pubkey.as_slice());
    assert(out@ =~= start + output_bytes(output@));
}

fn push_outputs(out: &mut Vec<u8>, tx: &Transaction)
    ensures
        final(out)@ == old(out)@ + compact_size(tx@.outputs.len()) + outputs_bytes(tx@.outputs),
{
    let ghost start = out@;
    push_compact_size(out, tx.outputs.len() as u64);
    let ghost head = out@;
    let mut k: usize = 0;
    assert(tx@.outputs.take(0) =~= Seq::<TxOutView>::empty());
    while k < tx.outputs.len()
        invariant
            k <= tx.outputs@.len(),
            tx@.outputs.len() == tx.outputs@.len(),
            out@ == head + outputs_bytes(tx@.outputs.take(k as int)),
        decreases tx.outputs@.len() - k,
    {
        push_output(out, &tx.outputs[k]);
        proof {
            let next = tx@.outputs.take(k + 1);
            assert(next.drop_last() =~= tx@.outputs.take(k as int));
            assert(next.last() == tx.outputs@[k as int]@);
            assert(out@ =~= head + outputs_bytes(next));
        }
        k += 1;
    }
    assert(tx@.outputs.take(tx.outputs@.len() as int) =~= tx@.outputs);
    assert(out@ =~= start + compact_size(tx@.outputs.len()) + outputs_bytes(tx@.outputs));
}

impl OutPoint {
    pub fn duplicate(&self) -> (copy: OutPoint)
        ensures
            copy@ == self@,
    {
        OutPoint { txid: copy_bytes(self.txid.as_slice()), vout: self.vout }
    }
}

impl TxIn {
    pub fn duplicate(&self) -> (copy: TxIn)
        ensures
            copy@ == self@,
    {
        TxIn {
            previous_output: self.previous_output.duplicate(),
            script_sig: copy_bytes(self.script_sig.as_slice()),
            sequence: self.sequence,
        }
    }
}

impl TxOut {
    pub fn duplicate(&self) -> (copy: TxOut)
        ensures
            copy@ == self@,
    {
        TxOut { value: self.value, script_pubkey: copy_bytes(self.script_pubkey.as_slice()) }
    }
}

impl Transaction {
    /// The serialization in the legacy format.
    pub fn serialize(&self) -> (bytes: Vec<u8>)
        ensures
            bytes@ == transaction_bytes(self@),
    {
        let mut out: Vec<u8> = Vec::new();
        push_le(&mut out, self.version as u64, 4);
        push_compact_size(&mut out, self.inputs.len() as u64);
        let ghost head = out@;
        let mut k: usize = 0;
        assert(self@.inputs.take(0) =~= Seq::<TxInView>::empty());
        while k < self.inputs.len()
            invariant
                k <= self.inputs@.len(),
                self@.inputs.len() == self.inputs@.len(),
                out@ == head + inputs_bytes(self@.inputs.take(k as int)),
            decreases self.inputs@.len() - k,
        {
            push_input(&mut out, &self.inputs[k], self.inputs[k].script_sig.as_slice());
            proof {
                let next = self@.inputs.take(k + 1);
                assert(next.drop_last() =~= self@.inputs.take(k as int));
                assert(next.last() == self.inputs@[k as int]@);
                assert(out@ =~= head + inputs_bytes(next));
            }
            k += 1;
        }
        assert(self@.inputs.take(self.inputs@.len() as int) =~= self@.inputs);
        push_outputs(&mut out, self);
        push_le(&mut out, self.lock_time as u64, 4);
        assert(out@ =~= transaction_bytes(self@));
        out
    }

    /// The transaction id, in the byte order of the hash.
    pub fn txid(&self) -> (id: Vec<u8>)
        ensures
            id@ == transaction_id(self@),
            id@.len() == TXID_LEN,
    {
        let bytes = self.serialize();
        compute_sha256d(bytes.as_slice())
    }

    /// What input `index` hashes and signs under `SIGHASH_ALL`, with
    /// `script_code` in the place of its script signature.
    pub fn sighash_preimage(&self, index: usize, script_code: &[u8]) -> (bytes: Vec<u8>)
        ensures
            bytes@ == sighash_preimage(self@, index as int, script_code@),
    {
        let ghost form = signing_form(self@, index as int, script_code@);
        let mut out: Vec<u8> = Vec::new();
        push_le(&mut out, self.version as u64, 4);
        push_compact_size(&mut out, self.inputs.len() as u64);
        let ghost head = out@;
        let mut k: usize = 0;
        assert(form.inputs.take(0) =~= Seq::<TxInView>::empty());
        while k < self.inputs.len()
            invariant
                k <= self.inputs@.len(),
                form == signing_form(self@, index as int, script_code@),
                form.inputs.len() == self.inputs@.len(),
                out@ == head + inputs_bytes(form.inputs.take(k as int)),
            decreases self.inputs@.len() - k,
        {
            let empty: Vec<u8> = Vec::new();
            if k == index {
                push_input(&mut out, &self.inputs[k], script_code);
            } else {
                push_input(&mut out, &self.inputs[k], empty.as_slice());
            }
            proof {
                let next = form.inputs.take(k + 1);
                assert(next.drop_last() =~= form.inputs.take(k as int));
                assert(empty@ =~= Seq::<u8>::empty());
                assert(next.last() == form.inputs[k as int]);
                assert(self@.inputs[k as int] == self.inputs@[k as int]@);
                assert(out@ =~= head + inputs_bytes(next));
            }
            k += 1;
        }
        assert(form.inputs.take(self.inputs@.len() as int) =~= form.inputs);
        push_outputs(&mut out, self);
        push_le(&mut out, self.lock_time as u64, 4);
        push_le(&mut out, SIGHASH_ALL as u64, 4);
        assert(out@ =~= sighash_preimage(self@, index as int, script_code@));
        out
    }

    /// The digest that a `SIGHASH_ALL` signature of input `index` signs.
    pub fn sighash(&self, index: usize, script_code: &[u8]) -> (digest: Vec<u8>)
        ensures
            digest@ == sighash(self@, index as int, script_code@),
            digest@.len() == 32,
    {
        let preimage = self.sighash_preimage(index, script_code);
        compute_sha256d(preimage.as_slice())
    }

    pub fn duplicate(&self) -> (copy: Transaction)
        ensures
            copy@ == self@,
    {
        let mut inputs: Vec<TxIn> = Vec::new();
        let mut i: usize = 0;
        while i < self.inputs.len()
            invariant
                i <= self.inputs@.len(),
                inputs@.len() == i,
                forall|j: int| 0 <= j < i ==> (#[trigger] inputs@[j])@ == self.inputs@[j]@,
            decreases self.inputs@.len() - i,
        {
            inputs.push(self.inputs[i].duplicate());
            i += 1;
        }
        let mut outputs: Vec<TxOut> = Vec::new();
        let mut k: usize = 0;
        while k < self.outputs.len()
            invariant
                k <= self.outputs@.len(),
                outputs@.len() == k,
                forall|j: int| 0 <= j < k ==> (#[trigger] outputs@[j])@ == self.outputs@[j]@,
            decreases self.outputs@.len() - k,
        {
            outputs.push(self.outputs[k].duplicate());
            k += 1;
        }
        let copy = Transaction {
            version: self.version,
            inputs,
            outputs,
            lock_time: self.lock_time,
        };
        assert(copy@.inputs =~= self@.inputs);
        assert(copy@.outputs =~= self@.outputs);
        copy
    }
}

} // verus!

verus! {

impl OutPoint {
    /// Whether the two are equal in every field.
    pub fn same_as(&self, other: &OutPoint) -> (same: bool)
        ensures
            same == (self@ == other@),
    {
        self.vout == other.vout && crate::encoding::bytes_equal(
            self.txid.as_slice(),
            other.txid.as_slice(),
        )
    }
}

impl TxIn {
    /// Whether the two are equal in every field.
    pub fn same_as(&self, other: &TxIn) -> (same: bool)
        ensures
            same == (self@ == other@),
    {
        self.sequence == other.sequence && self.previous_output.same_as(&other.previous_output)
            && crate::encoding::bytes_equal(self.script_sig.as_slice(), other.script_sig.as_slice())
    }
}

impl TxOut {
    /// Whether the two are equal in every field.
    pub fn same_as(&self, other: &TxOut) -> (same: bool)
        ensures
            same == (self@ == other@),
    {
        self.value == other.value && crate::encoding::bytes_equal(
            self.script_pubkey.as_slice(),
            other.script_pubkey.as_slice(),
        )
    }
}

impl Transaction {
    /// Whether the two are equal in every field.
    pub fn same_as(&self, other: &Transaction) -> (same: bool)
        ensures
            same == (self@ == other@),
    {
        assert(self@.inputs.len() == self.inputs@.len() && other@.inputs.len()
            == other.inputs@.len());
        assert(self@.outputs.len() == self.outputs@.len() && other@.outputs.len()
            == other.outputs@.len());
        if self.version != other.version || self.lock_time != other.lock_time
            || self.inputs.len() != other.inputs.len() || self.outputs.len()
            != other.outputs.len() {
            return false;
        }
        let mut i: usize = 0;
        while i < self.inputs.len()
            invariant
                i <= self.inputs@.len(),
                self.inputs@.len() == other.inputs@.len(),
                forall|k: int| 0 <= k < i ==> self@.inputs[k] == other@.inputs[k],
            decreases self.inputs@.len() - i,
        {
            if !self.inputs[i].same_as(&other.inputs[i]) {
                assert(self@.inputs[i as int] != other@.inputs[i as int]);
                return false;
            }
            i += 1;
        }
        let mut k: usize = 0;
        while k < self.outputs.len()
            invariant
                k <= self.outputs@.len(),
                self.outputs@.len() == other.outputs@.len(),
                forall|j: int| 0 <= j < k ==> self@.outputs[j] == other@.outputs[j],
            decreases self.outputs@.len() - k,
        {
            if !self.outputs[k].same_as(&other.outputs[k]) {
                assert(self@.outputs[k as int] != other@.outputs[k as int]);
                return false;
            }
            k += 1;
        }
        assert(self@.inputs =~= other@.inputs);
        assert(self@.outputs =~= other@.outputs);
        true
    }
}

} // verus!
