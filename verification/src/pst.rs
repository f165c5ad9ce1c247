//! The partially signed transaction: the unsigned transaction and, for each
//! input, what a signer needs and what signers have added.

use vstd::prelude::*;
use crate::crypto::hash160;
use crate::encoding::{byte_strings, bytes_equal};
use crate::script::{check_policy, is_policy, multisig_script, p2sh_payload, read_p2sh_payload};
use crate::transaction::{Transaction, TransactionView, TxOutView, SIGHASH_ALL};

verus! {

/// The longest signature an input keeps: a DER signature and the sighash byte.
pub const MAX_SIGNATURE_LEN: usize = 73;

/// What a signer needs to sign one input, and the signatures given so far.
#[derive(Debug)]
pub struct PstInput {
    funding_tx: Transaction,
    threshold: u8,
    keys: Vec<Vec<u8>>,
    sighash_type: u32,
    signatures: Vec<Option<Vec<u8>>>,
}

#[derive(Debug)]
pub struct Pst {
    tx: Transaction,
    inputs: Vec<PstInput>,
}

pub struct PstInputView {
    /// The transaction that made the output being spent.
    pub funding_tx: TransactionView,
    /// The policy of the redeem script.
    pub threshold: nat,
    pub keys: Seq<Seq<u8>>,
    pub sighash_type: u32,
    /// For each key, in the order of the redeem script, the signature given
    /// under it, if any: a DER signature followed by the sighash byte.
    pub signatures: Seq<Option<Seq<u8>>>,
}

pub struct PstView {
    /// The transaction, every script signature empty.
    pub tx: TransactionView,
    pub inputs: Seq<PstInputView>,
}

/// The contents of a list of optional byte vectors.
pub open spec fn optional_byte_strings(items: Seq<Option<Vec<u8>>>) -> Seq<Option<Seq<u8>>> {
    items.map_values(
        |item: Option<Vec<u8>>|
            match item {
                Some(bytes) => Some(bytes@),
                None => None,
            },
    )
}

/// The redeem script of an input.
pub open spec fn redeem_script(input: PstInputView) -> Seq<u8> {
    multisig_script(input.threshold, input.keys)
}

/// The partial signatures of an input, as the set of its pairs of a public
/// key and the signature given under it.
pub open spec fn signature_pairs(input: PstInputView) -> Set<(Seq<u8>, Seq<u8>)> {
    Set::new(
        |pair: (Seq<u8>, Seq<u8>)|
            exists|j: int|
                0 <= j < input.keys.len() && input.keys[j] == pair.0 && #[trigger] input.signatures[j]
                    == Some(pair.1),
    )
}

pub open spec fn input_well_formed(input: PstInputView) -> bool {
    &&& is_policy(input.threshold, input.keys)
    &&& input.sighash_type == SIGHASH_ALL
    &&& input.signatures.len() == input.keys.len()
    &&& forall|j: int|
        0 <= j < input.signatures.len() && (#[trigger] input.signatures[j]) is Some
            ==> input.signatures[j].unwrap().len() <= MAX_SIGNATURE_LEN
}

/// One input record for each input of the transaction, in its order; no
/// script signature in the transaction.
pub open spec fn pst_well_formed(pst: PstView) -> bool {
    &&& pst.inputs.len() == pst.tx.inputs.len()
    &&& forall|i: int| 0 <= i < pst.inputs.len() ==> input_well_formed(#[trigger] pst.inputs[i])
    &&& forall|i: int| 0 <= i < pst.tx.inputs.len() ==> (#[trigger] pst.tx.inputs[i]).script_sig.len() == 0
}

/// The output that input `index` spends, where its funding transaction has it.
pub open spec fn spent_output(pst: PstView, index: int) -> Option<TxOutView> {
    let vout = pst.tx.inputs[index].previous_output.vout as int;
    let outputs = pst.inputs[index].funding_tx.outputs;
    if vout < outputs.len() {
        Some(outputs[vout])
    } else {
        None
    }
}

/// Whether the output that input `index` spends is a P2SH output that commits
/// to the hash of the input's redeem script.
pub open spec fn input_is_bound(pst: PstView, index: int) -> bool {
    match spent_output(pst, index) {
        Some(output) => p2sh_payload(output.script_pubkey) == Some(
            hash160(redeem_script(pst.inputs[index])),
        ),
        None => false,
    }
}

/// The PST with `signature` under key `key_index` of input `index`.
pub open spec fn with_signature(pst: PstView, index: int, key_index: int, signature: Seq<u8>) -> PstView {
    PstView {
        inputs: pst.inputs.update(
            index,
            PstInputView {
                signatures: pst.inputs[index].signatures.update(key_index, Some(signature)),
                ..pst.inputs[index]
            },
        ),
        ..pst
    }
}

impl View for PstInput {
    type V = PstInputView;

    closed spec fn view(&self) -> PstInputView {
        PstInputView {
            funding_tx: self.funding_tx@,
            threshold: self.threshold as nat,
            keys: byte_strings(self.keys@),
            sighash_type: self.sighash_type,
            signatures: optional_byte_strings(self.signatures@),
        }
    }
}

impl View for Pst {
    type V = PstView;

    closed spec fn view(&self) -> PstView {
        PstView { tx: self.tx@, inputs: self.inputs@.map_values(|input: PstInput| input@) }
    }
}

impl PstInput {
    pub open spec fn wf(&self) -> bool {
        input_well_formed(self@)
    }

    /// An input without signatures; `None` where (`threshold`, `keys`) is no
    /// policy.
    pub fn new(funding_tx: Transaction, threshold: u8, keys: Vec<Vec<u8>>) -> (r: Option<PstInput>)
        ensures
            r is Some <==> is_policy(threshold as nat, byte_strings(keys@)),
            r is Some ==> r.unwrap().wf() && r.unwrap()@ == (PstInputView {
                funding_tx: funding_tx@,
                threshold: threshold as nat,
                keys: byte_strings(keys@),
                sighash_type: SIGHASH_ALL,
                signatures: Seq::new(keys@.len(), |j: int| None::<Seq<u8>>),
            }),
    {
        if !check_policy(threshold, &keys) {
            return None;
        }
        let mut signatures: Vec<Option<Vec<u8>>> = Vec::new();
        let mut j: usize = 0;
        while j < keys.len()
            invariant
                j <= keys@.len(),
                signatures@.len() == j,
                forall|k: int| 0 <= k < j ==> (#[trigger] signatures@[k]) is None,
            decreases keys@.len() - j,
        {
            signatures.push(None);
            j += 1;
        }
        let input = PstInput { funding_tx, threshold, keys, sighash_type: SIGHASH_ALL, signatures };
        assert(input@.signatures =~= Seq::new(keys@.len(), |j: int| None::<Seq<u8>>));
        Some(input)
    }

    /// An input with the signatures given; `None` where (`threshold`,
    /// `keys`) is no policy, the signatures are not one place for each key,
    /// or a signature is longer than a signature can be.
    pub fn from_parts(
        funding_tx: Transaction,
        threshold: u8,
        keys: Vec<Vec<u8>>,
        signatures: Vec<Option<Vec<u8>>>,
    ) -> (r: Option<PstInput>)
        ensures
            r is Some <==> input_well_formed(
                PstInputView {
                    funding_tx: funding_tx@,
                    threshold: threshold as nat,
                    keys: byte_strings(keys@),
                    sighash_type: SIGHASH_ALL,
                    signatures: optional_byte_strings(signatures@),
                },
            ),
            r is Some ==> r.unwrap()@ == (PstInputView {
                funding_tx: funding_tx@,
                threshold: threshold as nat,
                keys: byte_strings(keys@),
                sighash_type: SIGHASH_ALL,
                signatures: optional_byte_strings(signatures@),
            }),
    {
        if !check_policy(threshold, &keys) || signatures.len() != keys.len() {
            return None;
        }
        let ghost views = optional_byte_strings(signatures@);
        let mut j: usize = 0;
        while j < signatures.len()
            invariant
                j <= signatures@.len(),
                views == optional_byte_strings(signatures@),
                forall|k: int|
                    0 <= k < j && (#[trigger] views[k]) is Some ==> views[k].unwrap().len()
                        <= MAX_SIGNATURE_LEN,
            decreases signatures@.len() - j,
        {
            match &signatures[j] {
                Some(signature) => {
                    if signature.len() > MAX_SIGNATURE_LEN {
                        assert(views[j as int] is Some && views[j as int].unwrap().len()
                            > MAX_SIGNATURE_LEN);
                        return None;
                    }
                },
                None => {},
            }
            j += 1;
        }
        Some(PstInput { funding_tx, threshold, keys, sighash_type: SIGHASH_ALL, signatures })
    }

    pub fn funding_tx(&self) -> (tx: &Transaction)
        ensures
            tx@ == self@.funding_tx,
    {
        &self.funding_tx
    }

    pub fn threshold(&self) -> (m: u8)
        ensures
            m == self@.threshold,
    {
        self.threshold
    }

    pub fn keys(&self) -> (keys: &Vec<Vec<u8>>)
        ensures
            byte_strings(keys@) == self@.keys,
    {
        &self.keys
    }

    pub fn sighash_type(&self) -> (t: u32)
        ensures
            t == self@.sighash_type,
    {
        self.sighash_type
    }

    /// The signature under key `key_index`, if one was given.
    pub fn signature(&self, key_index: usize) -> (signature: Option<&Vec<u8>>)
        requires
            self.wf(),
            key_index < self@.keys.len(),
        ensures
            match self@.signatures[key_index as int] {
                Some(bytes) => signature is Some && signature.unwrap()@ == bytes,
                None => signature is None,
            },
    {
        match &self.signatures[key_index] {
            Some(bytes) => Some(bytes),
            None => None,
        }
    }
}

impl Pst {
    pub open spec fn wf(&self) -> bool {
        pst_well_formed(self@)
    }

    /// The PST of an unsigned transaction and one input record for each of its
    /// inputs; `None` where the numbers differ or a script signature is not
    /// empty.
    pub fn new(tx: Transaction, inputs: Vec<PstInput>) -> (r: Option<Pst>)
        requires
            forall|i: int| 0 <= i < inputs@.len() ==> (#[trigger] inputs@[i]).wf(),
        ensures
            r is Some <==> inputs@.len() == tx@.inputs.len() && forall|i: int|
                0 <= i < tx@.inputs.len() ==> (#[trigger] tx@.inputs[i]).script_sig.len() == 0,
            r is Some ==> r.unwrap().wf() && r.unwrap()@ == (PstView {
                tx: tx@,
                inputs: inputs@.map_values(|input: PstInput| input@),
            }),
    {
        if tx.inputs.len() != inputs.len() {
            return None;
        }
        let mut i: usize = 0;
        while i < tx.inputs.len()
            invariant
                i <= tx.inputs@.len(),
                tx@.inputs.len() == tx.inputs@.len(),
                forall|k: int| 0 <= k < i ==> (#[trigger] tx@.inputs[k]).script_sig.len() == 0,
            decreases tx.inputs@.len() - i,
        {
            if tx.inputs[i].script_sig.len() != 0 {
                assert(tx@.inputs[i as int].script_sig.len() != 0);
                return None;
            }
            i += 1;
        }
        Some(Pst { tx, inputs })
    }

    /// The unsigned transaction.
    pub fn tx(&self) -> (tx: &Transaction)
        ensures
            tx@ == self@.tx,
    {
        &self.tx
    }

    pub fn input_count(&self) -> (n: usize)
        ensures
            n == self@.inputs.len(),
    {
        self.inputs.len()
    }

    pub fn input(&self, index: usize) -> (input: &PstInput)
        requires
            index < self@.inputs.len(),
        ensures
            input@ == self@.inputs[index as int],
    {
        &self.inputs[index]
    }

    /// Whether the output that input `index` spends is a P2SH output that
    /// commits to `script_hash`.
    pub fn spends_script_hash(&self, index: usize, script_hash: &[u8]) -> (bound: bool)
        requires
            self.wf(),
            index < self@.inputs.len(),
        ensures
            bound == match spent_output(self@, index as int) {
                Some(output) => p2sh_payload(output.script_pubkey) == Some(script_hash@),
                None => false,
            },
    {
        let funding = &self.inputs[index].funding_tx;
        assert(self.tx@.inputs[index as int] == self.tx.inputs@[index as int]@);
        let vout = self.tx.inputs[index].previous_output.vout as usize;
        if vout >= funding.outputs.len() {
            return false;
        }
        assert(funding@.outputs[vout as int] == funding.outputs@[vout as int]@);
        match read_p2sh_payload(funding.outputs[vout].script_pubkey.as_slice()) {
            None => false,
            Some(payload) => bytes_equal(payload.as_slice(), script_hash),
        }
    }

    /// Puts `signature` under key `key_index` of input `index`, where no
    /// other signature stands there. Returns whether that signature stands
    /// there afterwards.
    pub fn add_signature(&mut self, index: usize, key_index: usize, signature: Vec<u8>) -> (added:
        bool)
        requires
            old(self).wf(),
            index < old(self)@.inputs.len(),
            key_index < old(self)@.inputs[index as int].keys.len(),
        ensures
            final(self).wf(),
            added <==> signature@.len() <= MAX_SIGNATURE_LEN && (old(self)@.inputs[index as int].signatures[key_index as int] is None
                || old(self)@.inputs[index as int].signatures[key_index as int] == Some(
                signature@,
            )),
            final(self)@ == if added {
                with_signature(old(self)@, index as int, key_index as int, signature@)
            } else {
                old(self)@
            },
    {
        if signature.len() > MAX_SIGNATURE_LEN {
            return false;
        }
        let ghost before = self@;
        let same = match &self.inputs[index].signatures[key_index] {
            Some(held) => Some(bytes_equal(held.as_slice(), signature.as_slice())),
            None => None,
        };
        match same {
            Some(equal) => {
                proof {
                    if equal {
                        let target = with_signature(
                            before,
                            index as int,
                            key_index as int,
                            signature@,
                        );
                        assert(target.inputs[index as int].signatures =~= before.inputs[index as int].signatures);
                        assert(target.inputs =~= before.inputs);
                    }
                }
                equal
            },
            None => {
                self.inputs[index].signatures[key_index] = Some(signature);
                proof {
                    let target = with_signature(before, index as int, key_index as int, signature@);
                    assert(self@.inputs[index as int].signatures =~= target.inputs[index as int].signatures);
                    assert(self@.inputs =~= target.inputs);
                }
                true
            },
        }
    }
}

} // verus!

verus! {

/// Whether two inputs differ in their signatures at most.
pub open spec fn same_input_skeleton(a: PstInputView, b: PstInputView) -> bool {
    &&& a.funding_tx == b.funding_tx
    &&& a.threshold == b.threshold
    &&& a.keys == b.keys
    &&& a.sighash_type == b.sighash_type
}

/// Whether two PSTs are copies of one unsigned PST: they differ in their
/// signatures at most.
pub open spec fn same_skeleton(a: PstView, b: PstView) -> bool {
    &&& a.tx == b.tx
    &&& a.inputs.len() == b.inputs.len()
    &&& forall|i: int| 0 <= i < a.inputs.len() ==> same_input_skeleton(#[trigger] a.inputs[i], b.inputs[i])
}

/// Whether no key has two different signatures in the two lists.
pub open spec fn signatures_agree(a: Seq<Option<Seq<u8>>>, b: Seq<Option<Seq<u8>>>) -> bool {
    forall|j: int|
        0 <= j < a.len() && j < b.len() && (#[trigger] a[j]) is Some && b[j] is Some ==> a[j]
            == b[j]
}

/// Whether two PSTs can be merged: copies of one unsigned PST, in which no
/// key has two different signatures.
pub open spec fn can_merge(a: PstView, b: PstView) -> bool {
    &&& same_skeleton(a, b)
    &&& forall|i: int|
        0 <= i < a.inputs.len() ==> signatures_agree(
            (#[trigger] a.inputs[i]).signatures,
            b.inputs[i].signatures,
        )
}

/// The union of two lists of signatures, key by key.
pub open spec fn merged_signatures(a: Seq<Option<Seq<u8>>>, b: Seq<Option<Seq<u8>>>) -> Seq<
    Option<Seq<u8>>,
> {
    Seq::new(
        a.len(),
        |j: int|
            if a[j] is Some {
                a[j]
            } else {
                b[j]
            },
    )
}

/// The first `count` inputs of `a` with the signatures of `b` added.
pub open spec fn merged_upto(a: PstView, b: PstView, count: int) -> PstView {
    PstView {
        inputs: Seq::new(
            a.inputs.len(),
            |i: int|
                if i < count {
                    PstInputView {
                        signatures: merged_signatures(a.inputs[i].signatures, b.inputs[i].signatures),
                        ..a.inputs[i]
                    }
                } else {
                    a.inputs[i]
                },
        ),
        ..a
    }
}

/// The PST that holds the signatures of both.
pub open spec fn merged(a: PstView, b: PstView) -> PstView {
    merged_upto(a, b, a.inputs.len() as int)
}

impl PstInput {
    /// Whether the two inputs differ in their signatures at most, and agree
    /// where both hold a signature.
    fn can_merge_with(&self, other: &PstInput) -> (ok: bool)
        requires
            self.wf(),
            other.wf(),
        ensures
            ok == (same_input_skeleton(self@, other@) && signatures_agree(
                self@.signatures,
                other@.signatures,
            )),
    {
        if self.threshold != other.threshold || self.sighash_type != other.sighash_type
            || self.keys.len() != other.keys.len() || !self.funding_tx.same_as(&other.funding_tx) {
            assert(self@.keys.len() != other@.keys.len() ==> self@.keys != other@.keys);
            return false;
        }
        let n = self.keys.len();
        let mut j: usize = 0;
        while j < n
            invariant
                j <= n,
                n == self.keys@.len(),
                n == other.keys@.len(),
                self.wf(),
                other.wf(),
                forall|k: int| 0 <= k < j ==> self@.keys[k] == other@.keys[k],
                forall|k: int|
                    0 <= k < j && (#[trigger] self@.signatures[k]) is Some
                        && other@.signatures[k] is Some ==> self@.signatures[k]
                        == other@.signatures[k],
            decreases n - j,
        {
            if !bytes_equal(self.keys[j].as_slice(), other.keys[j].as_slice()) {
                assert(self@.keys[j as int] != other@.keys[j as int]);
                return false;
            }
            match (&self.signatures[j], &other.signatures[j]) {
                (Some(mine), Some(theirs)) => {
                    if !bytes_equal(mine.as_slice(), theirs.as_slice()) {
                        assert(self@.signatures[j as int] != other@.signatures[j as int]);
                        return false;
                    }
                },
                _ => {},
            }
            j += 1;
        }
        assert(self@.keys =~= other@.keys);
        true
    }
}

impl Pst {
    /// Whether `other` is a copy of the same unsigned PST whose signatures do
    /// not contradict those held here.
    pub fn can_merge_with(&self, other: &Pst) -> (ok: bool)
        requires
            self.wf(),
            other.wf(),
        ensures
            ok == can_merge(self@, other@),
    {
        if self.inputs.len() != other.inputs.len() || !self.tx.same_as(&other.tx) {
            return false;
        }
        let n = self.inputs.len();
        let mut i: usize = 0;
        while i < n
            invariant
                i <= n,
                n == self.inputs@.len(),
                n == other.inputs@.len(),
                self.wf(),
                other.wf(),
                forall|k: int|
                    0 <= k < i ==> same_input_skeleton(#[trigger] self@.inputs[k], other@.inputs[k])
                        && signatures_agree(self@.inputs[k].signatures, other@.inputs[k].signatures),
            decreases n - i,
        {
            assert(self@.inputs[i as int] == self.inputs@[i as int]@);
            assert(other@.inputs[i as int] == other.inputs@[i as int]@);
            assert(input_well_formed(self@.inputs[i as int]));
            assert(input_well_formed(other@.inputs[i as int]));
            if !self.inputs[i].can_merge_with(&other.inputs[i]) {
                return false;
            }
            i += 1;
        }
        true
    }

    /// Takes over the signatures of `other`, a copy of the same unsigned PST
    /// that other holders have signed: the union of the signatures, key by
    /// key. Nothing is taken where the two are not copies of one PST, or hold
    /// different signatures under one key.
    pub fn merge(&mut self, other: &Pst) -> (done: bool)
        requires
            old(self).wf(),
            other.wf(),
        ensures
            final(self).wf(),
            done == can_merge(old(self)@, other@),
            final(self)@ == if done {
                merged(old(self)@, other@)
            } else {
                old(self)@
            },
    {
        if !self.can_merge_with(other) {
            return false;
        }
        let ghost start = self@;
        let n = self.inputs.len();
        let mut i: usize = 0;
        assert(self@.inputs =~= merged_upto(start, other@, 0).inputs);
        while i < n
            invariant
                i <= n,
                n == start.inputs.len(),
                start == old(self)@,
                pst_well_formed(start),
                can_merge(start, other@),
                other.wf(),
                self.wf(),
                self@ == merged_upto(start, other@, i as int),
            decreases n - i,
        {
            let ghost target = merged_upto(start, other@, i + 1);
            let ghost theirs = other@.inputs[i as int].signatures;
            let ghost mine = start.inputs[i as int].signatures;
            assert(other@.inputs[i as int] == other.inputs@[i as int]@);
            assert(input_well_formed(other@.inputs[i as int]));
            assert(input_well_formed(start.inputs[i as int]));
            assert(same_input_skeleton(start.inputs[i as int], other@.inputs[i as int]));
            let m = other.inputs[i].keys.len();
            let mut j: usize = 0;
            while j < m
                invariant
                    j <= m,
                    i < n,
                    n == start.inputs.len(),
                    n == other@.inputs.len(),
                    m == start.inputs[i as int].keys.len(),
                    m == theirs.len(),
                    m == mine.len(),
                    theirs == other@.inputs[i as int].signatures,
                    other@.inputs[i as int] == other.inputs@[i as int]@,
                    mine == start.inputs[i as int].signatures,
                    signatures_agree(mine, theirs),
                    input_well_formed(other@.inputs[i as int]),
                    pst_well_formed(start),
                    other.wf(),
                    self.wf(),
                    self@.tx == start.tx,
                    self@.inputs.len() == n,
                    forall|k: int| 0 <= k < n && k != i ==> self@.inputs[k] == merged_upto(
                        start,
                        other@,
                        i as int,
                    ).inputs[k],
                    same_input_skeleton(self@.inputs[i as int], start.inputs[i as int]),
                    self@.inputs[i as int].signatures.len() == m,
                    forall|k: int|
                        0 <= k < j ==> self@.inputs[i as int].signatures[k] == merged_signatures(
                            mine,
                            theirs,
                        )[k],
                    forall|k: int| j <= k < m ==> self@.inputs[i as int].signatures[k] == mine[k],
                decreases m - j,
            {
                let ghost before = self@;
                match &other.inputs[i].signatures[j] {
                    None => {},
                    Some(signature) => {
                        let copy = crate::encoding::copy_bytes(signature.as_slice());
                        assert(theirs[j as int] == Some(copy@));
                        assert(theirs[j as int].unwrap().len() <= MAX_SIGNATURE_LEN);
                        assert(self@.inputs[i as int].signatures[j as int] == mine[j as int]);
                        assert(mine[j as int] is Some ==> mine[j as int] == theirs[j as int]);
                        let added = self.add_signature(i, j, copy);
                        assert(added);
                    },
                }
                j += 1;
            }
            assert(self@.inputs[i as int].signatures =~= target.inputs[i as int].signatures);
            assert(self@.inputs =~= target.inputs);
            i += 1;
        }
        true
    }
}

} // verus!
