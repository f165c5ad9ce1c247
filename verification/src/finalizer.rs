//! The finalizer: once every input holds enough signatures, it verifies
//! them, assembles the script signatures and serializes the transaction.

use vstd::prelude::*;
use crate::crypto::{compute_hash160, compute_sha256d, ecdsa_accepts, ecdsa_verify, hash160, sha256d};
use crate::encoding::{byte_strings, copy_bytes};
use crate::pst::{
    input_is_bound,
    input_well_formed,
    pst_well_formed,
    redeem_script,
    spent_output,
    Pst,
    PstInput,
    PstInputView,
    PstView,
};
use crate::script::{build_multisig_script, build_script_sig, multisig_script, p2sh_payload, script_sig};
use crate::signing::SIGHASH_ALL_BYTE;
use crate::transaction::{
    lemma_signing_form_ignores_script_sigs,
    sighash,
    transaction_bytes,
    unsigned_form,
    Transaction,
    TransactionView,
    TxIn,
    TxInView,
};

verus! {

/// How finalizing ended.
#[derive(Debug)]
pub enum Finalization {
    /// Every input is satisfied: the serialized transaction and its id, in the
    /// byte order of the hash.
    Final { raw_tx: Vec<u8>, txid: Vec<u8> },
    /// More signers are needed: the inputs that hold fewer signatures than
    /// their threshold, in ascending order.
    Incomplete { short_inputs: Vec<usize> },
    /// An input is not bound to its redeem script, or one of the signatures
    /// chosen for it does not verify.
    Invalid,
}

pub enum FinalizationView {
    Final { tx: TransactionView },
    Incomplete { short_inputs: Seq<int> },
    Invalid,
}

/// Indices as mathematical integers.
pub open spec fn as_positions(indices: Seq<usize>) -> Seq<int> {
    indices.map_values(|i: usize| i as int)
}

/// The number of signatures at the positions from `from` on.
pub open spec fn signature_count(signatures: Seq<Option<Seq<u8>>>, from: int) -> nat
    decreases signatures.len() - from,
{
    if from < 0 || from >= signatures.len() {
        0
    } else if signatures[from] is Some {
        1 + signature_count(signatures, from + 1)
    } else {
        signature_count(signatures, from + 1)
    }
}

/// Whether an input holds fewer signatures than its threshold.
pub open spec fn is_short(input: PstInputView) -> bool {
    signature_count(input.signatures, 0) < input.threshold
}

/// The inputs before `upto` that are short, in ascending order.
pub open spec fn short_inputs(pst: PstView, upto: int) -> Seq<int>
    decreases upto,
{
    if upto <= 0 {
        Seq::empty()
    } else if is_short(pst.inputs[upto - 1]) {
        short_inputs(pst, upto - 1).push(upto - 1)
    } else {
        short_inputs(pst, upto - 1)
    }
}

/// The first `needed` positions from `from` on that hold a signature: the
/// signatures are chosen in the order of the keys of the redeem script.
pub open spec fn chosen_positions(signatures: Seq<Option<Seq<u8>>>, needed: nat, from: int) -> Seq<int>
    decreases signatures.len() - from,
{
    if needed == 0 || from < 0 || from >= signatures.len() {
        Seq::empty()
    } else if signatures[from] is Some {
        seq![from] + chosen_positions(signatures, (needed - 1) as nat, from + 1)
    } else {
        chosen_positions(signatures, needed, from + 1)
    }
}

/// The signatures that finalizing puts into the script signature of an input.
pub open spec fn chosen_signatures(input: PstInputView) -> Seq<Seq<u8>> {
    let positions = chosen_positions(input.signatures, input.threshold, 0);
    Seq::new(positions.len(), |t: int| input.signatures[positions[t]].unwrap())
}

/// Whether `signature`, a DER signature followed by the byte of
/// `SIGHASH_ALL`, is a signature of input `index` under `key`.
pub open spec fn signature_checks(
    tx: TransactionView,
    index: int,
    script_code: Seq<u8>,
    key: Seq<u8>,
    signature: Seq<u8>,
) -> bool {
    &&& signature.len() > 0
    &&& signature.last() == SIGHASH_ALL_BYTE
    &&& ecdsa_accepts(key, sighash(tx, index, script_code), signature.drop_last())
}

/// Whether input `index` is bound to its redeem script and each signature
/// chosen for it verifies under the key it stands for.
pub open spec fn input_verifies(pst: PstView, index: int) -> bool {
    let input = pst.inputs[index];
    let positions = chosen_positions(input.signatures, input.threshold, 0);
    &&& input_is_bound(pst, index)
    &&& forall|t: int|
        0 <= t < positions.len() ==> signature_checks(
            pst.tx,
            index,
            redeem_script(input),
            input.keys[#[trigger] positions[t]],
            input.signatures[positions[t]].unwrap(),
        )
}

/// The transaction with the script signature of every input in place.
pub open spec fn finalized_tx(pst: PstView) -> TransactionView {
    TransactionView {
        inputs: Seq::new(
            pst.tx.inputs.len(),
            |i: int|
                TxInView {
                    script_sig: script_sig(
                        chosen_signatures(pst.inputs[i]),
                        redeem_script(pst.inputs[i]),
                    ),
                    ..pst.tx.inputs[i]
                },
        ),
        ..pst.tx
    }
}

/// How finalizing a PST ends. An input that is short makes it incomplete,
/// whatever else holds; otherwise every input has to verify.
pub open spec fn finalize_outcome(pst: PstView) -> FinalizationView {
    let short = short_inputs(pst, pst.inputs.len() as int);
    if short.len() > 0 {
        FinalizationView::Incomplete { short_inputs: short }
    } else if !(forall|i: int| 0 <= i < pst.inputs.len() ==> #[trigger] input_verifies(pst, i)) {
        FinalizationView::Invalid
    } else {
        FinalizationView::Final { tx: finalized_tx(pst) }
    }
}

pub proof fn lemma_chosen_positions(signatures: Seq<Option<Seq<u8>>>, needed: nat, from: int)
    requires
        0 <= from,
    ensures
        ({
            let positions = chosen_positions(signatures, needed, from);
            &&& positions.len() <= needed
            &&& signature_count(signatures, from) >= needed ==> positions.len() == needed
            &&& forall|t: int|
                0 <= t < positions.len() ==> from <= #[trigger] positions[t] < signatures.len()
                    && signatures[positions[t]] is Some
            &&& forall|s: int, t: int| 0 <= s < t < positions.len() ==> positions[s] < positions[t]
        }),
    decreases signatures.len() - from,
{
    if needed == 0 || from >= signatures.len() {
    } else if signatures[from] is Some {
        lemma_chosen_positions(signatures, (needed - 1) as nat, from + 1);
        let rest = chosen_positions(signatures, (needed - 1) as nat, from + 1);
        let positions = chosen_positions(signatures, needed, from);
        assert forall|t: int| 0 <= t < positions.len() implies from <= #[trigger] positions[t]
            < signatures.len() && signatures[positions[t]] is Some by {
            if t > 0 {
                assert(positions[t] == rest[t - 1]);
            }
        }
        assert forall|s: int, t: int| 0 <= s < t < positions.len() implies positions[s]
            < positions[t] by {
            assert(positions[t] == rest[t - 1]);
            if s > 0 {
                assert(positions[s] == rest[s - 1]);
            }
        }
    } else {
        lemma_chosen_positions(signatures, needed, from + 1);
    }
}

/// The list of short inputs holds the short inputs, and nothing else.
pub proof fn lemma_short_inputs(pst: PstView, upto: int)
    requires
        0 <= upto <= pst.inputs.len(),
    ensures
        forall|i: int|
            0 <= i < upto && is_short(#[trigger] pst.inputs[i]) ==> short_inputs(pst, upto).contains(i),
        forall|t: int|
            0 <= t < short_inputs(pst, upto).len() ==> 0 <= (#[trigger] short_inputs(pst, upto)[t])
                < upto && is_short(pst.inputs[short_inputs(pst, upto)[t]]),
    decreases upto,
{
    if upto > 0 {
        lemma_short_inputs(pst, upto - 1);
        let before = short_inputs(pst, upto - 1);
        let now = short_inputs(pst, upto);
        assert forall|i: int| 0 <= i < upto && is_short(#[trigger] pst.inputs[i]) implies now.contains(
            i,
        ) by {
            if i == upto - 1 {
                assert(now[now.len() - 1] == i);
            } else {
                assert(before.contains(i));
                let t = choose|t: int| 0 <= t < before.len() && before[t] == i;
                assert(now[t] == i);
            }
        }
        assert forall|t: int| 0 <= t < now.len() implies 0 <= (#[trigger] now[t]) < upto && is_short(
            pst.inputs[now[t]],
        ) by {
            if t < before.len() {
                assert(now[t] == before[t]);
            }
        }
    }
}

/// The number of signatures that an input holds.
pub fn count_signatures(input: &PstInput) -> (count: usize)
    requires
        input.wf(),
    ensures
        count == signature_count(input@.signatures, 0),
        count <= input@.keys.len(),
{
    let n = input.keys().len();
    let mut count: usize = 0;
    let mut j: usize = 0;
    while j < n
        invariant
            j <= n,
            n == input@.keys.len(),
            input.wf(),
            count <= j,
            count + signature_count(input@.signatures, j as int) == signature_count(
                input@.signatures,
                0,
            ),
        decreases n - j,
    {
        if input.signature(j).is_some() {
            count += 1;
        }
        j += 1;
    }
    count
}

/// The inputs that hold fewer signatures than their threshold.
pub fn find_short_inputs(pst: &Pst) -> (short: Vec<usize>)
    requires
        pst.wf(),
    ensures
        as_positions(short@) == short_inputs(pst@, pst@.inputs.len() as int),
{
    let n = pst.input_count();
    let mut short: Vec<usize> = Vec::new();
    let mut i: usize = 0;
    assert(as_positions(short@) =~= Seq::<int>::empty());
    while i < n
        invariant
            i <= n,
            n == pst@.inputs.len(),
            pst.wf(),
            as_positions(short@) == short_inputs(pst@, i as int),
        decreases n - i,
    {
        let input = pst.input(i);
        let ghost before = short@;
        if count_signatures(input) < input.threshold() as usize {
            short.push(i);
            assert(as_positions(short@) =~= as_positions(before).push(i as int));
        }
        i += 1;
    }
    short
}

/// Whether `signature`, a DER signature followed by the byte of
/// `SIGHASH_ALL`, is a signature of `digest` under `key`.
pub fn check_signature(digest: &[u8], key: &[u8], signature: &[u8]) -> (ok: bool)
    ensures
        ok == (signature@.len() > 0 && signature@.last() == SIGHASH_ALL_BYTE && ecdsa_accepts(
            key@,
            digest@,
            signature@.drop_last(),
        )),
{
    let n = signature.len();
    if n == 0 || signature[n - 1] != SIGHASH_ALL_BYTE {
        return false;
    }
    let der = vstd::slice::slice_subrange(signature, 0, n - 1);
    assert(der@ =~= signature@.drop_last());
    ecdsa_verify(key, digest, der)
}

/// The script signature of input `index`, where the input verifies.
fn finalize_input(pst: &Pst, index: usize) -> (r: Option<Vec<u8>>)
    requires
        pst.wf(),
        index < pst@.inputs.len(),
        !is_short(pst@.inputs[index as int]),
    ensures
        match r {
            Some(script) => input_verifies(pst@, index as int) && script@ == script_sig(
                chosen_signatures(pst@.inputs[index as int]),
                redeem_script(pst@.inputs[index as int]),
            ),
            None => !input_verifies(pst@, index as int),
        },
{
    let input = pst.input(index);
    let keys = input.keys();
    let ghost view = input@;
    let ghost all = chosen_positions(view.signatures, view.threshold, 0);
    assert forall|k: int| 0 <= k < keys@.len() implies (#[trigger] keys@[k])@.len()
        <= 0xffff_ffff by {
        assert(crate::script::is_compressed_key(byte_strings(keys@)[k]));
    }
    let script = build_multisig_script(input.threshold(), keys);
    let script_hash = compute_hash160(script.as_slice());
    if !pst.spends_script_hash(index, script_hash.as_slice()) {
        return None;
    }
    let digest = pst.tx().sighash(index, script.as_slice());
    let needed = input.threshold() as usize;
    let mut chosen: Vec<Vec<u8>> = Vec::new();
    let ghost mut taken: Seq<int> = Seq::empty();
    let mut j: usize = 0;
    while j < keys.len() && chosen.len() < needed
        invariant
            j <= keys@.len(),
            pst.wf(),
            input.wf(),
            view == input@,
            view == pst@.inputs[index as int],
            index < pst@.inputs.len(),
            byte_strings(keys@) == view.keys,
            script@ == redeem_script(view),
            digest@ == sighash(pst@.tx, index as int, script@),
            needed == view.threshold,
            all == chosen_positions(view.signatures, view.threshold, 0),
            chosen@.len() == taken.len(),
            chosen@.len() <= needed,
            taken + chosen_positions(view.signatures, (needed - chosen@.len()) as nat, j as int)
                == all,
            forall|t: int|
                0 <= t < taken.len() ==> 0 <= #[trigger] taken[t] < view.signatures.len()
                    && view.signatures[taken[t]] == Some(chosen@[t]@) && signature_checks(
                    pst@.tx,
                    index as int,
                    script@,
                    view.keys[taken[t]],
                    chosen@[t]@,
                ),
            forall|t: int| 0 <= t < chosen@.len() ==> (#[trigger] chosen@[t])@.len() <= 0xffff_ffff,
        decreases keys@.len() - j,
    {
        match input.signature(j) {
            None => {},
            Some(signature) => {
                let ghost rest = chosen_positions(
                    view.signatures,
                    (needed - chosen@.len() - 1) as nat,
                    j + 1,
                );
                assert(all =~= taken + seq![j as int] + rest);
                if !check_signature(digest.as_slice(), keys[j].as_slice(), signature.as_slice()) {
                    proof {
                        let t = taken.len() as int;
                        assert(all[t] == j);
                        assert(!signature_checks(
                            pst@.tx,
                            index as int,
                            redeem_script(view),
                            view.keys[all[t]],
                            view.signatures[all[t]].unwrap(),
                        ));
                    }
                    return None;
                }
                chosen.push(copy_bytes(signature.as_slice()));
                proof {
                    taken = taken.push(j as int);
                }
            },
        }
        j += 1;
    }
    proof {
        lemma_chosen_positions(view.signatures, view.threshold, 0);
        assert(chosen_positions(view.signatures, (needed - chosen@.len()) as nat, j as int)
            =~= Seq::<int>::empty());
        assert(taken =~= all);
        assert(byte_strings(chosen@) =~= chosen_signatures(view));
        assert forall|k: int| 0 <= k < view.keys.len() implies (#[trigger] view.keys[k]).len()
            == crate::script::KEY_LEN by {
            assert(crate::script::is_compressed_key(view.keys[k]));
        }
        crate::script::lemma_multisig_script_len(view.threshold, view.keys);
    }
    Some(build_script_sig(&chosen, script.as_slice()))
}

/// Finalizes a PST: reports the inputs that lack signatures, or verifies the
/// signatures chosen for every input and serializes the signed transaction.
pub fn finalize(pst: &Pst) -> (r: Finalization)
    requires
        pst.wf(),
    ensures
        match finalize_outcome(pst@) {
            FinalizationView::Final { tx } => r matches Finalization::Final { raw_tx, txid }
                && raw_tx@ == transaction_bytes(tx) && txid@ == sha256d(transaction_bytes(tx)),
            FinalizationView::Incomplete { short_inputs } => r matches Finalization::Incomplete {
                short_inputs: short,
            } && as_positions(short@) == short_inputs,
            FinalizationView::Invalid => r is Invalid,
        },
{
    let short = find_short_inputs(pst);
    if short.len() > 0 {
        return Finalization::Incomplete { short_inputs: short };
    }
    let unsigned = pst.tx();
    let n = pst.input_count();
    let mut inputs: Vec<TxIn> = Vec::new();
    let mut i: usize = 0;
    proof {
        lemma_short_inputs(pst@, pst@.inputs.len() as int);
    }
    while i < n
        invariant
            i <= n,
            n == pst@.inputs.len(),
            pst.wf(),
            unsigned@ == pst@.tx,
            short_inputs(pst@, pst@.inputs.len() as int).len() == 0,
            forall|k: int| 0 <= k < n ==> !is_short(#[trigger] pst@.inputs[k]),
            inputs@.len() == i,
            forall|k: int| 0 <= k < i ==> #[trigger] input_verifies(pst@, k),
            forall|k: int| 0 <= k < i ==> (#[trigger] inputs@[k])@ == finalized_tx(pst@).inputs[k],
        decreases n - i,
    {
        match finalize_input(pst, i) {
            None => {
                return Finalization::Invalid;
            },
            Some(script) => {
                assert(unsigned@.inputs[i as int] == unsigned.inputs@[i as int]@);
                inputs.push(
                    TxIn {
                        previous_output: unsigned.inputs[i].previous_output.duplicate(),
                        script_sig: script,
                        sequence: unsigned.inputs[i].sequence,
                    },
                );
            },
        }
        i += 1;
    }
    let template = unsigned.duplicate();
    let tx = Transaction {
        version: template.version,
        inputs,
        outputs: template.outputs,
        lock_time: template.lock_time,
    };
    assert(tx@.inputs =~= finalized_tx(pst@).inputs);
    assert(tx@ == finalized_tx(pst@));
    let raw_tx = tx.serialize();
    let txid = compute_sha256d(raw_tx.as_slice());
    Finalization::Final { raw_tx, txid }
}

} // verus!

verus! {

/// `OP_CHECKMULTISIG` as the script interpreter runs it: signatures and keys
/// are compared from the last to the first; a signature that fails under a
/// key is tried under the key before it, and every key is tried once.
pub open spec fn checkmultisig(
    tx: TransactionView,
    index: int,
    script_code: Seq<u8>,
    signatures: Seq<Seq<u8>>,
    keys: Seq<Seq<u8>>,
) -> bool
    decreases keys.len(),
{
    if signatures.len() == 0 {
        true
    } else if signatures.len() > keys.len() {
        false
    } else if signature_checks(tx, index, script_code, keys.last(), signatures.last()) {
        checkmultisig(tx, index, script_code, signatures.drop_last(), keys.drop_last())
    } else {
        checkmultisig(tx, index, script_code, signatures, keys.drop_last())
    }
}

/// Whether input `index` of `tx` spends an output with the script
/// `spent_script` by the rules of P2SH: its script signature is
/// `OP_0 <signatures> <redeem script>`, the redeem script hashes to what the
/// output commits to, and the redeem script, run on the signatures, succeeds.
pub open spec fn spends_validly(
    tx: TransactionView,
    index: int,
    spent_script: Seq<u8>,
    threshold: nat,
    keys: Seq<Seq<u8>>,
    signatures: Seq<Seq<u8>>,
) -> bool {
    &&& tx.inputs[index].script_sig == script_sig(signatures, multisig_script(threshold, keys))
    &&& p2sh_payload(spent_script) == Some(hash160(multisig_script(threshold, keys)))
    &&& signatures.len() == threshold
    &&& checkmultisig(tx, index, multisig_script(threshold, keys), signatures, keys)
}

proof fn lemma_increasing_positions(positions: Seq<int>, t: int)
    requires
        0 <= t < positions.len(),
        forall|k: int| 0 <= k < positions.len() ==> 0 <= #[trigger] positions[k],
        forall|a: int, b: int| 0 <= a < b < positions.len() ==> positions[a] < positions[b],
    ensures
        positions[t] >= t,
    decreases t,
{
    if t > 0 {
        lemma_increasing_positions(positions, t - 1);
    }
}

/// Signatures that verify under keys in ascending positions pass
/// `OP_CHECKMULTISIG`.
pub proof fn lemma_checkmultisig_accepts(
    tx: TransactionView,
    index: int,
    script_code: Seq<u8>,
    signatures: Seq<Seq<u8>>,
    keys: Seq<Seq<u8>>,
    positions: Seq<int>,
)
    requires
        positions.len() == signatures.len(),
        forall|t: int| 0 <= t < positions.len() ==> 0 <= #[trigger] positions[t] < keys.len(),
        forall|a: int, b: int| 0 <= a < b < positions.len() ==> positions[a] < positions[b],
        forall|t: int|
            0 <= t < positions.len() ==> signature_checks(
                tx,
                index,
                script_code,
                keys[#[trigger] positions[t]],
                signatures[t],
            ),
    ensures
        checkmultisig(tx, index, script_code, signatures, keys),
    decreases keys.len(),
{
    if signatures.len() > 0 {
        let last = signatures.len() - 1;
        lemma_increasing_positions(positions, last);
        assert(positions[last] < keys.len());
        if signature_checks(tx, index, script_code, keys.last(), signatures.last()) {
            let fewer = positions.drop_last();
            assert forall|t: int| 0 <= t < fewer.len() implies 0 <= #[trigger] fewer[t]
                < keys.drop_last().len() && signature_checks(
                tx,
                index,
                script_code,
                keys.drop_last()[fewer[t]],
                signatures.drop_last()[t],
            ) by {
                assert(fewer[t] == positions[t]);
                assert(positions[t] < positions[last]);
            }
            assert forall|a: int, b: int| 0 <= a < b < fewer.len() implies fewer[a] < fewer[b] by {
                assert(fewer[a] == positions[a] && fewer[b] == positions[b]);
            }
            lemma_checkmultisig_accepts(
                tx,
                index,
                script_code,
                signatures.drop_last(),
                keys.drop_last(),
                fewer,
            );
        } else {
            assert(positions[last] != keys.len() - 1);
            assert forall|t: int| 0 <= t < positions.len() implies 0 <= #[trigger] positions[t]
                < keys.drop_last().len() && signature_checks(
                tx,
                index,
                script_code,
                keys.drop_last()[positions[t]],
                signatures[t],
            ) by {
                if t < last {
                    assert(positions[t] < positions[last]);
                }
            }
            lemma_checkmultisig_accepts(
                tx,
                index,
                script_code,
                signatures,
                keys.drop_last(),
                positions,
            );
        }
    }
}

/// **Soundness.** Where finalizing gives a transaction, every input of it
/// spends its output validly: the redeem script hashes to what the output
/// commits to, and `OP_CHECKMULTISIG` accepts the signatures against the
/// digest that the finished transaction signs.
pub proof fn lemma_finalize_sound(pst: PstView, index: int)
    requires
        pst_well_formed(pst),
        finalize_outcome(pst) is Final,
        0 <= index < pst.inputs.len(),
    ensures
        spent_output(pst, index) is Some,
        spends_validly(
            finalized_tx(pst),
            index,
            spent_output(pst, index).unwrap().script_pubkey,
            pst.inputs[index].threshold,
            pst.inputs[index].keys,
            chosen_signatures(pst.inputs[index]),
        ),
{
    let input = pst.inputs[index];
    let done = finalized_tx(pst);
    let code = redeem_script(input);
    let positions = chosen_positions(input.signatures, input.threshold, 0);
    let signatures = chosen_signatures(input);
    lemma_short_inputs(pst, pst.inputs.len() as int);
    assert(input_verifies(pst, index));
    assert(!is_short(input)) by {
        if is_short(input) {
            assert(short_inputs(pst, pst.inputs.len() as int).contains(index));
        }
    }
    assert(input_well_formed(input));
    lemma_chosen_positions(input.signatures, input.threshold, 0);
    assert(unsigned_form(done).inputs =~= unsigned_form(pst.tx).inputs);
    assert(unsigned_form(done) == unsigned_form(pst.tx));
    lemma_signing_form_ignores_script_sigs(done, pst.tx, index, code);
    assert forall|t: int| 0 <= t < positions.len() implies signature_checks(
        done,
        index,
        code,
        input.keys[#[trigger] positions[t]],
        signatures[t],
    ) by {
        assert(signature_checks(
            pst.tx,
            index,
            code,
            input.keys[positions[t]],
            input.signatures[positions[t]].unwrap(),
        ));
    }
    lemma_checkmultisig_accepts(done, index, code, signatures, input.keys, positions);
}

/// The number of signatures, at the positions from `from` on, that verify
/// under the key they stand for.
pub open spec fn valid_signature_count(pst: PstView, index: int, from: int) -> nat
    decreases pst.inputs[index].signatures.len() - from,
{
    let input = pst.inputs[index];
    if from < 0 || from >= input.signatures.len() {
        0
    } else if input.signatures[from] is Some && signature_checks(
        pst.tx,
        index,
        redeem_script(input),
        input.keys[from],
        input.signatures[from].unwrap(),
    ) {
        1 + valid_signature_count(pst, index, from + 1)
    } else {
        valid_signature_count(pst, index, from + 1)
    }
}

proof fn lemma_valid_count_covers(pst: PstView, index: int, needed: nat, from: int)
    requires
        0 <= from,
        forall|t: int|
            0 <= t < chosen_positions(pst.inputs[index].signatures, needed, from).len()
                ==> signature_checks(
                pst.tx,
                index,
                redeem_script(pst.inputs[index]),
                pst.inputs[index].keys[#[trigger] chosen_positions(
                    pst.inputs[index].signatures,
                    needed,
                    from,
                )[t]],
                pst.inputs[index].signatures[chosen_positions(
                    pst.inputs[index].signatures,
                    needed,
                    from,
                )[t]].unwrap(),
            ),
    ensures
        valid_signature_count(pst, index, from) >= chosen_positions(
            pst.inputs[index].signatures,
            needed,
            from,
        ).len(),
    decreases pst.inputs[index].signatures.len() - from,
{
    let signatures = pst.inputs[index].signatures;
    let positions = chosen_positions(signatures, needed, from);
    if needed == 0 || from >= signatures.len() {
    } else if signatures[from] is Some {
        let rest = chosen_positions(signatures, (needed - 1) as nat, from + 1);
        assert(positions[0] == from);
        assert forall|t: int| 0 <= t < rest.len() implies signature_checks(
            pst.tx,
            index,
            redeem_script(pst.inputs[index]),
            pst.inputs[index].keys[#[trigger] rest[t]],
            signatures[rest[t]].unwrap(),
        ) by {
            assert(positions[t + 1] == rest[t]);
        }
        lemma_valid_count_covers(pst, index, (needed - 1) as nat, from + 1);
    } else {
        lemma_valid_count_covers(pst, index, needed, from + 1);
    }
}

proof fn lemma_valid_count_of_valid(pst: PstView, index: int, from: int)
    requires
        0 <= from,
        forall|j: int|
            0 <= j < pst.inputs[index].signatures.len() && (
            #[trigger] pst.inputs[index].signatures[j]) is Some ==> signature_checks(
                pst.tx,
                index,
                redeem_script(pst.inputs[index]),
                pst.inputs[index].keys[j],
                pst.inputs[index].signatures[j].unwrap(),
            ),
    ensures
        valid_signature_count(pst, index, from) == signature_count(
            pst.inputs[index].signatures,
            from,
        ),
    decreases pst.inputs[index].signatures.len() - from,
{
    if from < pst.inputs[index].signatures.len() {
        lemma_valid_count_of_valid(pst, index, from + 1);
    }
}

/// **Threshold.** An input with fewer valid signatures than its threshold
/// keeps the PST from being finalized; where the signatures it holds are all
/// valid, the PST is reported incomplete, with that input among the short
/// ones.
pub proof fn lemma_threshold_necessary(pst: PstView, index: int)
    requires
        pst_well_formed(pst),
        0 <= index < pst.inputs.len(),
        valid_signature_count(pst, index, 0) < pst.inputs[index].threshold,
    ensures
        !(finalize_outcome(pst) is Final),
        (forall|j: int|
            0 <= j < pst.inputs[index].signatures.len() && (
            #[trigger] pst.inputs[index].signatures[j]) is Some ==> signature_checks(
                pst.tx,
                index,
                redeem_script(pst.inputs[index]),
                pst.inputs[index].keys[j],
                pst.inputs[index].signatures[j].unwrap(),
            )) ==> finalize_outcome(pst) is Incomplete && finalize_outcome(
            pst,
        )->short_inputs.contains(index),
{
    let input = pst.inputs[index];
    lemma_short_inputs(pst, pst.inputs.len() as int);
    if finalize_outcome(pst) is Final {
        assert(input_verifies(pst, index));
        assert(!is_short(input)) by {
            if is_short(input) {
                assert(short_inputs(pst, pst.inputs.len() as int).contains(index));
            }
        }
        lemma_chosen_positions(input.signatures, input.threshold, 0);
        lemma_valid_count_covers(pst, index, input.threshold, 0);
    }
    if forall|j: int|
        0 <= j < input.signatures.len() && (#[trigger] input.signatures[j]) is Some
            ==> signature_checks(
            pst.tx,
            index,
            redeem_script(input),
            input.keys[j],
            input.signatures[j].unwrap(),
        ) {
        lemma_valid_count_of_valid(pst, index, 0);
        assert(is_short(input));
        assert(short_inputs(pst, pst.inputs.len() as int).contains(index));
    }
}

/// An input that holds fewer signatures than its threshold makes the PST
/// incomplete, and is reported.
pub proof fn lemma_short_input_is_reported(pst: PstView, index: int)
    requires
        0 <= index < pst.inputs.len(),
        is_short(pst.inputs[index]),
    ensures
        finalize_outcome(pst) is Incomplete,
        finalize_outcome(pst)->short_inputs.contains(index),
{
    lemma_short_inputs(pst, pst.inputs.len() as int);
    assert(short_inputs(pst, pst.inputs.len() as int).contains(index));
}

} // verus!
