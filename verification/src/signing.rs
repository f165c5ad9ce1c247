//! The signing engine: a signer adds its signature to every input whose
//! redeem script names its public key.
//!
//! Signing does not finalize. It touches nothing but the place of the
//! signer's own key, and leaves a signature that stands there already, so
//! signers may sign in any order and any number of times.

use vstd::prelude::*;
use crate::crypto::{compute_hash160, ecdsa_sign, ecdsa_signature};
use crate::error::SignError;
use crate::pst::{
    input_is_bound,
    pst_well_formed,
    redeem_script,
    signature_pairs,
    Pst,
    PstInputView,
    PstView,
};
use crate::script::{build_multisig_script, find_key, key_position, lemma_key_position};
use crate::signer::{is_signer, Signer, SignerView};
use crate::transaction::sighash;

verus! {

/// The byte that follows the DER signature: `SIGHASH_ALL`.
pub const SIGHASH_ALL_BYTE: u8 = 0x01;

/// The signature of `signer` for input `index`: the DER encoding of the
/// deterministic ECDSA signature of the input's sighash, then the sighash
/// byte.
pub open spec fn signature_of(pst: PstView, index: int, signer: SignerView) -> Option<Seq<u8>> {
    match ecdsa_signature(
        signer.secret,
        sighash(pst.tx, index, redeem_script(pst.inputs[index])),
    ) {
        Some(der) => Some(der.push(SIGHASH_ALL_BYTE)),
        None => None,
    }
}

/// Input `index` after `signer` has signed it: with the signer's signature
/// under the signer's key, where the redeem script names that key and no
/// signature stands there yet; unchanged otherwise.
pub open spec fn signed_input(pst: PstView, index: int, signer: SignerView) -> PstInputView {
    let input = pst.inputs[index];
    match key_position(input.keys, signer.public_key, 0) {
        None => input,
        Some(j) => if input.signatures[j] is Some {
            input
        } else {
            match signature_of(pst, index, signer) {
                Some(signature) => PstInputView {
                    signatures: input.signatures.update(j, Some(signature)),
                    ..input
                },
                None => input,
            }
        },
    }
}

/// The first input from `from` on that is not bound to its redeem script; the
/// number of inputs where there is none.
pub open spec fn first_unbound(pst: PstView, from: int) -> int
    decreases pst.inputs.len() - from,
{
    if 0 <= from < pst.inputs.len() && input_is_bound(pst, from) {
        first_unbound(pst, from + 1)
    } else {
        from
    }
}

/// The PST with its first `count` inputs signed by `signer`.
pub open spec fn signed_upto(pst: PstView, signer: SignerView, count: int) -> PstView {
    PstView {
        inputs: Seq::new(
            pst.inputs.len(),
            |i: int|
                if i < count {
                    signed_input(pst, i, signer)
                } else {
                    pst.inputs[i]
                },
        ),
        ..pst
    }
}

/// The PST after `signer` has signed: every input before the first that is
/// not bound to its redeem script is signed, the others are as they were.
pub open spec fn signed(pst: PstView, signer: SignerView) -> PstView {
    signed_upto(pst, signer, first_unbound(pst, 0))
}

/// How signing ends: with the index of the first input that is not bound to
/// its redeem script, if there is one.
pub open spec fn sign_result(pst: PstView) -> Result<(), SignError> {
    if 0 <= first_unbound(pst, 0) < pst.inputs.len() {
        Err(SignError::DescriptorMismatch(first_unbound(pst, 0) as usize))
    } else {
        Ok(())
    }
}

proof fn lemma_first_unbound_range(pst: PstView, from: int)
    requires
        0 <= from <= pst.inputs.len(),
    ensures
        from <= first_unbound(pst, from) <= pst.inputs.len(),
        forall|i: int| from <= i < first_unbound(pst, from) ==> input_is_bound(pst, i),
        first_unbound(pst, from) < pst.inputs.len() ==> !input_is_bound(
            pst,
            first_unbound(pst, from),
        ),
    decreases pst.inputs.len() - from,
{
    if from < pst.inputs.len() && input_is_bound(pst, from) {
        lemma_first_unbound_range(pst, from + 1);
    }
}

/// Signs every input that names the signer's key, in order, up to the first
/// input whose redeem script does not hash to what the spent output commits
/// to. Signatures given before that input stay.
pub fn sign(pst: &mut Pst, signer: &Signer) -> (r: Result<(), SignError>)
    requires
        old(pst).wf(),
        signer.wf(),
    ensures
        final(pst).wf(),
        final(pst)@ == signed(old(pst)@, signer@),
        r == sign_result(old(pst)@),
{
    let ghost start = pst@;
    let n = pst.input_count();
    let mut i: usize = 0;
    assert(pst@.inputs =~= signed_upto(start, signer@, 0).inputs);
    while i < n
        invariant
            i <= n,
            n == start.inputs.len(),
            start == old(pst)@,
            pst_well_formed(start),
            is_signer(signer@),
            pst.wf(),
            pst@ == signed_upto(start, signer@, i as int),
            first_unbound(start, i as int) == first_unbound(start, 0),
        decreases n - i,
    {
        let ghost before = pst@;
        assert(before.inputs[i as int] == start.inputs[i as int]);
        let input = pst.input(i);
        let keys = input.keys();
        assert forall|k: int| 0 <= k < keys@.len() implies (#[trigger] keys@[k])@.len()
            <= 0xffff_ffff by {
            assert(crate::script::is_compressed_key(crate::encoding::byte_strings(keys@)[k]));
        }
        let script = build_multisig_script(input.threshold(), keys);
        let script_hash = compute_hash160(script.as_slice());
        if !pst.spends_script_hash(i, script_hash.as_slice()) {
            assert(!input_is_bound(start, i as int));
            assert(first_unbound(start, i as int) == i);
            return Err(SignError::DescriptorMismatch(i));
        }
        assert(input_is_bound(start, i as int));
        let ghost target = signed_upto(start, signer@, i + 1);
        match find_key(keys, signer.public_key().as_slice()) {
            None => {
                assert(before.inputs =~= target.inputs);
            },
            Some(j) => {
                if input.signature(j).is_some() {
                    assert(before.inputs =~= target.inputs);
                } else {
                    let digest = pst.tx().sighash(i, script.as_slice());
                    let mut signature = ecdsa_sign(signer.secret().as_slice(), digest.as_slice()).unwrap();
                    let ghost der = signature@;
                    signature.push(SIGHASH_ALL_BYTE);
                    assert(signature@ == der.push(SIGHASH_ALL_BYTE));
                    assert(signature_of(start, i as int, signer@) == Some(signature@));
                    let added = pst.add_signature(i, j, signature);
                    assert(added);
                    assert(pst@.inputs =~= target.inputs);
                }
            },
        }
        i += 1;
    }
    assert(first_unbound(start, n as int) == n);
    Ok(())
}

} // verus!

verus! {

/// Signing an input changes its signatures only, and only the one under the
/// signer's key, and only where none stood.
pub proof fn lemma_signed_input_frame(pst: PstView, index: int, signer: SignerView)
    requires
        pst_well_formed(pst),
        0 <= index < pst.inputs.len(),
    ensures
        ({
            let before = pst.inputs[index];
            let after = signed_input(pst, index, signer);
            &&& after.funding_tx == before.funding_tx
            &&& after.threshold == before.threshold
            &&& after.keys == before.keys
            &&& after.sighash_type == before.sighash_type
            &&& after.signatures.len() == before.signatures.len()
            &&& forall|j: int|
                0 <= j < before.signatures.len() && (before.signatures[j] is Some || before.keys[j]
                    != signer.public_key) ==> #[trigger] after.signatures[j] == before.signatures[j]
        }),
{
    lemma_key_position(pst.inputs[index].keys, signer.public_key, 0);
}

/// Signing changes no transaction, no key and no funding transaction, so the
/// inputs that are bound stay bound and each signer's signature stays what it
/// is.
proof fn lemma_signed_upto_frame(pst: PstView, signer: SignerView, count: int)
    requires
        pst_well_formed(pst),
        0 <= count <= pst.inputs.len(),
    ensures
        ({
            let after = signed_upto(pst, signer, count);
            &&& after.tx == pst.tx
            &&& after.inputs.len() == pst.inputs.len()
            &&& forall|i: int|
                0 <= i < pst.inputs.len() ==> #[trigger] input_is_bound(after, i) == input_is_bound(
                    pst,
                    i,
                )
            &&& forall|i: int|
                0 <= i < pst.inputs.len() ==> (#[trigger] after.inputs[i]).keys == pst.inputs[i].keys
                    && after.inputs[i].threshold == pst.inputs[i].threshold
                    && after.inputs[i].signatures.len() == pst.inputs[i].signatures.len()
        }),
{
    let after = signed_upto(pst, signer, count);
    assert forall|i: int| 0 <= i < pst.inputs.len() implies (#[trigger] after.inputs[i]).keys
        == pst.inputs[i].keys && after.inputs[i].threshold == pst.inputs[i].threshold
        && after.inputs[i].funding_tx == pst.inputs[i].funding_tx
        && after.inputs[i].signatures.len() == pst.inputs[i].signatures.len() by {
        lemma_signed_input_frame(pst, i, signer);
    }
    assert forall|i: int| 0 <= i < pst.inputs.len() implies #[trigger] input_is_bound(after, i)
        == input_is_bound(pst, i) by {
        assert(after.inputs[i].keys == pst.inputs[i].keys);
        assert(after.inputs[i].funding_tx == pst.inputs[i].funding_tx);
    }
}

proof fn lemma_first_unbound_agrees(a: PstView, b: PstView, from: int)
    requires
        a.inputs.len() == b.inputs.len(),
        0 <= from,
        forall|i: int| 0 <= i < a.inputs.len() ==> #[trigger] input_is_bound(a, i) == input_is_bound(b, i),
    ensures
        first_unbound(a, from) == first_unbound(b, from),
    decreases a.inputs.len() - from,
{
    if from < a.inputs.len() && input_is_bound(a, from) {
        lemma_first_unbound_agrees(a, b, from + 1);
    }
}

/// Where every input is bound to its redeem script, signing goes through.
pub proof fn lemma_bound_inputs_sign(pst: PstView)
    requires
        forall|i: int| 0 <= i < pst.inputs.len() ==> #[trigger] input_is_bound(pst, i),
    ensures
        sign_result(pst) is Ok,
{
    lemma_first_unbound_range(pst, 0);
}

/// **Idempotence.** Signing twice with one signer gives what signing once
/// gives, in every field, and ends the same way.
pub proof fn lemma_sign_idempotent(pst: PstView, signer: SignerView)
    requires
        pst_well_formed(pst),
    ensures
        signed(signed(pst, signer), signer) == signed(pst, signer),
        sign_result(signed(pst, signer)) == sign_result(pst),
{
    let count = first_unbound(pst, 0);
    lemma_first_unbound_range(pst, 0);
    lemma_signed_upto_frame(pst, signer, count);
    let once = signed(pst, signer);
    lemma_first_unbound_agrees(once, pst, 0);
    let twice = signed(once, signer);
    assert forall|i: int| 0 <= i < pst.inputs.len() implies twice.inputs[i] == once.inputs[i] by {
        if i < count {
            lemma_signed_input_frame(pst, i, signer);
            lemma_key_position(pst.inputs[i].keys, signer.public_key, 0);
            assert(once.inputs[i] == signed_input(pst, i, signer));
            assert(signature_of(once, i, signer) == signature_of(pst, i, signer));
            assert(signed_input(once, i, signer).signatures =~= once.inputs[i].signatures);
        }
    }
    assert(twice.inputs =~= once.inputs);
}

/// **Commutativity.** Two signers with different public keys may sign in
/// either order: the PST is the same in the end.
pub proof fn lemma_sign_commutes(pst: PstView, first: SignerView, second: SignerView)
    requires
        pst_well_formed(pst),
        first.public_key != second.public_key || first == second,
    ensures
        signed(signed(pst, first), second) == signed(signed(pst, second), first),
{
    if first != second {
        let count = first_unbound(pst, 0);
        lemma_first_unbound_range(pst, 0);
        lemma_signed_upto_frame(pst, first, count);
        lemma_signed_upto_frame(pst, second, count);
        let a = signed(pst, first);
        let b = signed(pst, second);
        lemma_first_unbound_agrees(a, pst, 0);
        lemma_first_unbound_agrees(b, pst, 0);
        let ab = signed(a, second);
        let ba = signed(b, first);
        assert forall|i: int| 0 <= i < pst.inputs.len() implies ab.inputs[i] == ba.inputs[i] by {
            if i < count {
                let keys = pst.inputs[i].keys;
                lemma_signed_input_frame(pst, i, first);
                lemma_signed_input_frame(pst, i, second);
                lemma_key_position(keys, first.public_key, 0);
                lemma_key_position(keys, second.public_key, 0);
                assert(a.inputs[i] == signed_input(pst, i, first));
                assert(b.inputs[i] == signed_input(pst, i, second));
                assert(signature_of(a, i, second) == signature_of(pst, i, second));
                assert(signature_of(b, i, first) == signature_of(pst, i, first));
                assert(ab.inputs[i] == signed_input(a, i, second));
                assert(ba.inputs[i] == signed_input(b, i, first));
                assert(ab.inputs[i].signatures =~= ba.inputs[i].signatures);
            }
        }
        assert(ab.inputs =~= ba.inputs);
    }
}

/// **Monotonicity.** Every partial signature that an input held before
/// signing it holds after, under the same key.
pub proof fn lemma_sign_monotonic(pst: PstView, signer: SignerView, index: int)
    requires
        pst_well_formed(pst),
        0 <= index < pst.inputs.len(),
    ensures
        signed(pst, signer).inputs[index].keys == pst.inputs[index].keys,
        signature_pairs(pst.inputs[index]).subset_of(
            signature_pairs(signed(pst, signer).inputs[index]),
        ),
{
    let count = first_unbound(pst, 0);
    lemma_first_unbound_range(pst, 0);
    lemma_signed_input_frame(pst, index, signer);
    let before = pst.inputs[index];
    let after = signed(pst, signer).inputs[index];
    assert forall|pair: (Seq<u8>, Seq<u8>)| signature_pairs(before).contains(pair) implies signature_pairs(
        after,
    ).contains(pair) by {
        let j = choose|j: int|
            0 <= j < before.keys.len() && before.keys[j] == pair.0 && #[trigger] before.signatures[j]
                == Some(pair.1);
        assert(after.signatures[j] == Some(pair.1));
    }
}

} // verus!
