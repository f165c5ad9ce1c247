//! The stages of a transaction on its way to the chain. A PST is unsigned,
//! partially signed or fully signed; signing moves it forward only.
//! Finalizing and sending follow, and have their own results.

use vstd::prelude::*;
use crate::finalizer::{count_signatures, is_short, lemma_short_inputs, short_inputs, signature_count};
use crate::pst::{pst_well_formed, Pst, PstView};
use crate::signer::SignerView;
use crate::signing::{first_unbound, lemma_signed_input_frame, signed, signed_input};

verus! {

/// How far the signing of a PST has come.
#[derive(Clone, Copy, Debug, PartialEq, Eq, Structural)]
pub enum Stage {
    /// No input holds a signature, and at least one needs one.
    Unsigned,
    /// Some input holds a signature, and some input holds too few.
    PartiallySigned,
    /// Every input holds as many signatures as its threshold asks for.
    FullySigned,
}

/// The number of signatures that the first `upto` inputs hold.
pub open spec fn total_signatures(pst: PstView, upto: int) -> nat
    decreases upto,
{
    if upto <= 0 {
        0
    } else {
        total_signatures(pst, upto - 1) + signature_count(pst.inputs[upto - 1].signatures, 0)
    }
}

/// The stage of a PST.
pub open spec fn stage_of(pst: PstView) -> Stage {
    if short_inputs(pst, pst.inputs.len() as int).len() == 0 {
        Stage::FullySigned
    } else if total_signatures(pst, pst.inputs.len() as int) == 0 {
        Stage::Unsigned
    } else {
        Stage::PartiallySigned
    }
}

/// The place of a stage in the order of the stages.
pub open spec fn stage_rank(stage: Stage) -> int {
    match stage {
        Stage::Unsigned => 0,
        Stage::PartiallySigned => 1,
        Stage::FullySigned => 2,
    }
}

/// The stage of a PST.
pub fn stage(pst: &Pst) -> (stage: Stage)
    requires
        pst.wf(),
    ensures
        stage == stage_of(pst@),
{
    let n = pst.input_count();
    let mut any_short = false;
    let mut any_signed = false;
    let mut i: usize = 0;
    while i < n
        invariant
            i <= n,
            n == pst@.inputs.len(),
            pst.wf(),
            any_short == (short_inputs(pst@, i as int).len() > 0),
            any_signed == (total_signatures(pst@, i as int) > 0),
        decreases n - i,
    {
        let input = pst.input(i);
        let held = count_signatures(input);
        if held < input.threshold() as usize {
            any_short = true;
        }
        if held > 0 {
            any_signed = true;
        }
        i += 1;
    }
    if !any_short {
        Stage::FullySigned
    } else if !any_signed {
        Stage::Unsigned
    } else {
        Stage::PartiallySigned
    }
}

proof fn lemma_count_grows(before: Seq<Option<Seq<u8>>>, after: Seq<Option<Seq<u8>>>, from: int)
    requires
        before.len() == after.len(),
        0 <= from,
        forall|j: int| 0 <= j < before.len() && (#[trigger] before[j]) is Some ==> after[j] is Some,
    ensures
        signature_count(before, from) <= signature_count(after, from),
    decreases before.len() - from,
{
    if from < before.len() {
        lemma_count_grows(before, after, from + 1);
    }
}

proof fn lemma_total_grows(before: PstView, after: PstView, upto: int)
    requires
        0 <= upto <= before.inputs.len(),
        before.inputs.len() == after.inputs.len(),
        forall|i: int|
            0 <= i < before.inputs.len() ==> signature_count(
                (#[trigger] before.inputs[i]).signatures,
                0,
            ) <= signature_count(after.inputs[i].signatures, 0),
    ensures
        total_signatures(before, upto) <= total_signatures(after, upto),
    decreases upto,
{
    if upto > 0 {
        lemma_total_grows(before, after, upto - 1);
        assert(signature_count(before.inputs[upto - 1].signatures, 0) <= signature_count(
            after.inputs[upto - 1].signatures,
            0,
        ));
    }
}

/// **One way.** Signing never takes a PST back to an earlier stage.
pub proof fn lemma_signing_advances(pst: PstView, signer: SignerView)
    requires
        pst_well_formed(pst),
    ensures
        stage_rank(stage_of(signed(pst, signer))) >= stage_rank(stage_of(pst)),
{
    let after = signed(pst, signer);
    let n = pst.inputs.len() as int;
    assert forall|i: int| 0 <= i < n implies signature_count(
        (#[trigger] pst.inputs[i]).signatures,
        0,
    ) <= signature_count(after.inputs[i].signatures, 0) && after.inputs[i].threshold
        == pst.inputs[i].threshold by {
        lemma_signed_input_frame(pst, i, signer);
        if i < first_unbound(pst, 0) {
            assert(after.inputs[i] == signed_input(pst, i, signer));
        }
        lemma_count_grows(pst.inputs[i].signatures, after.inputs[i].signatures, 0);
    }
    lemma_total_grows(pst, after, n);
    lemma_short_inputs(pst, n);
    lemma_short_inputs(after, n);
    let short_after = short_inputs(after, n);
    if short_after.len() > 0 {
        let i = short_after[0];
        assert(is_short(after.inputs[i]));
        assert(is_short(pst.inputs[i]));
        assert(short_inputs(pst, n).contains(i));
    }
}

} // verus!
