//! The transaction builder: recipient and change outputs, the selected
//! inputs with their sequence numbers, and for each input what its signers
//! need.

use vstd::prelude::*;
use crate::coin_selection::{select, select_coins, SelectionView};
use crate::crypto::{address_decoding, decode_address};
use crate::descriptor::{script_pubkey_of, Descriptor, DescriptorView};
use crate::encoding::{copy_byte_strings, copy_bytes};
use crate::error::{BuildError, Error, ParseError};
use crate::network::{address_fits_network, AddressKind, Network};
use crate::pst::{Pst, PstInput, PstInputView, PstView};
use crate::transaction::{
    Transaction,
    TransactionView,
    TxIn,
    TxInView,
    TxOut,
    TxOutView,
    SEQUENCE_FINAL,
    SEQUENCE_RBF,
    SIGHASH_ALL,
};
use crate::utxo::{utxo_values, utxo_views, values_of, Utxo, UtxoView};

verus! {

/// The version of the transactions that are built.
pub const TX_VERSION: u32 = 2;

/// What a caller may choose when a transaction is built.
#[derive(Clone, Copy, Debug, PartialEq, Eq, Structural)]
pub struct BuildOptions {
    /// Whether the inputs signal that the transaction may be replaced.
    pub rbf: bool,
    pub lock_time: u32,
}

impl Default for BuildOptions {
    /// Replaceable, with no lock time.
    fn default() -> (options: BuildOptions)
        ensures
            options == (BuildOptions { rbf: true, lock_time: 0 }),
    {
        BuildOptions { rbf: true, lock_time: 0 }
    }
}

/// The sequence number of every input: one that opts in to replacement where
/// that is asked for, the final one otherwise.
pub open spec fn sequence_for(options: BuildOptions) -> u32 {
    if options.rbf {
        SEQUENCE_RBF
    } else {
        SEQUENCE_FINAL
    }
}

/// The script to pay to, given what the recipient address decodes to.
pub open spec fn checked_recipient(
    decoded: Option<(Network, AddressKind, Seq<u8>)>,
    network: Network,
) -> Result<Seq<u8>, Error> {
    match decoded {
        None => Err(Error::Parse(ParseError::BadAddress)),
        Some((address_network, kind, script)) => if address_fits_network(
            address_network,
            kind,
            network,
        ) {
            Ok(script)
        } else {
            Err(Error::Build(BuildError::WrongNetwork))
        },
    }
}

/// The outputs: the recipient first, then the change, where there is any.
pub open spec fn built_outputs(
    recipient_script: Seq<u8>,
    amount: u64,
    change_script: Seq<u8>,
    change: int,
) -> Seq<TxOutView> {
    if change > 0 {
        seq![
            TxOutView { value: amount, script_pubkey: recipient_script },
            TxOutView { value: change as u64, script_pubkey: change_script },
        ]
    } else {
        seq![TxOutView { value: amount, script_pubkey: recipient_script }]
    }
}

/// The PST that spends the selected outputs, in the order of the selection.
pub open spec fn built_pst(
    descriptor: DescriptorView,
    utxos: Seq<UtxoView>,
    selection: SelectionView,
    recipient_script: Seq<u8>,
    amount: u64,
    options: BuildOptions,
) -> PstView {
    PstView {
        tx: TransactionView {
            version: TX_VERSION,
            inputs: Seq::new(
                selection.inputs.len(),
                |t: int|
                    TxInView {
                        previous_output: utxos[selection.inputs[t] as int].outpoint,
                        script_sig: Seq::empty(),
                        sequence: sequence_for(options),
                    },
            ),
            outputs: built_outputs(
                recipient_script,
                amount,
                script_pubkey_of(descriptor),
                selection.change,
            ),
            lock_time: options.lock_time,
        },
        inputs: Seq::new(
            selection.inputs.len(),
            |t: int|
                PstInputView {
                    funding_tx: utxos[selection.inputs[t] as int].funding_tx,
                    threshold: descriptor.threshold,
                    keys: descriptor.keys,
                    sighash_type: SIGHASH_ALL,
                    signatures: Seq::new(descriptor.keys.len(), |j: int| None::<Seq<u8>>),
                },
        ),
    }
}

/// What building gives: the address is decoded and held against the network,
/// coins are selected for the amount at the fee rate, and the PST is put
/// together.
pub open spec fn build_outcome(
    descriptor: DescriptorView,
    utxos: Seq<UtxoView>,
    recipient_address: Seq<char>,
    amount: u64,
    fee_rate: u64,
    options: BuildOptions,
) -> Result<PstView, Error> {
    match checked_recipient(address_decoding(recipient_address), descriptor.network) {
        Err(e) => Err(e),
        Ok(recipient_script) => match select(utxo_values(utxos), amount, fee_rate) {
            Err(shortfall) => Err(Error::InsufficientFunds(shortfall)),
            Ok(selection) => Ok(
                built_pst(descriptor, utxos, selection, recipient_script, amount, options),
            ),
        },
    }
}

/// The outputs of a built transaction hold the amount and the change.
pub proof fn lemma_built_outputs_total(
    recipient_script: Seq<u8>,
    amount: u64,
    change_script: Seq<u8>,
    change: int,
)
    requires
        0 <= change <= u64::MAX,
    ensures
        crate::transaction::outputs_total(
            built_outputs(recipient_script, amount, change_script, change),
        ) == amount + change,
{
    reveal_with_fuel(crate::transaction::outputs_total, 3);
    let outputs = built_outputs(recipient_script, amount, change_script, change);
    if change > 0 {
        assert(outputs.drop_last().last() == outputs[0]);
        assert(outputs.drop_last().drop_last().len() == 0);
    } else {
        assert(outputs.drop_last().len() == 0);
    }
}

/// **Replaceability.** Where replacement is asked for, every input of a
/// built transaction signals it: its sequence number is below 0xfffffffe.
pub proof fn lemma_built_inputs_signal_replacement(
    descriptor: DescriptorView,
    utxos: Seq<UtxoView>,
    selection: SelectionView,
    recipient_script: Seq<u8>,
    amount: u64,
    options: BuildOptions,
)
    requires
        options.rbf,
    ensures
        forall|i: int|
            0 <= i < selection.inputs.len() ==> (#[trigger] built_pst(
                descriptor,
                utxos,
                selection,
                recipient_script,
                amount,
                options,
            ).tx.inputs[i]).sequence < 0xffff_fffe,
{
}

/// What is built from the outputs of the wallet can be signed: every input
/// spends an output that commits to the hash of the redeem script.
pub proof fn lemma_built_inputs_are_bound(
    descriptor: DescriptorView,
    utxos: Seq<UtxoView>,
    selection: SelectionView,
    recipient_script: Seq<u8>,
    amount: u64,
    options: BuildOptions,
)
    requires
        crate::utxo::is_utxo_set(utxos, script_pubkey_of(descriptor)),
        crate::descriptor::script_hash_of(descriptor).len() == 20,
        forall|t: int| 0 <= t < selection.inputs.len() ==> (#[trigger] selection.inputs[t]) < utxos.len(),
    ensures
        forall|i: int|
            0 <= i < selection.inputs.len() ==> #[trigger] crate::pst::input_is_bound(
                built_pst(descriptor, utxos, selection, recipient_script, amount, options),
                i,
            ),
{
    let pst = built_pst(descriptor, utxos, selection, recipient_script, amount, options);
    crate::script::lemma_p2sh_payload_of_script(crate::descriptor::script_hash_of(descriptor));
    assert forall|i: int| 0 <= i < selection.inputs.len() implies #[trigger] crate::pst::input_is_bound(
        pst,
        i,
    ) by {
        let utxo = utxos[selection.inputs[i] as int];
        assert(crate::utxo::utxo_consistent(utxo));
        assert(pst.tx.inputs[i].previous_output == utxo.outpoint);
        assert(pst.inputs[i].funding_tx == utxo.funding_tx);
        assert(crate::pst::redeem_script(pst.inputs[i]) == crate::descriptor::redeem_script_of(
            descriptor,
        ));
    }
}

/// Holds a decoded recipient address against the network of the wallet.
pub fn check_recipient(decoded: Option<(Network, AddressKind, Vec<u8>)>, network: Network) -> (r:
    Result<Vec<u8>, Error>)
    ensures
        match decoded {
            None => r is Err && r->Err_0 == Error::Parse(ParseError::BadAddress),
            Some((address_network, kind, script)) => if address_fits_network(
                address_network,
                kind,
                network,
            ) {
                r is Ok && r->Ok_0 == script
            } else {
                r is Err && r->Err_0 == Error::Build(BuildError::WrongNetwork)
            },
        },
{
    match decoded {
        None => Err(Error::Parse(ParseError::BadAddress)),
        Some((address_network, kind, script)) => {
            if network.accepts(address_network, kind) {
                Ok(script)
            } else {
                Err(Error::Build(BuildError::WrongNetwork))
            }
        },
    }
}

/// Puts the PST together from a selection.
pub fn assemble(
    descriptor: &Descriptor,
    utxos: &Vec<Utxo>,
    inputs: &Vec<usize>,
    change: u64,
    recipient_script: Vec<u8>,
    amount: u64,
    options: &BuildOptions,
) -> (pst: Pst)
    requires
        descriptor.wf(),
        forall|t: int| 0 <= t < inputs@.len() ==> (#[trigger] inputs@[t]) < utxos@.len(),
    ensures
        pst.wf(),
        pst@ == built_pst(
            descriptor@,
            utxo_views(utxos@),
            SelectionView { inputs: inputs@, change: change as int },
            recipient_script@,
            amount,
            *options,
        ),
{
    let ghost selection = SelectionView { inputs: inputs@, change: change as int };
    let ghost target = built_pst(
        descriptor@,
        utxo_views(utxos@),
        selection,
        recipient_script@,
        amount,
        *options,
    );
    let sequence = if options.rbf {
        SEQUENCE_RBF
    } else {
        SEQUENCE_FINAL
    };
    let mut tx_inputs: Vec<TxIn> = Vec::new();
    let mut pst_inputs: Vec<PstInput> = Vec::new();
    let mut t: usize = 0;
    proof {
        crate::descriptor::lemma_descriptor_is_policy(descriptor);
    }
    while t < inputs.len()
        invariant
            t <= inputs@.len(),
            descriptor.wf(),
            crate::script::is_policy(descriptor@.threshold, descriptor@.keys),
            forall|k: int| 0 <= k < inputs@.len() ==> (#[trigger] inputs@[k]) < utxos@.len(),
            sequence == sequence_for(*options),
            target == built_pst(
                descriptor@,
                utxo_views(utxos@),
                selection,
                recipient_script@,
                amount,
                *options,
            ),
            selection.inputs == inputs@,
            tx_inputs@.len() == t,
            pst_inputs@.len() == t,
            forall|k: int| 0 <= k < t ==> (#[trigger] tx_inputs@[k])@ == target.tx.inputs[k],
            forall|k: int|
                0 <= k < t ==> (#[trigger] pst_inputs@[k]).wf() && pst_inputs@[k]@
                    == target.inputs[k],
        decreases inputs@.len() - t,
    {
        let utxo = &utxos[inputs[t]];
        tx_inputs.push(
            TxIn {
                previous_output: utxo.outpoint.duplicate(),
                script_sig: Vec::new(),
                sequence,
            },
        );
        let keys = copy_byte_strings(descriptor.keys());
        let input = PstInput::new(utxo.funding_tx.duplicate(), descriptor.threshold(), keys);
        pst_inputs.push(input.unwrap());
        t += 1;
    }
    let mut outputs: Vec<TxOut> = Vec::new();
    outputs.push(TxOut { value: amount, script_pubkey: recipient_script });
    if change > 0 {
        outputs.push(
            TxOut { value: change, script_pubkey: copy_bytes(descriptor.script_pubkey().as_slice()) },
        );
    }
    let tx = Transaction {
        version: TX_VERSION,
        inputs: tx_inputs,
        outputs,
        lock_time: options.lock_time,
    };
    assert(tx@.inputs =~= target.tx.inputs);
    assert(tx@.outputs =~= target.tx.outputs);
    assert(tx@ == target.tx);
    let ghost records = pst_inputs@;
    let pst = Pst::new(tx, pst_inputs);
    assert(records.map_values(|input: PstInput| input@) =~= target.inputs);
    pst.unwrap()
}

/// Builds the PST that sends `amount` satoshis to `recipient_address` from
/// the outputs in `utxos`, at `fee_rate` satoshis per virtual byte.
pub fn build(
    descriptor: &Descriptor,
    utxos: &Vec<Utxo>,
    recipient_address: &str,
    amount: u64,
    fee_rate: u64,
    options: &BuildOptions,
) -> (r: Result<Pst, Error>)
    requires
        descriptor.wf(),
    ensures
        match build_outcome(
            descriptor@,
            utxo_views(utxos@),
            recipient_address@,
            amount,
            fee_rate,
            *options,
        ) {
            Ok(pst) => r is Ok && r->Ok_0@ == pst && r->Ok_0.wf(),
            Err(e) => r is Err && r->Err_0 == e,
        },
        r is Ok && options.rbf ==> forall|i: int|
            0 <= i < r->Ok_0@.tx.inputs.len() ==> (#[trigger] r->Ok_0@.tx.inputs[i]).sequence
                < 0xffff_fffe,
        r is Ok && crate::utxo::is_utxo_set(utxo_views(utxos@), script_pubkey_of(descriptor@))
            ==> forall|i: int|
            0 <= i < r->Ok_0@.inputs.len() ==> #[trigger] crate::pst::input_is_bound(r->Ok_0@, i),
{
    let script_hash = descriptor.script_hash();
    let recipient_script = match check_recipient(
        decode_address(recipient_address),
        descriptor.network(),
    ) {
        Err(e) => {
            return Err(e);
        },
        Ok(script) => script,
    };
    let values = values_of(utxos);
    match select_coins(&values, amount, fee_rate) {
        Err(shortfall) => Err(Error::InsufficientFunds(shortfall)),
        Ok(selection) => {
            proof {
                if crate::utxo::is_utxo_set(utxo_views(utxos@), script_pubkey_of(descriptor@)) {
                    lemma_built_inputs_are_bound(
                        descriptor@,
                        utxo_views(utxos@),
                        selection@,
                        recipient_script@,
                        amount,
                        *options,
                    );
                }
            }
            Ok(
                assemble(
                    descriptor,
                    utxos,
                    &selection.inputs,
                    selection.change,
                    recipient_script,
                    amount,
                    options,
                ),
            )
        },
    }
}

} // verus!
