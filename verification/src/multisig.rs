//! The wallet: a descriptor, the unspent outputs that pay to it, and the
//! signers at hand.

use vstd::prelude::*;
use crate::builder::{build, build_outcome, BuildOptions};
use crate::descriptor::{script_pubkey_of, Descriptor, DescriptorView};
use crate::encoding::{bytes_equal, hex_encode, hex_text};
use crate::error::Error;
use crate::finalizer::{as_positions, finalize, finalize_outcome, Finalization, FinalizationView};
use crate::pst::{Pst, PstView};
use crate::signer::{is_signer, Signer, SignerView};
use crate::signing::{lemma_sign_idempotent, sign, sign_result, signed};
use crate::transaction::{transaction_bytes, TransactionView};
use crate::crypto::sha256d;
use crate::utxo::{check_utxo_set, is_utxo_set, utxo_views, Utxo, UtxoView};

verus! {

/// The fee rate of a new wallet, in satoshis per virtual byte.
pub const DEFAULT_FEE_RATE: u64 = 1;

pub struct MultisigWallet {
    descriptor: Descriptor,
    utxos: Vec<Utxo>,
    signers: Vec<Signer>,
    fee_rate: u64,
    options: BuildOptions,
}

pub struct WalletView {
    pub descriptor: DescriptorView,
    pub utxos: Seq<UtxoView>,
    /// The signers, in the order in which they were added; no public key
    /// twice.
    pub signers: Seq<SignerView>,
    pub fee_rate: u64,
    pub options: BuildOptions,
}

/// A transaction that is ready to be sent.
#[derive(Debug)]
pub struct SignedTransaction {
    /// The transaction in the legacy serialization.
    pub raw_tx: Vec<u8>,
    /// The double SHA256 of `raw_tx`, in the byte order of the hash.
    pub txid: Vec<u8>,
}

/// How creating and signing a transaction ends.
pub enum TransactionOutcome {
    Signed { tx: TransactionView },
    Incomplete { short_inputs: Seq<int> },
    Failed { error: Error },
}

/// The views of a list of signers.
pub open spec fn signer_views(signers: Seq<Signer>) -> Seq<SignerView> {
    signers.map_values(|signer: Signer| signer@)
}

/// Whether a signer with this public key is among `signers`.
pub open spec fn has_signer(signers: Seq<SignerView>, public_key: Seq<u8>) -> bool {
    exists|k: int| 0 <= k < signers.len() && (#[trigger] signers[k]).public_key == public_key
}

/// The PST after the first `count` of `signers` have signed, in their order.
pub open spec fn signed_by_all(pst: PstView, signers: Seq<SignerView>, count: int) -> PstView
    decreases count,
{
    if count <= 0 {
        pst
    } else {
        signed(signed_by_all(pst, signers, count - 1), signers[count - 1])
    }
}

/// What `create_and_sign_transaction` comes to: the PST is built, every
/// signer of the wallet signs it, and it is finalized.
pub open spec fn create_and_sign_outcome(
    wallet: WalletView,
    recipient_address: Seq<char>,
    amount: u64,
) -> TransactionOutcome {
    match build_outcome(
        wallet.descriptor,
        wallet.utxos,
        recipient_address,
        amount,
        wallet.fee_rate,
        wallet.options,
    ) {
        Err(error) => TransactionOutcome::Failed { error },
        Ok(pst) => if wallet.signers.len() > 0 && sign_result(pst) is Err {
            TransactionOutcome::Failed { error: Error::Sign(sign_result(pst)->Err_0) }
        } else {
            match finalize_outcome(signed_by_all(pst, wallet.signers, wallet.signers.len() as int)) {
                FinalizationView::Final { tx } => TransactionOutcome::Signed { tx },
                FinalizationView::Incomplete { short_inputs } => TransactionOutcome::Incomplete {
                    short_inputs,
                },
                FinalizationView::Invalid => TransactionOutcome::Failed { error: Error::Invalid },
            }
        },
    }
}

/// The transaction id as it is printed: the bytes of the hash in reverse, in
/// hex.
pub open spec fn txid_text(txid: Seq<u8>) -> Seq<u8> {
    hex_text(txid.reverse())
}

impl SignedTransaction {
    /// The transaction id as block explorers print it, in ASCII.
    pub fn txid_hex(&self) -> (text: Vec<u8>)
        ensures
            text@ == txid_text(self.txid@),
    {
        let n = self.txid.len();
        let mut reversed: Vec<u8> = Vec::new();
        let mut i: usize = 0;
        while i < n
            invariant
                i <= n,
                n == self.txid@.len(),
                reversed@.len() == i,
                forall|k: int| 0 <= k < i ==> reversed@[k] == self.txid@[n - 1 - k],
            decreases n - i,
        {
            reversed.push(self.txid[n - 1 - i]);
            i += 1;
        }
        assert(reversed@ =~= self.txid@.reverse());
        hex_encode(reversed.as_slice())
    }
}

impl View for MultisigWallet {
    type V = WalletView;

    closed spec fn view(&self) -> WalletView {
        WalletView {
            descriptor: self.descriptor@,
            utxos: utxo_views(self.utxos@),
            signers: signer_views(self.signers@),
            fee_rate: self.fee_rate,
            options: self.options,
        }
    }
}

impl MultisigWallet {
    /// The descriptor is well formed, the outputs pay to it, and every signer
    /// has the public key of its secret, none the key of another.
    pub closed spec fn wf(&self) -> bool {
        &&& self.descriptor.wf()
        &&& is_utxo_set(self@.utxos, script_pubkey_of(self@.descriptor))
        &&& forall|k: int| 0 <= k < self@.signers.len() ==> is_signer(#[trigger] self@.signers[k])
        &&& forall|a: int, b: int|
            0 <= a < b < self@.signers.len() ==> (#[trigger] self@.signers[a]).public_key != (
            #[trigger] self@.signers[b]).public_key
    }

    /// A wallet for `descriptor` with no outputs and no signers, which pays
    /// one satoshi per virtual byte and marks its transactions replaceable.
    pub fn new(descriptor: Descriptor) -> (wallet: MultisigWallet)
        requires
            descriptor.wf(),
        ensures
            wallet.wf(),
            wallet@ == (WalletView {
                descriptor: descriptor@,
                utxos: Seq::empty(),
                signers: Seq::empty(),
                fee_rate: DEFAULT_FEE_RATE,
                options: BuildOptions { rbf: true, lock_time: 0 },
            }),
    {
        let wallet = MultisigWallet {
            descriptor,
            utxos: Vec::new(),
            signers: Vec::new(),
            fee_rate: DEFAULT_FEE_RATE,
            options: BuildOptions { rbf: true, lock_time: 0 },
        };
        assert(wallet@.utxos =~= Seq::empty());
        assert(wallet@.signers =~= Seq::empty());
        wallet
    }

    pub fn descriptor(&self) -> (descriptor: &Descriptor)
        requires
            self.wf(),
        ensures
            descriptor@ == self@.descriptor,
            descriptor.wf(),
    {
        &self.descriptor
    }

    /// The unspent outputs that the wallet holds.
    pub fn utxos(&self) -> (utxos: &Vec<Utxo>)
        ensures
            utxo_views(utxos@) == self@.utxos,
    {
        &self.utxos
    }

    /// The number of signers.
    pub fn signer_count(&self) -> (n: usize)
        ensures
            n == self@.signers.len(),
    {
        self.signers.len()
    }

    /// The public key of signer `index`.
    pub fn signer_public_key(&self, index: usize) -> (key: &Vec<u8>)
        requires
            index < self@.signers.len(),
        ensures
            key@ == self@.signers[index as int].public_key,
    {
        self.signers[index].public_key()
    }

    /// Sets the fee rate, in satoshis per virtual byte.
    pub fn set_fee_rate(&mut self, fee_rate: u64)
        requires
            old(self).wf(),
        ensures
            final(self).wf(),
            final(self)@ == (WalletView { fee_rate, ..old(self)@ }),
    {
        self.fee_rate = fee_rate;
    }

    /// Sets what the builder may be told: replaceability and lock time.
    pub fn set_options(&mut self, options: BuildOptions)
        requires
            old(self).wf(),
        ensures
            final(self).wf(),
            final(self)@ == (WalletView { options, ..old(self)@ }),
    {
        self.options = options;
    }

    /// Takes the list of unspent outputs that the chain reports, where it is
    /// one for this wallet; keeps the list it has otherwise.
    pub fn sync(&mut self, listed: Vec<Utxo>) -> (accepted: bool)
        requires
            old(self).wf(),
        ensures
            final(self).wf(),
            accepted == is_utxo_set(utxo_views(listed@), script_pubkey_of(old(self)@.descriptor)),
            final(self)@ == if accepted {
                WalletView { utxos: utxo_views(listed@), ..old(self)@ }
            } else {
                old(self)@
            },
    {
        if check_utxo_set(&listed, self.descriptor.script_pubkey().as_slice()) {
            self.utxos = listed;
            true
        } else {
            false
        }
    }

    /// Adds a signer, unless one with its public key is there already.
    pub fn add_signer(&mut self, signer: Signer)
        requires
            old(self).wf(),
            signer.wf(),
        ensures
            final(self).wf(),
            final(self)@ == if has_signer(old(self)@.signers, signer@.public_key) {
                old(self)@
            } else {
                WalletView { signers: old(self)@.signers.push(signer@), ..old(self)@ }
            },
    {
        let ghost before = self@.signers;
        let mut k: usize = 0;
        while k < self.signers.len()
            invariant
                k <= self.signers@.len(),
                self@ == old(self)@,
                self.wf(),
                before == self@.signers,
                forall|j: int| 0 <= j < k ==> (#[trigger] before[j]).public_key != signer@.public_key,
            decreases self.signers@.len() - k,
        {
            if bytes_equal(
                self.signers[k].public_key().as_slice(),
                signer.public_key().as_slice(),
            ) {
                assert(before[k as int].public_key == signer@.public_key);
                signer.discard();
                return ;
            }
            k += 1;
        }
        self.signers.push(signer);
        assert(self@.signers =~= before.push(signer@));
    }

    /// Overwrites the secret of every signer with zeros and empties the
    /// registry.
    pub fn clear_signers(&mut self)
        requires
            old(self).wf(),
        ensures
            final(self).wf(),
            final(self)@ == (WalletView { signers: Seq::empty(), ..old(self)@ }),
    {
        while self.signers.len() > 0
            invariant
                self.descriptor == old(self).descriptor,
                self.utxos == old(self).utxos,
                self.fee_rate == old(self).fee_rate,
                self.options == old(self).options,
            decreases self.signers@.len(),
        {
            match self.signers.pop() {
                Some(signer) => {
                    signer.discard();
                },
                None => {},
            }
        }
        assert(self@.signers =~= Seq::empty());
    }

    /// Builds the PST that sends `amount` satoshis to `recipient_address`, at
    /// the fee rate and with the options of the wallet.
    pub fn build_transaction(&self, recipient_address: &str, amount: u64) -> (r: Result<Pst, Error>)
        requires
            self.wf(),
        ensures
            match build_outcome(
                self@.descriptor,
                self@.utxos,
                recipient_address@,
                amount,
                self@.fee_rate,
                self@.options,
            ) {
                Ok(pst) => r is Ok && r->Ok_0@ == pst && r->Ok_0.wf(),
                Err(e) => r is Err && r->Err_0 == e,
            },
            r is Ok ==> forall|i: int|
                0 <= i < r->Ok_0@.inputs.len() ==> #[trigger] crate::pst::input_is_bound(
                    r->Ok_0@,
                    i,
                ),
            r is Ok && self@.options.rbf ==> forall|i: int|
                0 <= i < r->Ok_0@.tx.inputs.len() ==> (#[trigger] r->Ok_0@.tx.inputs[i]).sequence
                    < 0xffff_fffe,
    {
        build(
            &self.descriptor,
            &self.utxos,
            recipient_address,
            amount,
            self.fee_rate,
            &self.options,
        )
    }

    /// Signs `pst` with every signer of the wallet, in the order in which
    /// they were added.
    pub fn sign_transaction(&self, pst: &mut Pst) -> (r: Result<(), Error>)
        requires
            self.wf(),
            old(pst).wf(),
        ensures
            final(pst).wf(),
            if self@.signers.len() > 0 && sign_result(old(pst)@) is Err {
                r is Err && r->Err_0 == Error::Sign(sign_result(old(pst)@)->Err_0)
            } else {
                r is Ok && final(pst)@ == signed_by_all(
                    old(pst)@,
                    self@.signers,
                    self@.signers.len() as int,
                )
            },
    {
        let ghost start = pst@;
        let mut k: usize = 0;
        while k < self.signers.len()
            invariant
                k <= self.signers@.len(),
                self.wf(),
                pst.wf(),
                start == old(pst)@,
                pst@ == signed_by_all(start, self@.signers, k as int),
                sign_result(pst@) == sign_result(start),
                k > 0 ==> sign_result(start) is Ok,
            decreases self.signers@.len() - k,
        {
            let ghost before = pst@;
            proof {
                lemma_sign_idempotent(before, self@.signers[k as int]);
            }
            match sign(pst, &self.signers[k]) {
                Err(e) => {
                    return Err(Error::Sign(e));
                },
                Ok(()) => {},
            }
            k += 1;
        }
        Ok(())
    }

    /// Builds the transaction that sends `amount` satoshis to
    /// `recipient_address`, signs it with every signer of the wallet and
    /// finalizes it. The wallet is left as it is.
    pub fn create_and_sign_transaction(&mut self, recipient_address: &str, amount: u64) -> (r:
        Result<SignedTransaction, Error>)
        requires
            old(self).wf(),
        ensures
            final(self).wf(),
            final(self)@ == old(self)@,
            match create_and_sign_outcome(old(self)@, recipient_address@, amount) {
                TransactionOutcome::Signed { tx } => r is Ok && r->Ok_0.raw_tx@ == transaction_bytes(
                    tx,
                ) && r->Ok_0.txid@ == sha256d(transaction_bytes(tx)),
                TransactionOutcome::Incomplete { short_inputs } => r matches Err(
                    Error::Incomplete { short_inputs: short },
                ) && as_positions(short@) == short_inputs,
                TransactionOutcome::Failed { error } => r is Err && r->Err_0 == error,
            },
            !(r matches Err(Error::Sign(_))),
    {
        let mut pst = match self.build_transaction(recipient_address, amount) {
            Err(e) => {
                return Err(e);
            },
            Ok(pst) => pst,
        };
        proof {
            crate::signing::lemma_bound_inputs_sign(pst@);
        }
        match self.sign_transaction(&mut pst) {
            Err(e) => {
                return Err(e);
            },
            Ok(()) => {},
        }
        match finalize(&pst) {
            Finalization::Final { raw_tx, txid } => Ok(SignedTransaction { raw_tx, txid }),
            Finalization::Incomplete { short_inputs } => Err(Error::Incomplete { short_inputs }),
            Finalization::Invalid => Err(Error::Invalid),
        }
    }
}

} // verus!
