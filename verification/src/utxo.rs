//! Unspent outputs as the chain reports them, and what the wallet asks of a
//! list of them before it spends from it.

use vstd::prelude::*;
use crate::encoding::{bytes_equal, bytes_less, is_bytes_less};
use crate::transaction::{
    transaction_id,
    OutPoint,
    OutPointView,
    Transaction,
    TransactionView,
    TXID_LEN,
};

verus! {

/// An unspent output with the transaction that made it.
#[derive(Debug)]
pub struct Utxo {
    pub outpoint: OutPoint,
    /// The value in satoshis.
    pub value: u64,
    pub script_pubkey: Vec<u8>,
    /// The height of the block that confirmed it; `None` while it is in the
    /// mempool.
    pub height: Option<u32>,
    pub funding_tx: Transaction,
}

pub struct UtxoView {
    pub outpoint: OutPointView,
    pub value: u64,
    pub script_pubkey: Seq<u8>,
    pub height: Option<u32>,
    pub funding_tx: TransactionView,
}

impl View for Utxo {
    type V = UtxoView;

    open spec fn view(&self) -> UtxoView {
        UtxoView {
            outpoint: self.outpoint@,
            value: self.value,
            script_pubkey: self.script_pubkey@,
            height: self.height,
            funding_tx: self.funding_tx@,
        }
    }
}

/// The views of a list of unspent outputs.
pub open spec fn utxo_views(utxos: Seq<Utxo>) -> Seq<UtxoView> {
    utxos.map_values(|utxo: Utxo| utxo@)
}

/// The values of a list of unspent outputs.
pub open spec fn utxo_values(utxos: Seq<UtxoView>) -> Seq<u64> {
    utxos.map_values(|utxo: UtxoView| utxo.value)
}

/// Whether the record agrees with its funding transaction: the transaction
/// has the id of the outpoint, and its output at that place has the value and
/// the script of the record.
pub open spec fn utxo_consistent(utxo: UtxoView) -> bool {
    let vout = utxo.outpoint.vout as int;
    &&& utxo.outpoint.txid.len() == TXID_LEN
    &&& transaction_id(utxo.funding_tx) == utxo.outpoint.txid
    &&& vout < utxo.funding_tx.outputs.len()
    &&& utxo.funding_tx.outputs[vout].value == utxo.value
    &&& utxo.funding_tx.outputs[vout].script_pubkey == utxo.script_pubkey
}

/// Confirmed outputs come by height; those in the mempool come last.
pub open spec fn height_rank(height: Option<u32>) -> int {
    match height {
        Some(h) => h as int,
        None => 0x1_0000_0000,
    }
}

/// The order in which the chain lists unspent outputs: by height, then by
/// transaction id, then by output index.
pub open spec fn utxo_precedes(a: UtxoView, b: UtxoView) -> bool {
    ||| height_rank(a.height) < height_rank(b.height)
    ||| height_rank(a.height) == height_rank(b.height) && bytes_less(a.outpoint.txid, b.outpoint.txid)
    ||| height_rank(a.height) == height_rank(b.height) && a.outpoint.txid == b.outpoint.txid
        && a.outpoint.vout < b.outpoint.vout
}

/// Whether `utxos` is a list of outputs that pay to `script_pubkey`, each
/// consistent with its funding transaction, in the order of the chain and
/// none twice.
pub open spec fn is_utxo_set(utxos: Seq<UtxoView>, script_pubkey: Seq<u8>) -> bool {
    &&& forall|i: int|
        0 <= i < utxos.len() ==> utxo_consistent(#[trigger] utxos[i]) && utxos[i].script_pubkey
            == script_pubkey
    &&& forall|i: int| 0 <= i < utxos.len() - 1 ==> utxo_precedes(#[trigger] utxos[i], utxos[i + 1])
}

impl Utxo {
    /// Whether the record agrees with its funding transaction.
    pub fn is_consistent(&self) -> (ok: bool)
        ensures
            ok == utxo_consistent(self@),
    {
        if self.outpoint.txid.len() != TXID_LEN {
            return false;
        }
        let txid = self.funding_tx.txid();
        if !bytes_equal(txid.as_slice(), self.outpoint.txid.as_slice()) {
            return false;
        }
        let vout = self.outpoint.vout as usize;
        if vout >= self.funding_tx.outputs.len() {
            return false;
        }
        assert(self.funding_tx@.outputs[vout as int] == self.funding_tx.outputs@[vout as int]@);
        let output = &self.funding_tx.outputs[vout];
        output.value == self.value && bytes_equal(
            output.script_pubkey.as_slice(),
            self.script_pubkey.as_slice(),
        )
    }

    /// Whether this output is listed before `other`.
    pub fn precedes(&self, other: &Utxo) -> (before: bool)
        ensures
            before == utxo_precedes(self@, other@),
    {
        let mine: u64 = match self.height {
            Some(h) => h as u64,
            None => 0x1_0000_0000,
        };
        let theirs: u64 = match other.height {
            Some(h) => h as u64,
            None => 0x1_0000_0000,
        };
        if mine != theirs {
            return mine < theirs;
        }
        if is_bytes_less(self.outpoint.txid.as_slice(), other.outpoint.txid.as_slice()) {
            return true;
        }
        bytes_equal(self.outpoint.txid.as_slice(), other.outpoint.txid.as_slice())
            && self.outpoint.vout < other.outpoint.vout
    }
}

/// Whether `utxos` is a list that a wallet for `script_pubkey` may hold.
pub fn check_utxo_set(utxos: &Vec<Utxo>, script_pubkey: &[u8]) -> (ok: bool)
    ensures
        ok == is_utxo_set(utxo_views(utxos@), script_pubkey@),
{
    let ghost views = utxo_views(utxos@);
    let mut i: usize = 0;
    while i < utxos.len()
        invariant
            i <= utxos@.len(),
            views == utxo_views(utxos@),
            forall|k: int|
                0 <= k < i ==> utxo_consistent(#[trigger] views[k]) && views[k].script_pubkey
                    == script_pubkey@,
            forall|k: int| 0 <= k < i - 1 ==> utxo_precedes(#[trigger] views[k], views[k + 1]),
        decreases utxos@.len() - i,
    {
        let utxo = &utxos[i];
        if !utxo.is_consistent() || !bytes_equal(utxo.script_pubkey.as_slice(), script_pubkey) {
            assert(!(utxo_consistent(views[i as int]) && views[i as int].script_pubkey
                == script_pubkey@));
            return false;
        }
        if i > 0 && !utxos[i - 1].precedes(utxo) {
            assert(!utxo_precedes(views[i - 1], views[i - 1 + 1]));
            return false;
        }
        i += 1;
    }
    true
}

/// The values of the outputs, in their order.
pub fn values_of(utxos: &Vec<Utxo>) -> (values: Vec<u64>)
    ensures
        values@ == utxo_values(utxo_views(utxos@)),
{
    let mut values: Vec<u64> = Vec::new();
    let mut i: usize = 0;
    while i < utxos.len()
        invariant
            i <= utxos@.len(),
            values@.len() == i,
            forall|k: int| 0 <= k < i ==> values@[k] == (#[trigger] utxos@[k]).value,
        decreases utxos@.len() - i,
    {
        values.push(utxos[i].value);
        i += 1;
    }
    assert(values@ =~= utxo_values(utxo_views(utxos@)));
    values
}

} // verus!
