//! Spending from a legacy P2SH `m`-of-`n` multi-signature script.
//!
//! A descriptor yields the redeem script and the address; coin selection and
//! the builder produce a partially signed transaction; signers add their
//! signatures in any order; the finalizer assembles the script signatures once
//! every input has reached the threshold.

pub mod broadcast;
pub mod builder;
pub mod coin_selection;
pub mod crypto;
pub mod descriptor;
pub mod descriptor_text;
pub mod encoding;
pub mod error;
pub mod finalizer;
pub mod lifecycle;
pub mod multisig;
pub mod network;
pub mod pst;
pub mod script;
pub mod signer;
pub mod signing;
pub mod transaction;
pub mod transaction_parse;
pub mod utxo;
pub mod wire;

pub use broadcast::{next_step, NetworkError, NextStep, SendResult};
pub use builder::{build, BuildOptions};
pub use coin_selection::{select_coins, Selection};
pub use descriptor::Descriptor;
pub use error::{BuildError, Error, InsufficientFunds, ParseError, SignError};
pub use finalizer::{finalize, Finalization};
pub use multisig::{MultisigWallet, SignedTransaction};
pub use network::{AddressKind, Network};
pub use pst::{Pst, PstInput};
pub use signer::Signer;
pub use signing::sign;
pub use transaction::{OutPoint, Transaction, TxIn, TxOut};
pub use utxo::Utxo;
