//! The networks a wallet can live on, and their address prefixes.

use vstd::prelude::*;

verus! {

/// A Bitcoin network.
#[derive(Clone, Copy, Debug, PartialEq, Eq, Structural)]
pub enum Network {
    Bitcoin,
    Testnet,
    Signet,
    Regtest,
}

/// The script form behind an address.
#[derive(Clone, Copy, Debug, PartialEq, Eq, Structural)]
pub enum AddressKind {
    PubkeyHash,
    ScriptHash,
    WitnessProgram,
}

/// The version byte of a P2SH address: 0x05 on mainnet, 0xc4 on the test networks.
pub open spec fn p2sh_prefix(network: Network) -> u8 {
    match network {
        Network::Bitcoin => 0x05,
        _ => 0xc4,
    }
}

/// Whether an address that decodes to `address_network` and `kind` may be paid
/// from a wallet on `wallet_network`.
///
/// Base58 addresses of the three test networks share their prefixes, and decode
/// as testnet; so do the segwit addresses of testnet and signet. A regtest segwit
/// address belongs to regtest alone. Mainnet never mixes with the others.
pub open spec fn address_fits_network(
    address_network: Network,
    kind: AddressKind,
    wallet_network: Network,
) -> bool {
    if address_network == wallet_network {
        true
    } else if address_network == Network::Bitcoin || wallet_network == Network::Bitcoin {
        false
    } else if (address_network == Network::Regtest || wallet_network == Network::Regtest) && kind
        == AddressKind::WitnessProgram {
        false
    } else {
        true
    }
}

impl Network {
    /// The version byte of this network's P2SH addresses.
    pub fn p2sh_prefix(&self) -> (prefix: u8)
        ensures
            prefix == p2sh_prefix(*self),
    {
        match self {
            Network::Bitcoin => 0x05,
            _ => 0xc4,
        }
    }

    /// Whether an address decoded as (`address_network`, `kind`) belongs to this network.
    pub fn accepts(&self, address_network: Network, kind: AddressKind) -> (ok: bool)
        ensures
            ok == address_fits_network(address_network, kind, *self),
    {
        if address_network == *self {
            true
        } else if address_network == Network::Bitcoin || *self == Network::Bitcoin {
            false
        } else if (address_network == Network::Regtest || *self == Network::Regtest) && kind
            == AddressKind::WitnessProgram {
            false
        } else {
            true
        }
    }
}

} // verus!
