//! A signer: a secret scalar with the compressed public key that follows from
//! it.

use vstd::prelude::*;
use crate::crypto::{decode_wif, derive_public_key, public_key_of, wif_decoding};
use crate::encoding::copy_bytes;
use crate::error::ParseError;
use crate::network::Network;

verus! {

/// A private key for one network. The key is held in memory only; it is not
/// printed and appears in no error.
pub struct Signer {
    secret: Vec<u8>,
    network: Network,
    public_key: Vec<u8>,
}

pub struct SignerView {
    pub secret: Seq<u8>,
    pub network: Network,
    pub public_key: Seq<u8>,
}

/// Whether the public key is the one of the secret.
pub open spec fn is_signer(signer: SignerView) -> bool {
    public_key_of(signer.secret) == Some(signer.public_key)
}

/// Whether a key in wallet import format for `key_network` may sign on
/// `network`: the format knows mainnet and one prefix for all test networks.
pub open spec fn wif_fits_network(key_network: Network, network: Network) -> bool {
    (key_network == Network::Bitcoin) == (network == Network::Bitcoin)
}

/// The signer that a key in wallet import format gives on `network`.
pub open spec fn signer_from_wif(text: Seq<char>, network: Network) -> Result<SignerView, ParseError> {
    match wif_decoding(text) {
        None => Err(ParseError::BadWif),
        Some((key_network, compressed, secret)) => if !wif_fits_network(key_network, network) {
            Err(ParseError::WrongKeyNetwork)
        } else {
            match public_key_of(secret) {
                None => Err(ParseError::BadWif),
                Some(public_key) => Ok(SignerView { secret, network, public_key }),
            }
        },
    }
}

/// The secret of a decoded key in wallet import format, where the key is one
/// for `network`.
pub fn check_decoded_wif(
    decoded: Option<(Network, bool, Vec<u8>)>,
    network: Network,
) -> (r: Result<Vec<u8>, ParseError>)
    ensures
        match decoded {
            None => r == Err::<Vec<u8>, ParseError>(ParseError::BadWif),
            Some((key_network, _, secret)) => if wif_fits_network(key_network, network) {
                r == Ok::<Vec<u8>, ParseError>(secret)
            } else {
                r == Err::<Vec<u8>, ParseError>(ParseError::WrongKeyNetwork)
            },
        },
{
    match decoded {
        None => Err(ParseError::BadWif),
        Some((key_network, _, secret)) => {
            let key_main = match key_network {
                Network::Bitcoin => true,
                _ => false,
            };
            let main = match network {
                Network::Bitcoin => true,
                _ => false,
            };
            if key_main == main {
                Ok(secret)
            } else {
                Err(ParseError::WrongKeyNetwork)
            }
        },
    }
}

impl View for Signer {
    type V = SignerView;

    closed spec fn view(&self) -> SignerView {
        SignerView { secret: self.secret@, network: self.network, public_key: self.public_key@ }
    }
}

impl Signer {
    pub open spec fn wf(&self) -> bool {
        is_signer(self@)
    }

    /// The signer of a secret scalar; `None` where the scalar is not valid.
    pub fn from_secret(secret: &[u8], network: Network) -> (r: Option<Signer>)
        ensures
            match public_key_of(secret@) {
                Some(public_key) => r is Some && r.unwrap().wf() && r.unwrap()@ == (SignerView {
                    secret: secret@,
                    network,
                    public_key,
                }),
                None => r is None,
            },
    {
        match derive_public_key(secret) {
            None => None,
            Some(public_key) => Some(Signer { secret: copy_bytes(secret), network, public_key }),
        }
    }

    /// The signer of a private key in wallet import format. The checksum and
    /// the version byte are checked by the decoder; a key for mainnet is
    /// refused on a test network, and the other way round.
    pub fn from_wif(text: &str, network: Network) -> (r: Result<Signer, ParseError>)
        ensures
            match signer_from_wif(text@, network) {
                Ok(signer) => r is Ok && r.unwrap().wf() && r.unwrap()@ == signer,
                Err(e) => r is Err && r->Err_0 == e,
            },
    {
        let secret = match check_decoded_wif(decode_wif(text), network) {
            Err(e) => {
                return Err(e);
            },
            Ok(secret) => secret,
        };
        match Signer::from_secret(secret.as_slice(), network) {
            None => Err(ParseError::BadWif),
            Some(signer) => Ok(signer),
        }
    }

    /// The compressed public key: 33 bytes.
    pub fn public_key(&self) -> (key: &Vec<u8>)
        ensures
            key@ == self@.public_key,
    {
        &self.public_key
    }

    pub fn network(&self) -> (network: Network)
        ensures
            network == self@.network,
    {
        self.network
    }

    /// The secret scalar, for the signing engine alone.
    pub(crate) fn secret(&self) -> (secret: &Vec<u8>)
        ensures
            secret@ == self@.secret,
    {
        &self.secret
    }

    /// Overwrites the secret with zeros and gives the signer up.
    pub fn discard(self) {
        let mut signer = self;
        let mut i: usize = 0;
        while i < signer.secret.len()
            invariant
                i <= signer.secret@.len(),
            decreases signer.secret@.len() - i,
        {
            signer.secret[i] = 0;
            i += 1;
        }
    }
}

} // verus!
