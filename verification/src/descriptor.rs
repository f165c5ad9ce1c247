//! A multi-signature descriptor: the policy, the redeem script and the P2SH
//! address that follow from it.

use vstd::prelude::*;
use vstd::string::*;
use crate::crypto::{
    base58check,
    compute_descriptor_checksum,
    compute_hash160,
    curve_point,
    descriptor_checksum,
    encode_base58check,
    hash160,
    is_curve_point,
};
use crate::descriptor_text::{
    descriptor_body,
    lemma_parse_of_text,
    lemma_parse_text_canonical,
    parse_descriptor_text,
    parse_text,
    write_descriptor_body,
    CHAR_HASH,
    CHECKSUM_LEN,
};
use crate::encoding::{
    ascii_bytes,
    ascii_string,
    ascii_text,
    byte_strings,
    is_ascii_bytes,
    lemma_ascii_bytes_of_text,
    lemma_ascii_text_of_bytes,
    push_bytes,
};
use crate::error::ParseError;
use crate::network::{p2sh_prefix, Network};
use crate::script::{
    build_multisig_script,
    build_p2sh_script,
    is_policy,
    multisig_script,
    p2sh_script,
};

verus! {

/// An `m`-of-`n` policy on a network, with the checksum of its text.
#[derive(Debug)]
pub struct Descriptor {
    threshold: u8,
    keys: Vec<Vec<u8>>,
    network: Network,
    checksum: String,
    redeem_script: Vec<u8>,
    script_hash: Vec<u8>,
    script_pubkey: Vec<u8>,
    address: String,
}

/// What defines a descriptor; the scripts and the address follow from it.
pub struct DescriptorView {
    pub threshold: nat,
    /// The keys in the order of the text, which is the order of the redeem
    /// script and of the signatures that satisfy it.
    pub keys: Seq<Seq<u8>>,
    pub network: Network,
    pub checksum: Seq<char>,
}

/// The redeem script, `OP_m <K1> ... <Kn> OP_n OP_CHECKMULTISIG`.
pub open spec fn redeem_script_of(d: DescriptorView) -> Seq<u8> {
    multisig_script(d.threshold, d.keys)
}

/// HASH160 of the redeem script.
pub open spec fn script_hash_of(d: DescriptorView) -> Seq<u8> {
    hash160(redeem_script_of(d))
}

/// The output script that pays to the descriptor.
pub open spec fn script_pubkey_of(d: DescriptorView) -> Seq<u8> {
    p2sh_script(script_hash_of(d))
}

/// The address: Base58Check of the network's prefix and the script hash.
pub open spec fn address_of(d: DescriptorView) -> Seq<char> {
    base58check(seq![p2sh_prefix(d.network)] + script_hash_of(d))
}

/// The text of the descriptor without its checksum part.
pub open spec fn body_chars(d: DescriptorView) -> Seq<char> {
    ascii_text(descriptor_body(d.threshold, d.keys))
}

/// The text of the descriptor.
pub open spec fn descriptor_chars(d: DescriptorView) -> Seq<char> {
    body_chars(d) + seq!['#'] + d.checksum
}

/// Whether `d` is a descriptor: a policy of points on the curve, with the
/// checksum of its own text.
pub open spec fn is_descriptor(d: DescriptorView) -> bool {
    &&& is_policy(d.threshold, d.keys)
    &&& forall|i: int| 0 <= i < d.keys.len() ==> curve_point(#[trigger] d.keys[i])
    &&& d.checksum.len() == CHECKSUM_LEN
    &&& vstd::utf8::is_ascii_chars(d.checksum)
    &&& descriptor_checksum(body_chars(d)) == Some(d.checksum)
}

/// What a descriptor text means on `network`, or why it is refused. The
/// grammar is checked first, then the keys, then the checksum.
pub open spec fn parse_descriptor(text: Seq<char>, network: Network) -> Result<
    DescriptorView,
    ParseError,
> {
    if !vstd::utf8::is_ascii_chars(text) {
        Err(ParseError::Malformed)
    } else {
        match parse_text(ascii_bytes(text)) {
            Err(e) => Err(e),
            Ok(policy) => if !(forall|i: int|
                0 <= i < policy.keys.len() ==> curve_point(#[trigger] policy.keys[i])) {
                Err(ParseError::InvalidKey)
            } else if descriptor_checksum(text.take(text.len() - 9)) != Some(
                text.skip(text.len() - 8),
            ) {
                Err(ParseError::BadChecksum)
            } else {
                Ok(
                    DescriptorView {
                        threshold: policy.threshold,
                        keys: policy.keys,
                        network,
                        checksum: text.skip(text.len() - 8),
                    },
                )
            },
        }
    }
}

/// Every byte of a descriptor body is ASCII.
pub proof fn lemma_body_is_ascii(threshold: nat, keys: Seq<Seq<u8>>)
    requires
        1 <= threshold <= 16,
        forall|i: int| 0 <= i < keys.len() ==> (#[trigger] keys[i]).len() == 33,
    ensures
        is_ascii_bytes(descriptor_body(threshold, keys)),
{
    reveal(crate::descriptor_text::keys_text);
    let body = descriptor_body(threshold, keys);
    let text = crate::descriptor_text::keys_text(keys);
    assert forall|i: int| 0 <= i < text.len() implies #[trigger] text[i] < 128 by {
        if i % 67 != 0 {
            let key = keys[i / 67];
            let j = i % 67 - 1;
            let b = key[j / 2];
            assert(b / 16 < 16 && b % 16 < 16);
        }
    }
    assert forall|i: int| 0 <= i < body.len() implies #[trigger] body[i] < 128 by {
        let open = crate::descriptor_text::wrapper_open();
        let digits = crate::descriptor_text::threshold_text(threshold);
        if i < 9 {
            assert(body[i] == open[i]);
        } else if i < 9 + digits.len() {
            assert(body[i] == digits[i - 9]);
        } else if i < 9 + digits.len() + text.len() {
            assert(body[i] == text[i - 9 - digits.len()]);
        } else {
        }
    }
}

/// **Round trip.** A text that is accepted is the text of the descriptor it
/// gives, so writing that descriptor and reading it again gives the same
/// descriptor; and the descriptor has the form that `Descriptor` keeps.
pub proof fn lemma_descriptor_round_trip(text: Seq<char>, network: Network)
    requires
        parse_descriptor(text, network) is Ok,
    ensures
        is_descriptor(parse_descriptor(text, network).unwrap()),
        descriptor_chars(parse_descriptor(text, network).unwrap()) == text,
        parse_descriptor(descriptor_chars(parse_descriptor(text, network).unwrap()), network)
            == parse_descriptor(text, network),
{
    let d = parse_descriptor(text, network).unwrap();
    let bytes = ascii_bytes(text);
    let n = text.len() as int;
    lemma_parse_text_canonical(bytes);
    lemma_ascii_text_of_bytes(text);
    let body = descriptor_body(d.threshold, d.keys);
    assert(bytes.take(n - 9) == body);
    assert(text.take(n - 9) =~= ascii_text(body)) by {
        assert forall|i: int| 0 <= i < n - 9 implies text.take(n - 9)[i] == ascii_text(body)[i] by {
            assert(body[i] == bytes.take(n - 9)[i]);
            assert(ascii_text(bytes)[i] == text[i]);
        }
    }
    assert(text[n - 9] == '#') by {
        assert(bytes[n - 9] == CHAR_HASH);
        assert(ascii_text(bytes)[n - 9] == text[n - 9]);
    }
    assert(d.checksum == text.skip(n - 8));
    assert(descriptor_chars(d) =~= text);
}

/// **Round trip, from the descriptor.** The text of a descriptor is accepted
/// and gives the descriptor back.
pub proof fn lemma_descriptor_text_parses(d: DescriptorView)
    requires
        is_descriptor(d),
    ensures
        parse_descriptor(descriptor_chars(d), d.network) == Ok::<DescriptorView, ParseError>(d),
{
    let text = descriptor_chars(d);
    let body = descriptor_body(d.threshold, d.keys);
    let sum = ascii_bytes(d.checksum);
    let n = text.len() as int;
    lemma_body_is_ascii(d.threshold, d.keys);
    lemma_ascii_bytes_of_text(body);
    lemma_ascii_text_of_bytes(d.checksum);
    assert(vstd::utf8::is_ascii_chars(text)) by {
        assert forall|i: int| 0 <= i < text.len() implies '\0' <= #[trigger] text[i]
            <= '\u{7f}' by {
            if i < body.len() {
                assert(text[i] == ascii_text(body)[i]);
            } else if i == body.len() {
            } else {
                assert(text[i] == d.checksum[i - body.len() - 1]);
            }
        }
    }
    assert(ascii_bytes(text) =~= crate::descriptor_text::descriptor_text(d.threshold, d.keys, sum))
        by {
        let target = crate::descriptor_text::descriptor_text(d.threshold, d.keys, sum);
        assert(target.len() == text.len());
        assert forall|i: int| 0 <= i < text.len() implies ascii_bytes(text)[i] == target[i] by {
            if i < body.len() {
                assert(text[i] == ascii_text(body)[i]);
                assert(ascii_bytes(ascii_text(body))[i] == body[i]);
            } else if i == body.len() {
            } else {
                assert(text[i] == d.checksum[i - body.len() - 1]);
            }
        }
    }
    lemma_parse_of_text(d.threshold, d.keys, sum);
    assert(text.take(n - 9) =~= body_chars(d));
    assert(text.skip(n - 8) =~= d.checksum);
}

impl View for Descriptor {
    type V = DescriptorView;

    closed spec fn view(&self) -> DescriptorView {
        DescriptorView {
            threshold: self.threshold as nat,
            keys: byte_strings(self.keys@),
            network: self.network,
            checksum: self.checksum@,
        }
    }
}

/// A descriptor that is well formed is a descriptor.
pub proof fn lemma_descriptor_is_policy(descriptor: &Descriptor)
    requires
        descriptor.wf(),
    ensures
        is_descriptor(descriptor@),
        is_policy(descriptor@.threshold, descriptor@.keys),
{
}

impl Descriptor {
    /// Whether the descriptor is one, and holds the scripts and the address
    /// that follow from it.
    pub closed spec fn wf(&self) -> bool {
        &&& is_descriptor(self@)
        &&& self.redeem_script@ == redeem_script_of(self@)
        &&& self.script_hash@ == script_hash_of(self@)
        &&& self.script_hash@.len() == 20
        &&& self.script_pubkey@ == script_pubkey_of(self@)
        &&& self.address@ == address_of(self@)
    }

    /// Reads a descriptor of the form `sh(multi(m,K1,...,Kn))#checksum`.
    pub fn parse(text: &str, network: Network) -> (r: Result<Descriptor, ParseError>)
        ensures
            match parse_descriptor(text@, network) {
                Ok(d) => r is Ok && r.unwrap()@ == d && r.unwrap().wf(),
                Err(e) => r is Err && r.unwrap_err() == e,
            },
    {
        if !text.is_ascii() {
            return Err(ParseError::Malformed);
        }
        let bytes = text.as_bytes();
        proof {
            is_ascii_spec_bytes(text);
            assert(bytes@ =~= ascii_bytes(text@));
        }
        let parsed = match parse_descriptor_text(bytes) {
            Err(e) => {
                return Err(e);
            },
            Ok(p) => p,
        };
        proof {
            lemma_parse_text_canonical(bytes@);
        }
        let mut i: usize = 0;
        while i < parsed.keys.len()
            invariant
                i <= parsed.keys@.len(),
                vstd::utf8::is_ascii_chars(text@),
                parse_text(ascii_bytes(text@)) is Ok,
                parse_text(ascii_bytes(text@)).unwrap() == parsed@,
                forall|j: int| 0 <= j < i ==> curve_point(#[trigger] byte_strings(parsed.keys@)[j]),
            decreases parsed.keys@.len() - i,
        {
            if !is_curve_point(parsed.keys[i].as_slice()) {
                proof {
                    let policy = parse_text(ascii_bytes(text@)).unwrap();
                    assert(policy.keys == byte_strings(parsed.keys@));
                    assert(!curve_point(policy.keys[i as int]));
                }
                return Err(ParseError::InvalidKey);
            }
            i += 1;
        }
        let n = bytes.len();
        let body = text.substring_ascii(0, n - 9);
        let declared = String::from_str(text.substring_ascii(n - 8, n));
        assert(body@ =~= text@.take(text@.len() - 9));
        assert(declared@ =~= text@.skip(text@.len() - 8));
        let checksum = match compute_descriptor_checksum(body) {
            None => {
                return Err(ParseError::BadChecksum);
            },
            Some(sum) => sum,
        };
        if !(checksum == declared) {
            return Err(ParseError::BadChecksum);
        }
        assert forall|k: int| 0 <= k < parsed.keys@.len() implies (#[trigger] parsed.keys@[k])@.len()
            == 33 by {
            assert(crate::script::is_compressed_key(byte_strings(parsed.keys@)[k]));
        }
        let redeem_script = build_multisig_script(parsed.threshold, &parsed.keys);
        let script_hash = compute_hash160(redeem_script.as_slice());
        let script_pubkey = build_p2sh_script(script_hash.as_slice());
        let mut payload: Vec<u8> = Vec::new();
        payload.push(network.p2sh_prefix());
        push_bytes(&mut payload, script_hash.as_slice());
        assert(payload@ =~= seq![p2sh_prefix(network)] + script_hash@);
        let address = encode_base58check(payload.as_slice());
        let descriptor = Descriptor {
            threshold: parsed.threshold,
            keys: parsed.keys,
            network,
            checksum,
            redeem_script,
            script_hash,
            script_pubkey,
            address,
        };
        proof {
            lemma_descriptor_round_trip(text@, network);
        }
        Ok(descriptor)
    }

    /// The text of the descriptor, checksum included.
    pub fn to_text(&self) -> (text: String)
        requires
            self.wf(),
        ensures
            text@ == descriptor_chars(self@),
    {
        assert forall|k: int| 0 <= k < self.keys@.len() implies (#[trigger] self.keys@[k])@.len()
            == 33 by {
            assert(crate::script::is_compressed_key(byte_strings(self.keys@)[k]));
        }
        let mut bytes = write_descriptor_body(self.threshold, &self.keys);
        let ghost body = bytes@;
        bytes.push(CHAR_HASH);
        let sum = self.checksum.as_str();
        proof {
            is_ascii_spec_bytes(sum);
            lemma_body_is_ascii(self@.threshold, self@.keys);
            lemma_ascii_text_of_bytes(self.checksum@);
        }
        push_bytes(&mut bytes, sum.as_bytes());
        assert(bytes@ =~= body + seq![CHAR_HASH] + ascii_bytes(self.checksum@));
        assert(is_ascii_bytes(bytes@));
        let text = ascii_string(bytes);
        assert(text@ =~= descriptor_chars(self@)) by {
            assert forall|i: int| 0 <= i < text@.len() implies text@[i] == descriptor_chars(
                self@,
            )[i] by {
                if i > body.len() {
                    assert(ascii_text(ascii_bytes(self.checksum@))[i - body.len() - 1]
                        == self.checksum@[i - body.len() - 1]);
                }
            }
        }
        text
    }

    /// The number of signatures that spending takes.
    pub fn threshold(&self) -> (m: u8)
        ensures
            m == self@.threshold,
    {
        self.threshold
    }

    /// The public keys, in the order of the redeem script.
    pub fn keys(&self) -> (keys: &Vec<Vec<u8>>)
        ensures
            byte_strings(keys@) == self@.keys,
    {
        &self.keys
    }

    pub fn network(&self) -> (network: Network)
        ensures
            network == self@.network,
    {
        self.network
    }

    /// The eight characters after the `#`.
    pub fn checksum(&self) -> (sum: &String)
        ensures
            sum@ == self@.checksum,
    {
        &self.checksum
    }

    /// The redeem script.
    pub fn redeem_script(&self) -> (script: &Vec<u8>)
        requires
            self.wf(),
        ensures
            script@ == redeem_script_of(self@),
    {
        &self.redeem_script
    }

    /// HASH160 of the redeem script: 20 bytes.
    pub fn script_hash(&self) -> (hash: &Vec<u8>)
        requires
            self.wf(),
        ensures
            hash@ == script_hash_of(self@),
            hash@.len() == 20,
    {
        &self.script_hash
    }

    /// The output script of the address.
    pub fn script_pubkey(&self) -> (script: &Vec<u8>)
        requires
            self.wf(),
        ensures
            script@ == script_pubkey_of(self@),
    {
        &self.script_pubkey
    }

    /// The P2SH address.
    pub fn address(&self) -> (address: &String)
        requires
            self.wf(),
        ensures
            address@ == address_of(self@),
    {
        &self.address
    }
}

} // verus!
