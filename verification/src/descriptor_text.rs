//! The grammar of a multi-signature descriptor,
//! `sh(multi(<m>,<key>,...,<key>))#<checksum>`, as a function on ASCII bytes.
//!
//! The threshold is a decimal number without leading zeros, each key is 66
//! lower-case hex digits, the checksum is the last eight bytes. Nothing else is
//! accepted, white space included, so a policy has exactly one text.

use vstd::prelude::*;
use crate::encoding::{byte_strings, hex_bytes, hex_decode, hex_encode, hex_text, push_bytes};
use crate::error::ParseError;
use crate::script::{distinct_keys, is_compressed_key, is_policy, KEY_LEN, MAX_KEYS};

verus! {

pub const CHAR_HASH: u8 = 0x23;

pub const CHAR_CLOSE: u8 = 0x29;

pub const CHAR_COMMA: u8 = 0x2c;

pub const CHAR_ZERO: u8 = 0x30;

/// The length of a checksum.
pub const CHECKSUM_LEN: usize = 8;

/// The length of a key in hex, with the comma before it.
pub const KEY_FIELD_LEN: usize = 67;

/// A policy as the text of a descriptor gives it.
pub struct PolicyText {
    pub threshold: nat,
    pub keys: Seq<Seq<u8>>,
    pub checksum: Seq<u8>,
}

/// What `parse_descriptor_text` returns: the policy and the declared checksum.
#[derive(Debug)]
pub struct ParsedDescriptor {
    pub threshold: u8,
    pub keys: Vec<Vec<u8>>,
    pub checksum: Vec<u8>,
}

impl View for ParsedDescriptor {
    type V = PolicyText;

    open spec fn view(&self) -> PolicyText {
        PolicyText {
            threshold: self.threshold as nat,
            keys: byte_strings(self.keys@),
            checksum: self.checksum@,
        }
    }
}

/// `sh(multi(`
pub open spec fn wrapper_open() -> Seq<u8> {
    seq![0x73u8, 0x68u8, 0x28u8, 0x6du8, 0x75u8, 0x6cu8, 0x74u8, 0x69u8, 0x28u8]
}

/// `))`
pub open spec fn wrapper_close() -> Seq<u8> {
    seq![CHAR_CLOSE, CHAR_CLOSE]
}

pub open spec fn is_digit(c: u8) -> bool {
    0x30 <= c <= 0x39
}

/// A threshold from 1 to 16 in decimal.
pub open spec fn threshold_text(threshold: nat) -> Seq<u8> {
    if threshold < 10 {
        seq![(CHAR_ZERO + threshold) as u8]
    } else {
        seq![0x31u8, (CHAR_ZERO + threshold - 10) as u8]
    }
}

/// The keys of a policy as text: for each key a comma and its 66 hex digits.
#[verifier::opaque]
pub open spec fn keys_text(keys: Seq<Seq<u8>>) -> Seq<u8> {
    Seq::new(
        KEY_FIELD_LEN as nat * keys.len(),
        |i: int|
            if i % 67 == 0 {
                CHAR_COMMA
            } else {
                hex_text(keys[i / 67])[i % 67 - 1]
            },
    )
}

/// The descriptor without its checksum part.
pub open spec fn descriptor_body(threshold: nat, keys: Seq<Seq<u8>>) -> Seq<u8> {
    wrapper_open() + threshold_text(threshold) + keys_text(keys) + wrapper_close()
}

/// The descriptor of a policy, with the checksum given.
pub open spec fn descriptor_text(threshold: nat, keys: Seq<Seq<u8>>, checksum: Seq<u8>) -> Seq<u8> {
    descriptor_body(threshold, keys) + seq![CHAR_HASH] + checksum
}

/// The threshold at the start of `inner` and the number of digits it takes:
/// one or two digits, no leading zero, from 1 to 16.
pub open spec fn parse_threshold(inner: Seq<u8>) -> Option<(nat, int)> {
    if inner.len() == 0 || !is_digit(inner[0]) {
        None
    } else if inner.len() >= 2 && is_digit(inner[1]) {
        if inner.len() >= 3 && is_digit(inner[2]) {
            None
        } else if inner[0] == 0x31 && inner[1] <= 0x36 {
            Some(((10 + inner[1] - CHAR_ZERO) as nat, 2))
        } else {
            None
        }
    } else if inner[0] == CHAR_ZERO {
        None
    } else {
        Some(((inner[0] - CHAR_ZERO) as nat, 1))
    }
}

/// The keys from position `pos` of `inner` on, after those in `found`: the
/// first fault in reading order decides the error.
pub open spec fn parse_keys(inner: Seq<u8>, pos: int, found: Seq<Seq<u8>>) -> Result<
    Seq<Seq<u8>>,
    ParseError,
>
    decreases inner.len() - pos,
{
    if pos >= inner.len() {
        Ok(found)
    } else if pos < 0 || inner[pos] != CHAR_COMMA {
        Err(ParseError::Malformed)
    } else if found.len() >= MAX_KEYS {
        Err(ParseError::BadKeyCount)
    } else if inner.len() < pos + 67 {
        Err(ParseError::Malformed)
    } else {
        match hex_bytes(inner.subrange(pos + 1, pos + 67)) {
            None => Err(ParseError::MalformedHex),
            Some(key) => if key[0] != 0x02 && key[0] != 0x03 {
                Err(ParseError::UncompressedKey)
            } else if found.contains(key) {
                Err(ParseError::DuplicateKey)
            } else {
                parse_keys(inner, pos + 67, found.push(key))
            },
        }
    }
}

/// What a descriptor in ASCII bytes says, or why it is refused.
pub open spec fn parse_text(text: Seq<u8>) -> Result<PolicyText, ParseError> {
    let n = text.len() as int;
    if n < 9 || text[n - 9] != CHAR_HASH {
        Err(ParseError::MissingChecksum)
    } else {
        let body = text.take(n - 9);
        if body.len() < 9 || body.take(9) != wrapper_open() {
            Err(ParseError::UnsupportedWrapper)
        } else if body.len() < 11 || body.skip(body.len() - 2) != wrapper_close() {
            Err(ParseError::Malformed)
        } else {
            let inner = body.subrange(9, body.len() - 2);
            match parse_threshold(inner) {
                None => Err(ParseError::BadThreshold),
                Some((threshold, used)) => match parse_keys(inner, used, Seq::empty()) {
                    Err(e) => Err(e),
                    Ok(keys) => if keys.len() == 0 {
                        Err(ParseError::BadKeyCount)
                    } else if threshold > keys.len() {
                        Err(ParseError::BadThreshold)
                    } else {
                        Ok(PolicyText { threshold, keys, checksum: text.skip(n - 8) })
                    },
                },
            }
        }
    }
}

/// Whether `key` is among `keys`.
pub fn contains_key(keys: &Vec<Vec<u8>>, key: &[u8]) -> (found: bool)
    ensures
        found == byte_strings(keys@).contains(key@),
{
    let mut i: usize = 0;
    while i < keys.len()
        invariant
            i <= keys@.len(),
            forall|j: int| 0 <= j < i ==> byte_strings(keys@)[j] != key@,
        decreases keys@.len() - i,
    {
        if crate::encoding::bytes_equal(keys[i].as_slice(), key) {
            assert(byte_strings(keys@)[i as int] == key@);
            return true;
        }
        i += 1;
    }
    false
}

fn read_threshold(inner: &[u8]) -> (r: Option<(u8, usize)>)
    ensures
        match parse_threshold(inner@) {
            Some((m, used)) => r == Some((m as u8, used as usize)) && 1 <= m <= 16 && 1 <= used
                <= 2 && used <= inner@.len(),
            None => r is None,
        },
{
    let n = inner.len();
    if n == 0 || !(0x30 <= inner[0] && inner[0] <= 0x39) {
        None
    } else if n >= 2 && 0x30 <= inner[1] && inner[1] <= 0x39 {
        if n >= 3 && 0x30 <= inner[2] && inner[2] <= 0x39 {
            None
        } else if inner[0] == 0x31 && inner[1] <= 0x36 {
            Some((10 + inner[1] - CHAR_ZERO, 2))
        } else {
            None
        }
    } else if inner[0] == CHAR_ZERO {
        None
    } else {
        Some((inner[0] - CHAR_ZERO, 1))
    }
}

fn read_keys(inner: &[u8], start: usize) -> (r: Result<Vec<Vec<u8>>, ParseError>)
    requires
        start <= inner@.len(),
    ensures
        match parse_keys(inner@, start as int, Seq::empty()) {
            Ok(keys) => r is Ok && byte_strings(r.unwrap()@) == keys,
            Err(e) => r == Err::<Vec<Vec<u8>>, ParseError>(e),
        },
{
    let mut keys: Vec<Vec<u8>> = Vec::new();
    let mut pos: usize = start;
    assert(byte_strings(keys@) =~= Seq::<Seq<u8>>::empty());
    while pos < inner.len()
        invariant
            pos <= inner@.len(),
            parse_keys(inner@, pos as int, byte_strings(keys@)) == parse_keys(
                inner@,
                start as int,
                Seq::empty(),
            ),
        decreases inner@.len() - pos,
    {
        if inner[pos] != CHAR_COMMA {
            return Err(ParseError::Malformed);
        }
        if keys.len() >= MAX_KEYS {
            return Err(ParseError::BadKeyCount);
        }
        if inner.len() - pos < KEY_FIELD_LEN {
            return Err(ParseError::Malformed);
        }
        let field = vstd::slice::slice_subrange(inner, pos + 1, pos + KEY_FIELD_LEN);
        match hex_decode(field) {
            None => {
                return Err(ParseError::MalformedHex);
            },
            Some(key) => {
                assert(key@.len() == 33);
                if key[0] != 0x02 && key[0] != 0x03 {
                    return Err(ParseError::UncompressedKey);
                }
                if contains_key(&keys, key.as_slice()) {
                    return Err(ParseError::DuplicateKey);
                }
                let ghost before = byte_strings(keys@);
                keys.push(key);
                assert(byte_strings(keys@) =~= before.push(key@));
            },
        }
        pos += KEY_FIELD_LEN;
    }
    Ok(keys)
}

/// Reads a descriptor in ASCII bytes.
pub fn parse_descriptor_text(text: &[u8]) -> (r: Result<ParsedDescriptor, ParseError>)
    ensures
        match parse_text(text@) {
            Ok(policy) => r is Ok && r.unwrap()@ == policy,
            Err(e) => r is Err && r.unwrap_err() == e,
        },
{
    let n = text.len();
    if n < 9 || text[n - 9] != CHAR_HASH {
        return Err(ParseError::MissingChecksum);
    }
    let body = vstd::slice::slice_subrange(text, 0, n - 9);
    assert(body@ =~= text@.take(n - 9));
    if body.len() < 9 || !(body[0] == 0x73 && body[1] == 0x68 && body[2] == 0x28 && body[3] == 0x6d
        && body[4] == 0x75 && body[5] == 0x6c && body[6] == 0x74 && body[7] == 0x69 && body[8]
        == 0x28) {
        assert(body@.len() >= 9 ==> body@.take(9) != wrapper_open()) by {
            if body@.len() >= 9 && body@.take(9) == wrapper_open() {
                assert(forall|i: int| 0 <= i < 9 ==> body@.take(9)[i] == wrapper_open()[i]);
                assert(body@.take(9)[0] == body@[0]);
                assert(body@.take(9)[1] == body@[1]);
                assert(body@.take(9)[2] == body@[2]);
                assert(body@.take(9)[3] == body@[3]);
                assert(body@.take(9)[4] == body@[4]);
                assert(body@.take(9)[5] == body@[5]);
                assert(body@.take(9)[6] == body@[6]);
                assert(body@.take(9)[7] == body@[7]);
                assert(body@.take(9)[8] == body@[8]);
            }
        }
        return Err(ParseError::UnsupportedWrapper);
    }
    assert(body@.take(9) =~= wrapper_open());
    let m = body.len();
    if m < 11 || body[m - 2] != CHAR_CLOSE || body[m - 1] != CHAR_CLOSE {
        assert(m >= 11 ==> body@.skip(m - 2) != wrapper_close()) by {
            if m >= 11 && body@.skip(m - 2) == wrapper_close() {
                assert(body@.skip(m - 2)[0] == body@[m - 2]);
                assert(body@.skip(m - 2)[1] == body@[m - 1]);
            }
        }
        return Err(ParseError::Malformed);
    }
    assert(body@.skip(m - 2) =~= wrapper_close());
    let inner = vstd::slice::slice_subrange(body, 9, m - 2);
    match read_threshold(inner) {
        None => Err(ParseError::BadThreshold),
        Some((threshold, used)) => {
            match read_keys(inner, used) {
                Err(e) => Err(e),
                Ok(keys) => {
                    if keys.len() == 0 {
                        Err(ParseError::BadKeyCount)
                    } else if threshold as usize > keys.len() {
                        Err(ParseError::BadThreshold)
                    } else {
                        let mut checksum: Vec<u8> = Vec::new();
                        push_bytes(&mut checksum, vstd::slice::slice_subrange(text, n - 8, n));
                        assert(checksum@ =~= text@.skip(n - 8));
                        Ok(ParsedDescriptor { threshold, keys, checksum })
                    }
                },
            }
        },
    }
}

} // verus!

verus! {

/// The text of a list of keys has 67 bytes for each key.
pub proof fn lemma_keys_text_len(keys: Seq<Seq<u8>>)
    ensures
        keys_text(keys).len() == 67 * keys.len(),
{
    reveal(keys_text);
}

/// The text of a list of keys, taken apart at its last key.
pub proof fn lemma_keys_text_push(keys: Seq<Seq<u8>>, key: Seq<u8>)
    requires
        key.len() == KEY_LEN,
    ensures
        keys_text(keys.push(key)) == keys_text(keys) + seq![CHAR_COMMA] + hex_text(key),
{
    reveal(keys_text);
    let n = keys.len() as int;
    let left = keys_text(keys.push(key));
    let right = keys_text(keys) + seq![CHAR_COMMA] + hex_text(key);
    assert(left.len() == right.len());
    assert forall|i: int| 0 <= i < left.len() implies left[i] == right[i] by {
        if i < 67 * n {
            assert(i / 67 < n);
            assert(keys.push(key)[i / 67] == keys[i / 67]);
        } else {
            assert(i / 67 == n);
            assert(keys.push(key)[i / 67] == key);
            if i > 67 * n {
                assert(i % 67 - 1 == i - 67 * n - 1);
            }
        }
    }
    assert(left =~= right);
}

/// The text of a list of keys, taken apart at its first key.
pub proof fn lemma_keys_text_first(keys: Seq<Seq<u8>>)
    requires
        keys.len() > 0,
        keys[0].len() == KEY_LEN,
    ensures
        keys_text(keys) == seq![CHAR_COMMA] + hex_text(keys[0]) + keys_text(keys.skip(1)),
{
    reveal(keys_text);
    let left = keys_text(keys);
    let right = seq![CHAR_COMMA] + hex_text(keys[0]) + keys_text(keys.skip(1));
    assert(left.len() == right.len());
    assert forall|i: int| 0 <= i < left.len() implies left[i] == right[i] by {
        if i >= 67 {
            assert((i - 67) % 67 == i % 67);
            assert((i - 67) / 67 == i / 67 - 1);
            assert(keys.skip(1)[(i - 67) / 67] == keys[i / 67]);
        } else {
            assert(i / 67 == 0);
        }
    }
    assert(left =~= right);
}

/// The keys that were written are the keys that are read.
pub proof fn lemma_parse_keys_of_text(inner: Seq<u8>, start: int, keys: Seq<Seq<u8>>, done: int)
    requires
        0 <= start,
        0 <= done <= keys.len() <= MAX_KEYS,
        inner.len() == start + 67 * keys.len(),
        inner.skip(start) == keys_text(keys),
        forall|i: int| 0 <= i < keys.len() ==> is_compressed_key(#[trigger] keys[i]),
        distinct_keys(keys),
    ensures
        parse_keys(inner, start + 67 * done, keys.take(done)) == Ok::<Seq<Seq<u8>>, ParseError>(
            keys,
        ),
    decreases keys.len() - done,
{
    reveal(keys_text);
    let pos = start + 67 * done;
    if done == keys.len() {
        assert(keys.take(done) =~= keys);
    } else {
        let key = keys[done];
        let window = inner.subrange(pos + 1, pos + 67);
        assert(inner[pos] == inner.skip(start)[67 * done]);
        assert((67 * done) % 67 == 0);
        assert(window.len() == 66);
        assert forall|i: int| 0 <= i < 66 implies window[i] == hex_text(key)[i] by {
            let at = 67 * done + 1 + i;
            assert(window[i] == inner.skip(start)[at]);
            assert(at % 67 == 1 + i);
            assert(at / 67 == done);
        }
        assert(window =~= hex_text(key));
        crate::encoding::lemma_hex_round_trip(key);
        assert(!keys.take(done).contains(key)) by {
            if keys.take(done).contains(key) {
                let j = choose|j: int| 0 <= j < done && keys.take(done)[j] == key;
                assert(keys[j] == keys[done]);
            }
        }
        assert(keys.take(done).push(key) =~= keys.take(done + 1));
        lemma_parse_keys_of_text(inner, start, keys, done + 1);
    }
}

/// Keys that are read are compressed and distinct, at most 16, and the text
/// they were read from is their text.
#[verifier::rlimit(40)]
pub proof fn lemma_parse_keys_canonical(inner: Seq<u8>, pos: int, found: Seq<Seq<u8>>)
    requires
        0 <= pos <= inner.len(),
        parse_keys(inner, pos, found) is Ok,
        found.len() <= MAX_KEYS,
        forall|i: int| 0 <= i < found.len() ==> is_compressed_key(#[trigger] found[i]),
        distinct_keys(found),
    ensures
        ({
            let keys = parse_keys(inner, pos, found).unwrap();
            &&& found.len() <= keys.len() <= MAX_KEYS
            &&& keys.take(found.len() as int) == found
            &&& forall|i: int| 0 <= i < keys.len() ==> is_compressed_key(#[trigger] keys[i])
            &&& distinct_keys(keys)
            &&& inner.skip(pos) == keys_text(keys.skip(found.len() as int))
        }),
    decreases inner.len() - pos,
{
    let keys = parse_keys(inner, pos, found).unwrap();
    if pos >= inner.len() {
        assert(keys == found);
        assert(keys.take(found.len() as int) =~= found);
        assert(keys.skip(found.len() as int) =~= Seq::<Seq<u8>>::empty());
        lemma_keys_text_len(Seq::<Seq<u8>>::empty());
        assert(inner.skip(pos) =~= keys_text(Seq::<Seq<u8>>::empty()));
    } else {
        let window = inner.subrange(pos + 1, pos + 67);
        let key = hex_bytes(window).unwrap();
        let next = found.push(key);
        assert(key.len() == 33);
        assert forall|i: int, j: int| 0 <= i < j < next.len() implies next[i] != next[j] by {
            if j == found.len() {
                assert(found[i] == next[i]);
                assert(found.contains(found[i]));
            }
        }
        lemma_parse_keys_canonical(inner, pos + 67, next);
        let f = found.len() as int;
        assert(keys.take(f) =~= found) by {
            assert(keys.take(f + 1) == next);
            assert forall|i: int| 0 <= i < f implies keys.take(f)[i] == found[i] by {
                assert(keys.take(f + 1)[i] == next[i]);
            }
        }
        assert(keys[f] == key) by {
            assert(keys.take(f + 1)[f] == next[f]);
        }
        let rest = keys.skip(f);
        assert(rest[0] == key);
        assert(rest.skip(1) =~= keys.skip(f + 1));
        lemma_keys_text_first(rest);
        crate::encoding::lemma_hex_canonical(window);
        assert(inner.skip(pos) =~= seq![CHAR_COMMA] + window + inner.skip(pos + 67));
    }
}

/// A threshold that is read is from 1 to 16, and the digits read are its text.
pub proof fn lemma_parse_threshold_canonical(inner: Seq<u8>)
    requires
        parse_threshold(inner) is Some,
    ensures
        ({
            let (threshold, used) = parse_threshold(inner).unwrap();
            &&& 1 <= threshold <= 16
            &&& 1 <= used <= inner.len()
            &&& inner.take(used) == threshold_text(threshold)
            &&& used < inner.len() ==> !is_digit(inner[used])
        }),
{
    let (threshold, used) = parse_threshold(inner).unwrap();
    assert(inner.take(used) =~= threshold_text(threshold));
}

/// Writing a policy and reading the text gives the policy back.
pub proof fn lemma_parse_of_text(threshold: nat, keys: Seq<Seq<u8>>, checksum: Seq<u8>)
    requires
        is_policy(threshold, keys),
        checksum.len() == CHECKSUM_LEN,
    ensures
        parse_text(descriptor_text(threshold, keys, checksum)) == Ok::<PolicyText, ParseError>(
            PolicyText { threshold, keys, checksum },
        ),
{
    let text = descriptor_text(threshold, keys, checksum);
    let body = descriptor_body(threshold, keys);
    let n = text.len() as int;
    let digits = threshold_text(threshold);
    assert(text[n - 9] == CHAR_HASH);
    assert(text.take(n - 9) =~= body);
    assert(text.skip(n - 8) =~= checksum);
    assert(body.take(9) =~= wrapper_open());
    assert(body.skip(body.len() - 2) =~= wrapper_close());
    let inner = body.subrange(9, body.len() - 2);
    lemma_keys_text_len(keys);
    assert(inner =~= digits + keys_text(keys));
    assert(keys_text(keys)[0] == CHAR_COMMA) by {
        reveal(keys_text);
    }
    let used = digits.len() as int;
    assert(inner[used] == keys_text(keys)[0]);
    assert(parse_threshold(inner) == Some((threshold, used)));
    assert(inner.skip(used) =~= keys_text(keys));
    assert(keys.take(0) =~= Seq::<Seq<u8>>::empty());
    lemma_parse_keys_of_text(inner, used, keys, 0);
}

/// A text that is accepted is the text of the policy it gives: every policy has
/// one text only.
pub proof fn lemma_parse_text_canonical(text: Seq<u8>)
    requires
        parse_text(text) is Ok,
    ensures
        ({
            let policy = parse_text(text).unwrap();
            &&& is_policy(policy.threshold, policy.keys)
            &&& policy.checksum.len() == CHECKSUM_LEN
            &&& text == descriptor_text(policy.threshold, policy.keys, policy.checksum)
            &&& text.take(text.len() - 9) == descriptor_body(policy.threshold, policy.keys)
        }),
{
    let policy = parse_text(text).unwrap();
    let n = text.len() as int;
    let body = text.take(n - 9);
    let inner = body.subrange(9, body.len() - 2);
    let (threshold, used) = parse_threshold(inner).unwrap();
    lemma_parse_threshold_canonical(inner);
    lemma_parse_keys_canonical(inner, used, Seq::empty());
    lemma_keys_text_len(parse_keys(inner, used, Seq::empty()).unwrap());
    let keys = parse_keys(inner, used, Seq::empty()).unwrap();
    assert(keys.skip(0) =~= keys);
    assert(inner =~= inner.take(used) + inner.skip(used));
    assert(body =~= body.take(9) + inner + body.skip(body.len() - 2));
    assert(body =~= descriptor_body(threshold, keys));
    assert(text =~= body + seq![CHAR_HASH] + text.skip(n - 8));
}

/// Writes a threshold from 1 to 16 in decimal.
fn write_threshold(out: &mut Vec<u8>, threshold: u8)
    requires
        1 <= threshold <= 16,
    ensures
        final(out)@ == old(out)@ + threshold_text(threshold as nat),
{
    let ghost start = out@;
    if threshold < 10 {
        out.push(CHAR_ZERO + threshold);
    } else {
        out.push(0x31);
        out.push(CHAR_ZERO + threshold - 10);
    }
    assert(out@ =~= start + threshold_text(threshold as nat));
}

/// The descriptor of a policy without its checksum part, in ASCII bytes.
pub fn write_descriptor_body(threshold: u8, keys: &Vec<Vec<u8>>) -> (body: Vec<u8>)
    requires
        1 <= threshold <= 16,
        forall|i: int| 0 <= i < keys@.len() ==> (#[trigger] keys@[i])@.len() == KEY_LEN,
    ensures
        body@ == descriptor_body(threshold as nat, byte_strings(keys@)),
{
    let mut out: Vec<u8> = Vec::new();
    out.push(0x73);
    out.push(0x68);
    out.push(0x28);
    out.push(0x6d);
    out.push(0x75);
    out.push(0x6c);
    out.push(0x74);
    out.push(0x69);
    out.push(0x28);
    assert(out@ =~= wrapper_open());
    write_threshold(&mut out, threshold);
    let ghost head = out@;
    let ghost all = byte_strings(keys@);
    let mut i: usize = 0;
    assert(keys_text(all.take(0)) =~= Seq::<u8>::empty()) by {
        lemma_keys_text_len(all.take(0));
    }
    while i < keys.len()
        invariant
            i <= keys@.len(),
            all == byte_strings(keys@),
            out@ == head + keys_text(all.take(i as int)),
            forall|k: int| 0 <= k < keys@.len() ==> (#[trigger] keys@[k])@.len() == KEY_LEN,
        decreases keys@.len() - i,
    {
        out.push(CHAR_COMMA);
        let hex = hex_encode(keys[i].as_slice());
        push_bytes(&mut out, hex.as_slice());
        proof {
            assert(all.take(i + 1) =~= all.take(i as int).push(keys@[i as int]@));
            lemma_keys_text_push(all.take(i as int), keys@[i as int]@);
            assert(out@ =~= head + keys_text(all.take(i + 1)));
        }
        i += 1;
    }
    assert(all.take(keys@.len() as int) =~= all);
    out.push(CHAR_CLOSE);
    out.push(CHAR_CLOSE);
    assert(out@ =~= descriptor_body(threshold as nat, byte_strings(keys@)));
    out
}

} // verus!
