//! The script forms of a P2SH multi-signature output: the redeem script, the
//! output script that commits to its hash, and the script signature that
//! satisfies both.

use vstd::prelude::*;
use crate::encoding::{byte_strings, le_bytes, push_bytes, push_le};

verus! {

pub const OP_0: u8 = 0x00;

pub const OP_PUSHDATA1: u8 = 0x4c;

pub const OP_PUSHDATA2: u8 = 0x4d;

pub const OP_PUSHDATA4: u8 = 0x4e;

/// `OP_1` is one above this; `OP_16` is sixteen above.
pub const OP_N_BASE: u8 = 0x50;

pub const OP_EQUAL: u8 = 0x87;

pub const OP_HASH160: u8 = 0xa9;

pub const OP_CHECKMULTISIG: u8 = 0xae;

/// The length of a compressed public key.
pub const KEY_LEN: usize = 33;

/// The most keys a multi-signature script names.
pub const MAX_KEYS: usize = 16;

/// The script that pushes `data`, in the shortest form.
pub open spec fn push_data(data: Seq<u8>) -> Seq<u8> {
    if data.len() < 0x4c {
        seq![data.len() as u8] + data
    } else if data.len() <= 0xff {
        seq![OP_PUSHDATA1, data.len() as u8] + data
    } else if data.len() <= 0xffff {
        seq![OP_PUSHDATA2] + le_bytes(data.len(), 2) + data
    } else {
        seq![OP_PUSHDATA4] + le_bytes(data.len(), 4) + data
    }
}

/// The pushes of `items`, one after the other.
pub open spec fn push_all(items: Seq<Seq<u8>>) -> Seq<u8>
    decreases items.len(),
{
    if items.len() == 0 {
        Seq::empty()
    } else {
        push_all(items.drop_last()) + push_data(items.last())
    }
}

/// Whether `key` has the form of a compressed public key: 33 bytes, the first
/// 0x02 or 0x03.
pub open spec fn is_compressed_key(key: Seq<u8>) -> bool {
    key.len() == KEY_LEN && (key[0] == 0x02 || key[0] == 0x03)
}

/// Whether no key occurs twice.
pub open spec fn distinct_keys(keys: Seq<Seq<u8>>) -> bool {
    forall|i: int, j: int| 0 <= i < j < keys.len() ==> keys[i] != keys[j]
}

/// Whether (`threshold`, `keys`) is an `m`-of-`n` policy of compressed keys:
/// 1 <= m <= n <= 16, no key twice.
pub open spec fn is_policy(threshold: nat, keys: Seq<Seq<u8>>) -> bool {
    &&& 1 <= threshold <= keys.len() <= MAX_KEYS
    &&& forall|i: int| 0 <= i < keys.len() ==> is_compressed_key(#[trigger] keys[i])
    &&& distinct_keys(keys)
}

/// `OP_m <K1> ... <Kn> OP_n OP_CHECKMULTISIG`.
pub open spec fn multisig_script(threshold: nat, keys: Seq<Seq<u8>>) -> Seq<u8> {
    seq![(OP_N_BASE + threshold) as u8] + push_all(keys) + seq![
        (OP_N_BASE + keys.len()) as u8,
        OP_CHECKMULTISIG,
    ]
}

/// `OP_HASH160 <hash> OP_EQUAL`, for a 20-byte hash.
pub open spec fn p2sh_script(hash: Seq<u8>) -> Seq<u8> {
    seq![OP_HASH160, 0x14u8] + hash + seq![OP_EQUAL]
}

/// The hash that `script` commits to, where it is a P2SH output script.
pub open spec fn p2sh_payload(script: Seq<u8>) -> Option<Seq<u8>> {
    if script.len() == 23 && script[0] == OP_HASH160 && script[1] == 0x14 && script[22]
        == OP_EQUAL {
        Some(script.subrange(2, 22))
    } else {
        None
    }
}

/// `OP_0 <sig1> ... <sigm> <redeemScript>`.
pub open spec fn script_sig(signatures: Seq<Seq<u8>>, redeem_script: Seq<u8>) -> Seq<u8> {
    seq![OP_0] + push_all(signatures) + push_data(redeem_script)
}

/// A P2SH output script commits to the hash it was made from, and to no other.
pub proof fn lemma_p2sh_payload_of_script(hash: Seq<u8>)
    requires
        hash.len() == 20,
    ensures
        p2sh_payload(p2sh_script(hash)) == Some(hash),
{
    assert(p2sh_script(hash).subrange(2, 22) =~= hash);
}

/// Appends the push of `data`.
pub fn push_push_data(out: &mut Vec<u8>, data: &[u8])
    requires
        data@.len() <= 0xffff_ffff,
    ensures
        final(out)@ == old(out)@ + push_data(data@),
{
    let ghost start = out@;
    let n = data.len();
    if n < 0x4c {
        out.push(n as u8);
    } else if n <= 0xff {
        out.push(OP_PUSHDATA1);
        out.push(n as u8);
    } else if n <= 0xffff {
        out.push(OP_PUSHDATA2);
        push_le(out, n as u64, 2);
    } else {
        out.push(OP_PUSHDATA4);
        push_le(out, n as u64, 4);
    }
    push_bytes(out, data);
    assert(out@ =~= start + push_data(data@));
}

/// Appends the pushes of `items`, in order.
pub fn push_push_all(out: &mut Vec<u8>, items: &Vec<Vec<u8>>)
    requires
        forall|i: int| 0 <= i < items@.len() ==> (#[trigger] items@[i])@.len() <= 0xffff_ffff,
    ensures
        final(out)@ == old(out)@ + push_all(byte_strings(items@)),
{
    let ghost start = out@;
    let ghost all = byte_strings(items@);
    let mut i: usize = 0;
    assert(all.take(0) =~= Seq::<Seq<u8>>::empty());
    while i < items.len()
        invariant
            i <= items@.len(),
            all == byte_strings(items@),
            out@ == start + push_all(all.take(i as int)),
            forall|k: int| 0 <= k < items@.len() ==> (#[trigger] items@[k])@.len() <= 0xffff_ffff,
        decreases items@.len() - i,
    {
        let ghost before = out@;
        push_push_data(out, items[i].as_slice());
        proof {
            let next = all.take(i + 1);
            assert(next.drop_last() =~= all.take(i as int));
            assert(next.last() == items@[i as int]@);
            assert(out@ =~= start + push_all(next));
        }
        i += 1;
    }
    assert(all.take(items@.len() as int) =~= all);
}

/// The redeem script of an `m`-of-`n` policy.
pub fn build_multisig_script(threshold: u8, keys: &Vec<Vec<u8>>) -> (script: Vec<u8>)
    requires
        threshold <= MAX_KEYS,
        keys@.len() <= MAX_KEYS,
        forall|i: int| 0 <= i < keys@.len() ==> (#[trigger] keys@[i])@.len() <= 0xffff_ffff,
    ensures
        script@ == multisig_script(threshold as nat, byte_strings(keys@)),
{
    let mut script: Vec<u8> = Vec::new();
    script.push(OP_N_BASE + threshold);
    push_push_all(&mut script, keys);
    script.push(OP_N_BASE + keys.len() as u8);
    script.push(OP_CHECKMULTISIG);
    assert(script@ =~= multisig_script(threshold as nat, byte_strings(keys@)));
    script
}

/// The P2SH output script for a 20-byte script hash.
pub fn build_p2sh_script(hash: &[u8]) -> (script: Vec<u8>)
    ensures
        script@ == p2sh_script(hash@),
{
    let mut script: Vec<u8> = Vec::new();
    script.push(OP_HASH160);
    script.push(0x14);
    push_bytes(&mut script, hash);
    script.push(OP_EQUAL);
    assert(script@ =~= p2sh_script(hash@));
    script
}

/// The script hash that a P2SH output script commits to; `None` for a script of
/// another form.
pub fn read_p2sh_payload(script: &[u8]) -> (payload: Option<Vec<u8>>)
    ensures
        match p2sh_payload(script@) {
            Some(hash) => payload is Some && payload.unwrap()@ == hash,
            None => payload is None,
        },
{
    if script.len() == 23 && script[0] == OP_HASH160 && script[1] == 0x14 && script[22]
        == OP_EQUAL {
        let mut hash: Vec<u8> = Vec::new();
        push_bytes(&mut hash, vstd::slice::slice_subrange(script, 2, 22));
        assert(hash@ =~= script@.subrange(2, 22));
        Some(hash)
    } else {
        None
    }
}

/// The script signature that spends a P2SH multi-signature output.
pub fn build_script_sig(signatures: &Vec<Vec<u8>>, redeem_script: &[u8]) -> (script: Vec<u8>)
    requires
        redeem_script@.len() <= 0xffff_ffff,
        forall|i: int|
            0 <= i < signatures@.len() ==> (#[trigger] signatures@[i])@.len() <= 0xffff_ffff,
    ensures
        script@ == script_sig(byte_strings(signatures@), redeem_script@),
{
    let mut script: Vec<u8> = Vec::new();
    script.push(OP_0);
    push_push_all(&mut script, signatures);
    push_push_data(&mut script, redeem_script);
    assert(script@ =~= script_sig(byte_strings(signatures@), redeem_script@));
    script
}

/// The length of a redeem script: 3 opcodes and 34 bytes for each key.
pub proof fn lemma_multisig_script_len(threshold: nat, keys: Seq<Seq<u8>>)
    requires
        forall|i: int| 0 <= i < keys.len() ==> (#[trigger] keys[i]).len() == KEY_LEN,
    ensures
        multisig_script(threshold, keys).len() == 3 + 34 * keys.len(),
        push_all(keys).len() == 34 * keys.len(),
    decreases keys.len(),
{
    if keys.len() > 0 {
        lemma_multisig_script_len(threshold, keys.drop_last());
        assert(push_data(keys.last()).len() == 34);
    }
}

} // verus!

verus! {

/// Whether (`threshold`, `keys`) is an `m`-of-`n` policy of compressed keys.
pub fn check_policy(threshold: u8, keys: &Vec<Vec<u8>>) -> (ok: bool)
    ensures
        ok == is_policy(threshold as nat, byte_strings(keys@)),
{
    let n = keys.len();
    if threshold < 1 || n > MAX_KEYS || threshold as usize > n {
        return false;
    }
    let ghost all = byte_strings(keys@);
    let mut i: usize = 0;
    while i < n
        invariant
            i <= n,
            n == keys@.len(),
            all == byte_strings(keys@),
            forall|k: int| 0 <= k < i ==> is_compressed_key(#[trigger] all[k]),
            forall|a: int, b: int| 0 <= a < b < i ==> all[a] != all[b],
        decreases n - i,
    {
        let key = &keys[i];
        if key.len() != KEY_LEN || !(key[0] == 0x02 || key[0] == 0x03) {
            assert(!is_compressed_key(all[i as int]));
            return false;
        }
        let mut j: usize = 0;
        while j < i
            invariant
                j <= i < n,
                n == keys@.len(),
                all == byte_strings(keys@),
                forall|a: int| 0 <= a < j ==> all[a] != all[i as int],
            decreases i - j,
        {
            if crate::encoding::bytes_equal(keys[j].as_slice(), keys[i].as_slice()) {
                assert(all[j as int] == all[i as int]);
                return false;
            }
            j += 1;
        }
        i += 1;
    }
    true
}

/// The position of `key` among `keys`, from `from` on.
pub open spec fn key_position(keys: Seq<Seq<u8>>, key: Seq<u8>, from: int) -> Option<int>
    decreases keys.len() - from,
{
    if from < 0 || from >= keys.len() {
        None
    } else if keys[from] == key {
        Some(from)
    } else {
        key_position(keys, key, from + 1)
    }
}

/// A position that is found holds the key, and no earlier one does.
pub proof fn lemma_key_position(keys: Seq<Seq<u8>>, key: Seq<u8>, from: int)
    requires
        0 <= from,
    ensures
        match key_position(keys, key, from) {
            Some(j) => from <= j < keys.len() && keys[j] == key && forall|k: int|
                from <= k < j ==> keys[k] != key,
            None => forall|k: int| from <= k < keys.len() ==> keys[k] != key,
        },
    decreases keys.len() - from,
{
    if from < keys.len() && keys[from] != key {
        lemma_key_position(keys, key, from + 1);
    }
}

/// The position of `key` among `keys`.
pub fn find_key(keys: &Vec<Vec<u8>>, key: &[u8]) -> (position: Option<usize>)
    ensures
        match key_position(byte_strings(keys@), key@, 0) {
            Some(j) => position == Some(j as usize) && 0 <= j < keys@.len(),
            None => position is None,
        },
{
    let mut i: usize = 0;
    while i < keys.len()
        invariant
            i <= keys@.len(),
            key_position(byte_strings(keys@), key@, i as int) == key_position(
                byte_strings(keys@),
                key@,
                0,
            ),
        decreases keys@.len() - i,
    {
        if crate::encoding::bytes_equal(keys[i].as_slice(), key) {
            return Some(i);
        }
        i += 1;
    }
    None
}

} // verus!

verus! {

/// The 33 bytes after the length byte of push `j`, where every push has 34
/// bytes.
pub open spec fn pushed_key(pushes: Seq<u8>, j: int) -> Seq<u8> {
    pushes.subrange(34 * j + 1, 34 * j + 34)
}

/// The pushes of compressed keys, key by key: 34 bytes each, the length
/// first.
pub proof fn lemma_push_all_keys(keys: Seq<Seq<u8>>)
    requires
        forall|i: int| 0 <= i < keys.len() ==> (#[trigger] keys[i]).len() == KEY_LEN,
    ensures
        push_all(keys).len() == 34 * keys.len(),
        forall|j: int| 0 <= j < keys.len() ==> #[trigger] pushed_key(push_all(keys), j) == keys[j],
    decreases keys.len(),
{
    if keys.len() > 0 {
        let fewer = keys.drop_last();
        lemma_push_all_keys(fewer);
        let all = push_all(keys);
        let n = keys.len() as int;
        assert(push_data(keys.last()) =~= seq![0x21u8] + keys.last());
        assert forall|j: int| 0 <= j < keys.len() implies #[trigger] pushed_key(all, j)
            == keys[j] by {
            if j < n - 1 {
                assert(pushed_key(all, j) =~= pushed_key(push_all(fewer), j));
                assert(fewer[j] == keys[j]);
            } else {
                assert(pushed_key(all, j) =~= keys.last());
            }
        }
    }
}

/// The keys that a script of the length of a multi-signature script would
/// name: the 33 bytes after each length byte.
pub open spec fn script_keys(script: Seq<u8>) -> Seq<Seq<u8>> {
    Seq::new(((script.len() - 3) / 34) as nat, |j: int| script.subrange(2 + 34 * j, 35 + 34 * j))
}

/// The policy that `script` is the redeem script of.
pub open spec fn parse_multisig_script(script: Seq<u8>) -> Option<(nat, Seq<Seq<u8>>)> {
    if script.len() < 3 || (script.len() - 3) % 34 != 0 || script[0] <= OP_N_BASE {
        None
    } else {
        let threshold = (script[0] - OP_N_BASE) as nat;
        let keys = script_keys(script);
        if is_policy(threshold, keys) && multisig_script(threshold, keys) == script {
            Some((threshold, keys))
        } else {
            None
        }
    }
}

/// The redeem script of a policy is read back as that policy.
pub proof fn lemma_parse_multisig_script(threshold: nat, keys: Seq<Seq<u8>>)
    requires
        is_policy(threshold, keys),
    ensures
        parse_multisig_script(multisig_script(threshold, keys)) == Some((threshold, keys)),
{
    let script = multisig_script(threshold, keys);
    lemma_push_all_keys(keys);
    lemma_multisig_script_len(threshold, keys);
    let read = script_keys(script);
    assert(read.len() == keys.len());
    assert forall|j: int| 0 <= j < keys.len() implies read[j] == keys[j] by {
        assert(script.subrange(2 + 34 * j, 35 + 34 * j) =~= pushed_key(push_all(keys), j));
    }
    assert(read =~= keys);
}

/// Reads the policy of a redeem script; `None` where `script` is not the
/// redeem script of a policy.
pub fn read_multisig_script(script: &[u8]) -> (r: Option<(u8, Vec<Vec<u8>>)>)
    ensures
        match parse_multisig_script(script@) {
            Some((threshold, keys)) => r is Some && r.unwrap().0 == threshold && byte_strings(
                r.unwrap().1@,
            ) == keys,
            None => r is None,
        },
{
    let len = script.len();
    if len < 3 || (len - 3) % 34 != 0 || script[0] <= OP_N_BASE {
        return None;
    }
    let n = (len - 3) / 34;
    let threshold = script[0] - OP_N_BASE;
    let mut keys: Vec<Vec<u8>> = Vec::new();
    let mut j: usize = 0;
    while j < n
        invariant
            j <= n,
            n == (script@.len() - 3) / 34,
            34 * n + 3 == script@.len(),
            script@.len() == len,
            keys@.len() == j,
            forall|k: int| 0 <= k < j ==> (#[trigger] keys@[k])@ == script_keys(script@)[k],
        decreases n - j,
    {
        let key = crate::encoding::copy_bytes(
            vstd::slice::slice_subrange(script, 2 + 34 * j, 35 + 34 * j),
        );
        keys.push(key);
        j += 1;
    }
    assert(byte_strings(keys@) =~= script_keys(script@));
    if !check_policy(threshold, &keys) {
        return None;
    }
    let again = build_multisig_script(threshold, &keys);
    if !crate::encoding::bytes_equal(again.as_slice(), script) {
        return None;
    }
    Some((threshold, keys))
}

} // verus!
