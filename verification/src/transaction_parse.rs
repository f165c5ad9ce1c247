//! Reading a transaction in the legacy format: the inverse of its
//! serialization. Counts and lengths have to be written in their shortest
//! form, a transaction has at least one input, and nothing may follow the
//! lock time.

use vstd::prelude::*;
use crate::encoding::{
    compact_size,
    copy_bytes,
    le_bytes,
    le_value,
    lemma_compact_size_of_parse,
    lemma_le_bytes_len,
    lemma_le_bytes_of_le_value,
    lemma_le_round_trip,
    lemma_le_value_bound,
    lemma_parse_compact_size_of,
    lemma_pow256_values,
    parse_compact_size,
    read_compact_size,
    read_u32_le,
    read_u64_le,
};
use crate::transaction::{
    input_bytes,
    inputs_bytes,
    output_bytes,
    outputs_bytes,
    transaction_bytes,
    OutPoint,
    OutPointView,
    Transaction,
    TransactionView,
    TxIn,
    TxInView,
    TxOut,
    TxOutView,
    TXID_LEN,
};

verus! {

/// The input at the start of `bytes`, with the number of bytes it takes.
pub open spec fn parse_input(bytes: Seq<u8>) -> Option<(TxInView, int)> {
    if bytes.len() < 36 {
        None
    } else {
        match parse_compact_size(bytes.skip(36)) {
            None => None,
            Some((n, k)) => if bytes.len() < 36 + k + n + 4 {
                None
            } else {
                Some(
                    (
                        TxInView {
                            previous_output: OutPointView {
                                txid: bytes.take(32),
                                vout: le_value(bytes.subrange(32, 36)) as u32,
                            },
                            script_sig: bytes.subrange(36 + k as int, 36 + k as int + n as int),
                            sequence: le_value(
                                bytes.subrange(
                                    36 + k as int + n as int,
                                    36 + k as int + n as int + 4,
                                ),
                            ) as u32,
                        },
                        36 + k as int + n as int + 4,
                    ),
                )
            },
        }
    }
}

/// The output at the start of `bytes`, with the number of bytes it takes.
pub open spec fn parse_output(bytes: Seq<u8>) -> Option<(TxOutView, int)> {
    if bytes.len() < 8 {
        None
    } else {
        match parse_compact_size(bytes.skip(8)) {
            None => None,
            Some((n, k)) => if bytes.len() < 8 + k + n {
                None
            } else {
                Some(
                    (
                        TxOutView {
                            value: le_value(bytes.take(8)) as u64,
                            script_pubkey: bytes.subrange(8 + k as int, 8 + k as int + n as int),
                        },
                        8 + k as int + n as int,
                    ),
                )
            },
        }
    }
}

/// `count` inputs at the start of `bytes`, with the number of bytes they take.
pub open spec fn parse_inputs(bytes: Seq<u8>, count: nat) -> Option<(Seq<TxInView>, int)>
    decreases count,
{
    if count == 0 {
        Some((Seq::empty(), 0))
    } else {
        match parse_input(bytes) {
            None => None,
            Some((input, used)) => match parse_inputs(bytes.skip(used), (count - 1) as nat) {
                None => None,
                Some((rest, more)) => Some((seq![input] + rest, used + more)),
            },
        }
    }
}

/// `count` outputs at the start of `bytes`, with the number of bytes they take.
pub open spec fn parse_outputs(bytes: Seq<u8>, count: nat) -> Option<(Seq<TxOutView>, int)>
    decreases count,
{
    if count == 0 {
        Some((Seq::empty(), 0))
    } else {
        match parse_output(bytes) {
            None => None,
            Some((output, used)) => match parse_outputs(bytes.skip(used), (count - 1) as nat) {
                None => None,
                Some((rest, more)) => Some((seq![output] + rest, used + more)),
            },
        }
    }
}

/// The transaction that `bytes` are the legacy serialization of.
#[verifier::opaque]
pub open spec fn parse_transaction(bytes: Seq<u8>) -> Option<TransactionView> {
    if bytes.len() < 4 {
        None
    } else {
        match parse_compact_size(bytes.skip(4)) {
            None => None,
            Some((n_in, k_in)) => if n_in == 0 {
                None
            } else {
                match parse_inputs(bytes.skip(4 + k_in as int), n_in) {
                    None => None,
                    Some((inputs, used_in)) => {
                        let at = 4 + k_in as int + used_in;
                        match parse_compact_size(bytes.skip(at)) {
                            None => None,
                            Some((n_out, k_out)) => match parse_outputs(
                                bytes.skip(at + k_out as int),
                                n_out,
                            ) {
                                None => None,
                                Some((outputs, used_out)) => {
                                    let end = at + k_out as int + used_out;
                                    if bytes.len() != end + 4 {
                                        None
                                    } else {
                                        Some(
                                            TransactionView {
                                                version: le_value(bytes.take(4)) as u32,
                                                inputs,
                                                outputs,
                                                lock_time: le_value(bytes.subrange(end, end + 4)) as u32,
                                            },
                                        )
                                    }
                                },
                            },
                        }
                    },
                }
            },
        }
    }
}

/// Whether the serialization of `tx` can be read back: at least one input,
/// every transaction id of 32 bytes, and counts and lengths that fit in 64
/// bits.
pub open spec fn is_readable(tx: TransactionView) -> bool {
    &&& 1 <= tx.inputs.len() <= u64::MAX
    &&& tx.outputs.len() <= u64::MAX
    &&& forall|i: int|
        0 <= i < tx.inputs.len() ==> (#[trigger] tx.inputs[i]).previous_output.txid.len() == TXID_LEN
            && tx.inputs[i].script_sig.len() <= u64::MAX
    &&& forall|i: int| 0 <= i < tx.outputs.len() ==> (#[trigger] tx.outputs[i]).script_pubkey.len() <= u64::MAX
}

proof fn lemma_u32_round_trip(v: u32)
    ensures
        le_value(le_bytes(v as nat, 4)) as u32 == v,
        le_bytes(v as nat, 4).len() == 4,
{
    lemma_pow256_values();
    lemma_le_round_trip(v as nat, 4);
    lemma_le_bytes_len(v as nat, 4);
}

proof fn lemma_u32_canonical(bytes: Seq<u8>)
    requires
        bytes.len() == 4,
    ensures
        le_value(bytes) <= u32::MAX,
        le_bytes((le_value(bytes) as u32) as nat, 4) == bytes,
{
    lemma_pow256_values();
    lemma_le_value_bound(bytes);
    lemma_le_bytes_of_le_value(bytes);
}

proof fn lemma_u64_round_trip(v: u64)
    ensures
        le_value(le_bytes(v as nat, 8)) as u64 == v,
        le_bytes(v as nat, 8).len() == 8,
{
    lemma_pow256_values();
    lemma_le_round_trip(v as nat, 8);
    lemma_le_bytes_len(v as nat, 8);
}

proof fn lemma_u64_canonical(bytes: Seq<u8>)
    requires
        bytes.len() == 8,
    ensures
        le_value(bytes) <= u64::MAX,
        le_bytes((le_value(bytes) as u64) as nat, 8) == bytes,
{
    lemma_pow256_values();
    lemma_le_value_bound(bytes);
    lemma_le_bytes_of_le_value(bytes);
}

/// An input that is read was written so.
pub proof fn lemma_input_bytes_of_parse(bytes: Seq<u8>)
    requires
        parse_input(bytes) is Some,
    ensures
        ({
            let (input, used) = parse_input(bytes).unwrap();
            &&& 41 <= used <= bytes.len()
            &&& input.previous_output.txid.len() == TXID_LEN
            &&& input.script_sig.len() <= u64::MAX
            &&& input_bytes(input) == bytes.take(used)
        }),
{
    let (input, used) = parse_input(bytes).unwrap();
    let n = parse_compact_size(bytes.skip(36)).unwrap().0 as int;
    let k = parse_compact_size(bytes.skip(36)).unwrap().1 as int;
    lemma_compact_size_of_parse(bytes.skip(36));
    lemma_u32_canonical(bytes.subrange(32, 36));
    lemma_u32_canonical(bytes.subrange(36 + k + n, 36 + k + n + 4));
    assert(bytes.skip(36).take(k) =~= bytes.subrange(36, 36 + k));
    assert(input_bytes(input) =~= bytes.take(used));
}

/// An input that was written is read back, whatever follows it.
pub proof fn lemma_parse_input_of_bytes(input: TxInView, rest: Seq<u8>)
    requires
        input.previous_output.txid.len() == TXID_LEN,
        input.script_sig.len() <= u64::MAX,
    ensures
        parse_input(input_bytes(input) + rest) == Some((input, input_bytes(input).len() as int)),
{
    let bytes = input_bytes(input) + rest;
    let n = input.script_sig.len() as int;
    let size = compact_size(n as nat);
    let k = size.len() as int;
    lemma_u32_round_trip(input.previous_output.vout);
    lemma_u32_round_trip(input.sequence);
    let tail = input.script_sig + le_bytes(input.sequence as nat, 4) + rest;
    assert(bytes.skip(36) =~= size + tail);
    lemma_parse_compact_size_of(n as nat, tail);
    assert(bytes.take(32) =~= input.previous_output.txid);
    assert(bytes.subrange(32, 36) =~= le_bytes(input.previous_output.vout as nat, 4));
    assert(bytes.subrange(36 + k, 36 + k + n) =~= input.script_sig);
    assert(bytes.subrange(36 + k + n, 36 + k + n + 4) =~= le_bytes(input.sequence as nat, 4));
    assert(input_bytes(input).len() == 36 + k + n + 4);
}

/// An output that is read was written so.
pub proof fn lemma_output_bytes_of_parse(bytes: Seq<u8>)
    requires
        parse_output(bytes) is Some,
    ensures
        ({
            let (output, used) = parse_output(bytes).unwrap();
            &&& 9 <= used <= bytes.len()
            &&& output.script_pubkey.len() <= u64::MAX
            &&& output_bytes(output) == bytes.take(used)
        }),
{
    let (output, used) = parse_output(bytes).unwrap();
    let n = parse_compact_size(bytes.skip(8)).unwrap().0 as int;
    let k = parse_compact_size(bytes.skip(8)).unwrap().1 as int;
    lemma_compact_size_of_parse(bytes.skip(8));
    lemma_u64_canonical(bytes.take(8));
    assert(bytes.skip(8).take(k) =~= bytes.subrange(8, 8 + k));
    assert(output_bytes(output) =~= bytes.take(used));
}

/// An output that was written is read back, whatever follows it.
pub proof fn lemma_parse_output_of_bytes(output: TxOutView, rest: Seq<u8>)
    requires
        output.script_pubkey.len() <= u64::MAX,
    ensures
        parse_output(output_bytes(output) + rest) == Some((output, output_bytes(output).len() as int)),
{
    let bytes = output_bytes(output) + rest;
    let n = output.script_pubkey.len() as int;
    let size = compact_size(n as nat);
    let k = size.len() as int;
    lemma_u64_round_trip(output.value);
    let tail = output.script_pubkey + rest;
    assert(bytes.skip(8) =~= size + tail);
    lemma_parse_compact_size_of(n as nat, tail);
    assert(bytes.take(8) =~= le_bytes(output.value as nat, 8));
    assert(bytes.subrange(8 + k, 8 + k + n) =~= output.script_pubkey);
    assert(output_bytes(output).len() == 8 + k + n);
}

/// The bytes of a list of inputs, taken apart at its first input.
pub proof fn lemma_inputs_bytes_first(inputs: Seq<TxInView>)
    requires
        inputs.len() > 0,
    ensures
        inputs_bytes(inputs) == input_bytes(inputs[0]) + inputs_bytes(inputs.skip(1)),
    decreases inputs.len(),
{
    if inputs.len() == 1 {
        reveal_with_fuel(inputs_bytes, 2);
        assert(inputs.drop_last().len() == 0);
        assert(inputs.skip(1).len() == 0);
        assert(inputs.last() == inputs[0]);
        assert(inputs_bytes(inputs) =~= input_bytes(inputs[0]) + inputs_bytes(inputs.skip(1)));
    } else {
        lemma_inputs_bytes_first(inputs.drop_last());
        assert(inputs.drop_last().skip(1) =~= inputs.skip(1).drop_last());
        assert(inputs.skip(1).last() == inputs.last());
        assert(inputs_bytes(inputs) =~= input_bytes(inputs[0]) + inputs_bytes(inputs.skip(1)));
    }
}

/// The bytes of a list of outputs, taken apart at its first output.
pub proof fn lemma_outputs_bytes_first(outputs: Seq<TxOutView>)
    requires
        outputs.len() > 0,
    ensures
        outputs_bytes(outputs) == output_bytes(outputs[0]) + outputs_bytes(outputs.skip(1)),
    decreases outputs.len(),
{
    if outputs.len() == 1 {
        reveal_with_fuel(outputs_bytes, 2);
        assert(outputs.drop_last().len() == 0);
        assert(outputs.skip(1).len() == 0);
        assert(outputs.last() == outputs[0]);
        assert(outputs_bytes(outputs) =~= output_bytes(outputs[0]) + outputs_bytes(
            outputs.skip(1),
        ));
    } else {
        lemma_outputs_bytes_first(outputs.drop_last());
        assert(outputs.drop_last().skip(1) =~= outputs.skip(1).drop_last());
        assert(outputs.skip(1).last() == outputs.last());
        assert(outputs_bytes(outputs) =~= output_bytes(outputs[0]) + outputs_bytes(
            outputs.skip(1),
        ));
    }
}

/// Inputs that are read were written so.
pub proof fn lemma_inputs_bytes_of_parse(bytes: Seq<u8>, count: nat)
    requires
        parse_inputs(bytes, count) is Some,
    ensures
        ({
            let (inputs, used) = parse_inputs(bytes, count).unwrap();
            &&& inputs.len() == count
            &&& 0 <= used <= bytes.len()
            &&& inputs_bytes(inputs) == bytes.take(used)
            &&& forall|i: int|
                0 <= i < inputs.len() ==> (#[trigger] inputs[i]).previous_output.txid.len()
                    == TXID_LEN && inputs[i].script_sig.len() <= u64::MAX
        }),
    decreases count,
{
    let (inputs, used) = parse_inputs(bytes, count).unwrap();
    if count == 0 {
        assert(inputs_bytes(inputs) =~= bytes.take(0));
    } else {
        let (input, first) = parse_input(bytes).unwrap();
        lemma_input_bytes_of_parse(bytes);
        lemma_inputs_bytes_of_parse(bytes.skip(first), (count - 1) as nat);
        let (rest, more) = parse_inputs(bytes.skip(first), (count - 1) as nat).unwrap();
        lemma_inputs_bytes_first(inputs);
        assert(inputs.skip(1) =~= rest);
        assert(bytes.take(used) =~= bytes.take(first as int) + bytes.skip(first).take(
            more as int,
        ));
        assert forall|i: int| 0 <= i < inputs.len() implies (#[trigger] inputs[i]).previous_output.txid.len()
            == TXID_LEN && inputs[i].script_sig.len() <= u64::MAX by {
            if i > 0 {
                assert(inputs[i] == rest[i - 1]);
            }
        }
    }
}

/// Outputs that are read were written so.
pub proof fn lemma_outputs_bytes_of_parse(bytes: Seq<u8>, count: nat)
    requires
        parse_outputs(bytes, count) is Some,
    ensures
        ({
            let (outputs, used) = parse_outputs(bytes, count).unwrap();
            &&& outputs.len() == count
            &&& 0 <= used <= bytes.len()
            &&& outputs_bytes(outputs) == bytes.take(used)
            &&& forall|i: int|
                0 <= i < outputs.len() ==> (#[trigger] outputs[i]).script_pubkey.len() <= u64::MAX
        }),
    decreases count,
{
    let (outputs, used) = parse_outputs(bytes, count).unwrap();
    if count == 0 {
        assert(outputs_bytes(outputs) =~= bytes.take(0));
    } else {
        let (output, first) = parse_output(bytes).unwrap();
        lemma_output_bytes_of_parse(bytes);
        lemma_outputs_bytes_of_parse(bytes.skip(first), (count - 1) as nat);
        let (rest, more) = parse_outputs(bytes.skip(first), (count - 1) as nat).unwrap();
        lemma_outputs_bytes_first(outputs);
        assert(outputs.skip(1) =~= rest);
        assert(bytes.take(used) =~= bytes.take(first as int) + bytes.skip(first).take(
            more as int,
        ));
        assert forall|i: int| 0 <= i < outputs.len() implies (#[trigger] outputs[i]).script_pubkey.len()
            <= u64::MAX by {
            if i > 0 {
                assert(outputs[i] == rest[i - 1]);
            }
        }
    }
}

/// Inputs that were written are read back, whatever follows them.
#[verifier::rlimit(60)]
pub proof fn lemma_parse_inputs_of_bytes(inputs: Seq<TxInView>, rest: Seq<u8>)
    requires
        forall|i: int|
            0 <= i < inputs.len() ==> (#[trigger] inputs[i]).previous_output.txid.len() == TXID_LEN
                && inputs[i].script_sig.len() <= u64::MAX,
    ensures
        parse_inputs(inputs_bytes(inputs) + rest, inputs.len()) == Some(
            (inputs, inputs_bytes(inputs).len() as int),
        ),
    decreases inputs.len(),
{
    if inputs.len() == 0 {
    } else {
        let first = input_bytes(inputs[0]);
        let others = inputs.skip(1);
        lemma_inputs_bytes_first(inputs);
        let bytes = inputs_bytes(inputs) + rest;
        assert(bytes =~= first + (inputs_bytes(others) + rest));
        lemma_parse_input_of_bytes(inputs[0], inputs_bytes(others) + rest);
        assert(bytes.skip(first.len() as int) =~= inputs_bytes(others) + rest);
        assert forall|i: int| 0 <= i < others.len() implies (#[trigger] others[i]).previous_output.txid.len()
            == TXID_LEN && others[i].script_sig.len() <= u64::MAX by {
            assert(others[i] == inputs[i + 1]);
        }
        lemma_parse_inputs_of_bytes(others, rest);
        assert(seq![inputs[0]] + others =~= inputs);
    }
}

/// Outputs that were written are read back, whatever follows them.
#[verifier::rlimit(60)]
pub proof fn lemma_parse_outputs_of_bytes(outputs: Seq<TxOutView>, rest: Seq<u8>)
    requires
        forall|i: int| 0 <= i < outputs.len() ==> (#[trigger] outputs[i]).script_pubkey.len() <= u64::MAX,
    ensures
        parse_outputs(outputs_bytes(outputs) + rest, outputs.len()) == Some(
            (outputs, outputs_bytes(outputs).len() as int),
        ),
    decreases outputs.len(),
{
    if outputs.len() == 0 {
    } else {
        let first = output_bytes(outputs[0]);
        let others = outputs.skip(1);
        lemma_outputs_bytes_first(outputs);
        let bytes = outputs_bytes(outputs) + rest;
        assert(bytes =~= first + (outputs_bytes(others) + rest));
        lemma_parse_output_of_bytes(outputs[0], outputs_bytes(others) + rest);
        assert(bytes.skip(first.len() as int) =~= outputs_bytes(others) + rest);
        assert forall|i: int| 0 <= i < others.len() implies (#[trigger] others[i]).script_pubkey.len()
            <= u64::MAX by {
            assert(others[i] == outputs[i + 1]);
        }
        lemma_parse_outputs_of_bytes(others, rest);
        assert(seq![outputs[0]] + others =~= outputs);
    }
}

/// **Reading what was written.** The serialization of a readable transaction
/// is read back as that transaction.
#[verifier::rlimit(80)]
pub proof fn lemma_parse_of_transaction_bytes(tx: TransactionView)
    requires
        is_readable(tx),
    ensures
        parse_transaction(transaction_bytes(tx)) == Some(tx),
{
    reveal(parse_transaction);
    let bytes = transaction_bytes(tx);
    let version = le_bytes(tx.version as nat, 4);
    let lock_time = le_bytes(tx.lock_time as nat, 4);
    let n_in = compact_size(tx.inputs.len());
    let n_out = compact_size(tx.outputs.len());
    let ins = inputs_bytes(tx.inputs);
    let outs = outputs_bytes(tx.outputs);
    lemma_u32_round_trip(tx.version);
    lemma_u32_round_trip(tx.lock_time);
    assert(bytes.take(4) =~= version);
    let after_version = ins + n_out + outs + lock_time;
    assert(bytes.skip(4) =~= n_in + after_version);
    lemma_parse_compact_size_of(tx.inputs.len(), after_version);
    let k_in = n_in.len() as int;
    let after_inputs = n_out + outs + lock_time;
    assert(bytes.skip(4 + k_in) =~= ins + after_inputs);
    lemma_parse_inputs_of_bytes(tx.inputs, after_inputs);
    let at = 4 + k_in + ins.len();
    let after_count = outs + lock_time;
    assert(bytes.skip(at) =~= n_out + after_count);
    lemma_parse_compact_size_of(tx.outputs.len(), after_count);
    let k_out = n_out.len() as int;
    assert(bytes.skip(at + k_out) =~= outs + lock_time);
    lemma_parse_outputs_of_bytes(tx.outputs, lock_time);
    let end = at + k_out + outs.len();
    assert(bytes.subrange(end, end + 4) =~= lock_time);
}

/// **Writing what was read.** Bytes that are read as a transaction are the
/// serialization of that transaction, which is readable.
#[verifier::rlimit(80)]
pub proof fn lemma_transaction_bytes_of_parse(bytes: Seq<u8>)
    requires
        parse_transaction(bytes) is Some,
    ensures
        transaction_bytes(parse_transaction(bytes).unwrap()) == bytes,
        is_readable(parse_transaction(bytes).unwrap()),
{
    reveal(parse_transaction);
    let tx = parse_transaction(bytes).unwrap();
    let n_in = parse_compact_size(bytes.skip(4)).unwrap().0;
    let k_in = parse_compact_size(bytes.skip(4)).unwrap().1 as int;
    lemma_compact_size_of_parse(bytes.skip(4));
    let (inputs, used_in) = parse_inputs(bytes.skip(4 + k_in), n_in).unwrap();
    lemma_inputs_bytes_of_parse(bytes.skip(4 + k_in), n_in);
    let at = 4 + k_in + used_in;
    let n_out = parse_compact_size(bytes.skip(at)).unwrap().0;
    let k_out = parse_compact_size(bytes.skip(at)).unwrap().1 as int;
    lemma_compact_size_of_parse(bytes.skip(at));
    let (outputs, used_out) = parse_outputs(bytes.skip(at + k_out), n_out).unwrap();
    lemma_outputs_bytes_of_parse(bytes.skip(at + k_out), n_out);
    let end = at + k_out + used_out;
    lemma_u32_canonical(bytes.take(4));
    lemma_u32_canonical(bytes.subrange(end, end + 4));
    assert(bytes.skip(4).take(k_in) =~= bytes.subrange(4, 4 + k_in));
    assert(bytes.skip(4 + k_in).take(used_in) =~= bytes.subrange(4 + k_in, at));
    assert(bytes.skip(at).take(k_out) =~= bytes.subrange(at, at + k_out));
    assert(bytes.skip(at + k_out).take(used_out) =~= bytes.subrange(at + k_out, end));
    assert(transaction_bytes(tx) =~= bytes);
}

} // verus!

verus! {

spec fn after_inputs(
    before: Seq<TxInView>,
    used: int,
    rest: Option<(Seq<TxInView>, int)>,
) -> Option<(Seq<TxInView>, int)> {
    match rest {
        None => None,
        Some((inputs, more)) => Some((before + inputs, used + more)),
    }
}

spec fn after_outputs(
    before: Seq<TxOutView>,
    used: int,
    rest: Option<(Seq<TxOutView>, int)>,
) -> Option<(Seq<TxOutView>, int)> {
    match rest {
        None => None,
        Some((outputs, more)) => Some((before + outputs, used + more)),
    }
}

/// Reads the input at `at`: the input and the place after it.
fn read_input(bytes: &[u8], at: usize) -> (r: Option<(TxIn, usize)>)
    requires
        at <= bytes@.len(),
    ensures
        match parse_input(bytes@.skip(at as int)) {
            Some((input, used)) => r is Some && r.unwrap().0@ == input && r.unwrap().1 == at + used
                && at + used <= bytes@.len() && used >= 41,
            None => r is None,
        },
{
    let total = bytes.len();
    let ghost tail = bytes@.skip(at as int);
    if total - at < 36 {
        return None;
    }
    assert(tail.skip(36) =~= bytes@.skip(at + 36));
    let (n, k) = match read_compact_size(bytes, at + 36) {
        None => {
            return None;
        },
        Some(size) => size,
    };
    let start = at + 36 + k;
    let left = total - start;
    if left < 4 || n > (left - 4) as u64 {
        return None;
    }
    let end = start + n as usize;
    let txid = copy_bytes(vstd::slice::slice_subrange(bytes, at, at + 32));
    let vout = read_u32_le(bytes, at + 32);
    let script_sig = copy_bytes(vstd::slice::slice_subrange(bytes, start, end));
    let sequence = read_u32_le(bytes, end);
    proof {
        assert(tail.take(32) =~= bytes@.subrange(at as int, at + 32));
        assert(tail.subrange(32, 36) =~= bytes@.subrange(at + 32, at + 36));
        assert(tail.subrange(36 + k as int, 36 + k as int + n as int) =~= bytes@.subrange(
            start as int,
            end as int,
        ));
        assert(tail.subrange(36 + k as int + n as int, 36 + k as int + n as int + 4)
            =~= bytes@.subrange(end as int, end + 4));
    }
    Some(
        (
            TxIn {
                previous_output: OutPoint { txid, vout: vout as u32 },
                script_sig,
                sequence: sequence as u32,
            },
            end + 4,
        ),
    )
}

/// Reads the output at `at`: the output and the place after it.
fn read_output(bytes: &[u8], at: usize) -> (r: Option<(TxOut, usize)>)
    requires
        at <= bytes@.len(),
    ensures
        match parse_output(bytes@.skip(at as int)) {
            Some((output, used)) => r is Some && r.unwrap().0@ == output && r.unwrap().1 == at
                + used && at + used <= bytes@.len() && used >= 9,
            None => r is None,
        },
{
    let total = bytes.len();
    let ghost tail = bytes@.skip(at as int);
    if total - at < 8 {
        return None;
    }
    assert(tail.skip(8) =~= bytes@.skip(at + 8));
    let (n, k) = match read_compact_size(bytes, at + 8) {
        None => {
            return None;
        },
        Some(size) => size,
    };
    let start = at + 8 + k;
    let left = total - start;
    if n > left as u64 {
        return None;
    }
    let end = start + n as usize;
    let value = read_u64_le(bytes, at);
    let script_pubkey = copy_bytes(vstd::slice::slice_subrange(bytes, start, end));
    proof {
        assert(tail.take(8) =~= bytes@.subrange(at as int, at + 8));
        assert(tail.subrange(8 + k as int, 8 + k as int + n as int) =~= bytes@.subrange(
            start as int,
            end as int,
        ));
    }
    Some((TxOut { value, script_pubkey }, end))
}

impl Transaction {
    /// Reads a transaction in the legacy serialization; `None` where `bytes`
    /// are not the serialization of a transaction with at least one input.
    pub fn parse(bytes: &[u8]) -> (r: Option<Transaction>)
        ensures
            match parse_transaction(bytes@) {
                Some(tx) => r is Some && r.unwrap()@ == tx,
                None => r is None,
            },
    {
        proof {
            reveal(parse_transaction);
        }
        let total = bytes.len();
        if total < 4 {
            return None;
        }
        let version = read_u32_le(bytes, 0);
        assert(bytes@.take(4) =~= bytes@.subrange(0, 4));
        let (n_in, k_in) = match read_compact_size(bytes, 4) {
            None => {
                return None;
            },
            Some(size) => size,
        };
        if n_in == 0 {
            return None;
        }
        let first_input = 4 + k_in;
        let mut inputs: Vec<TxIn> = Vec::new();
        let mut pos: usize = first_input;
        let mut done: u64 = 0;
        let ghost all_inputs = parse_inputs(bytes@.skip(first_input as int), n_in as nat);
        assert(inputs@.map_values(|input: TxIn| input@) =~= Seq::<TxInView>::empty());
        assert(after_inputs(
            Seq::empty(),
            0,
            parse_inputs(bytes@.skip(first_input as int), n_in as nat),
        ) == all_inputs) by {
            if all_inputs is Some {
                assert(Seq::<TxInView>::empty() + all_inputs.unwrap().0 =~= all_inputs.unwrap().0);
            }
        }
        while done < n_in
            invariant
                done <= n_in,
                n_in > 0,
                bytes@.len() >= 4,
                parse_compact_size(bytes@.skip(4)) == Some((n_in as nat, k_in as nat)),
                first_input == 4 + k_in,
                first_input <= pos <= bytes@.len(),
                all_inputs == parse_inputs(bytes@.skip(first_input as int), n_in as nat),
                after_inputs(
                    inputs@.map_values(|input: TxIn| input@),
                    pos - first_input,
                    parse_inputs(bytes@.skip(pos as int), (n_in - done) as nat),
                ) == all_inputs,
            decreases n_in - done,
        {
            let ghost before = inputs@.map_values(|input: TxIn| input@);
            let (input, next) = match read_input(bytes, pos) {
                None => {
                    proof {
                        reveal(parse_transaction);
                    }
                    return None;
                },
                Some(read) => read,
            };
            proof {
                let used = next - pos;
                assert(bytes@.skip(pos as int).skip(used) =~= bytes@.skip(next as int));
                let rest = parse_inputs(bytes@.skip(next as int), (n_in - done - 1) as nat);
                if rest is Some {
                    assert(before.push(input@) + rest.unwrap().0 =~= before + (seq![input@]
                        + rest.unwrap().0));
                }
            }
            inputs.push(input);
            assert(inputs@.map_values(|input: TxIn| input@) =~= before.push(input@));
            pos = next;
            done += 1;
        }
        proof {
            let views = inputs@.map_values(|input: TxIn| input@);
            assert(views + Seq::<TxInView>::empty() =~= views);
        }
        let (n_out, k_out) = match read_compact_size(bytes, pos) {
            None => {
                return None;
            },
            Some(size) => size,
        };
        let first_output = pos + k_out;
        let ghost input_views = inputs@.map_values(|input: TxIn| input@);
        let ghost inputs_end = pos;
        let mut outputs: Vec<TxOut> = Vec::new();
        let mut at: usize = first_output;
        let mut read: u64 = 0;
        let ghost all_outputs = parse_outputs(bytes@.skip(first_output as int), n_out as nat);
        assert(outputs@.map_values(|output: TxOut| output@) =~= Seq::<TxOutView>::empty());
        assert(after_outputs(
            Seq::empty(),
            0,
            parse_outputs(bytes@.skip(first_output as int), n_out as nat),
        ) == all_outputs) by {
            if all_outputs is Some {
                assert(Seq::<TxOutView>::empty() + all_outputs.unwrap().0
                    =~= all_outputs.unwrap().0);
            }
        }
        while read < n_out
            invariant
                read <= n_out,
                n_in > 0,
                bytes@.len() >= 4,
                parse_compact_size(bytes@.skip(4)) == Some((n_in as nat, k_in as nat)),
                first_input == 4 + k_in,
                parse_inputs(bytes@.skip(first_input as int), n_in as nat) == Some(
                    (input_views, inputs_end - first_input),
                ),
                parse_compact_size(bytes@.skip(inputs_end as int)) == Some(
                    (n_out as nat, k_out as nat),
                ),
                first_output == inputs_end + k_out,
                first_output <= at <= bytes@.len(),
                all_outputs == parse_outputs(bytes@.skip(first_output as int), n_out as nat),
                after_outputs(
                    outputs@.map_values(|output: TxOut| output@),
                    at - first_output,
                    parse_outputs(bytes@.skip(at as int), (n_out - read) as nat),
                ) == all_outputs,
            decreases n_out - read,
        {
            let ghost before = outputs@.map_values(|output: TxOut| output@);
            let (output, next) = match read_output(bytes, at) {
                None => {
                    proof {
                        reveal(parse_transaction);
                    }
                    return None;
                },
                Some(found) => found,
            };
            proof {
                let used = next - at;
                assert(bytes@.skip(at as int).skip(used) =~= bytes@.skip(next as int));
                let rest = parse_outputs(bytes@.skip(next as int), (n_out - read - 1) as nat);
                if rest is Some {
                    assert(before.push(output@) + rest.unwrap().0 =~= before + (seq![output@]
                        + rest.unwrap().0));
                }
            }
            outputs.push(output);
            assert(outputs@.map_values(|output: TxOut| output@) =~= before.push(output@));
            at = next;
            read += 1;
        }
        proof {
            let views = outputs@.map_values(|output: TxOut| output@);
            assert(views + Seq::<TxOutView>::empty() =~= views);
        }
        if total - at != 4 {
            return None;
        }
        let lock_time = read_u32_le(bytes, at);
        Some(
            Transaction { version: version as u32, inputs, outputs, lock_time: lock_time as u32 },
        )
    }
}

} // verus!
