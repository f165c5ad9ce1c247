//! Coin selection: branch and bound for a selection that needs no change
//! output, and largest first where there is none.
//!
//! The size of a transaction is estimated as 10 virtual bytes, 297 for each
//! input and 34 for each output. An input is a candidate only if it is worth
//! more than the fee it costs. Candidates are ranked by value, the larger
//! first, and among equal values in the order of the index.

use vstd::prelude::*;
use crate::error::InsufficientFunds;

verus! {

pub const BASE_VBYTES: u64 = 10;

pub const INPUT_VBYTES: u64 = 297;

pub const OUTPUT_VBYTES: u64 = 34;

/// An output below this many satoshis is not relayed.
pub const DUST_THRESHOLD: u64 = 546;

/// The estimated size of a transaction in virtual bytes.
pub open spec fn estimated_vbytes(inputs: nat, outputs: nat) -> nat {
    BASE_VBYTES as nat + INPUT_VBYTES as nat * inputs + OUTPUT_VBYTES as nat * outputs
}

/// The fee of a transaction of the estimated size at `fee_rate` satoshis per
/// virtual byte.
pub open spec fn fee_for(inputs: nat, outputs: nat, fee_rate: nat) -> nat {
    estimated_vbytes(inputs, outputs) * fee_rate
}

/// Whether the value at `i` comes before the value at `j`: the larger first,
/// equal values in the order of the index.
pub open spec fn outranks(values: Seq<u64>, i: int, j: int) -> bool {
    values[i] > values[j] || (values[i] == values[j] && i < j)
}

/// Whether `order` lists every index of `values` once, each before all those
/// it outranks.
pub open spec fn is_ranking(order: Seq<usize>, values: Seq<u64>) -> bool {
    &&& order.len() == values.len()
    &&& forall|p: int| 0 <= p < order.len() ==> (#[trigger] order[p]) < values.len()
    &&& forall|p: int, q: int|
        0 <= p < q < order.len() ==> outranks(values, #[trigger] order[p] as int, #[trigger] order[q] as int)
    &&& forall|i: usize| i < values.len() ==> #[trigger] order.contains(i)
}

proof fn lemma_ranking_agrees_at(a: Seq<usize>, b: Seq<usize>, values: Seq<u64>, p: int)
    requires
        is_ranking(a, values),
        is_ranking(b, values),
        0 <= p < values.len(),
    ensures
        a[p] == b[p],
    decreases p,
{
    assert forall|k: int| 0 <= k < p implies a[k] == b[k] by {
        lemma_ranking_agrees_at(a, b, values, k);
    }
    let x = a[p] as int;
    let y = b[p] as int;
    assert(b.contains(a[p]));
    assert(a.contains(b[p]));
    let q = choose|q: int| 0 <= q < b.len() && b[q] == a[p];
    let r = choose|r: int| 0 <= r < a.len() && a[r] == b[p];
    if q < p {
        assert(a[q] == b[q]);
        assert(outranks(values, a[q] as int, a[p] as int));
    }
    if r < p {
        assert(b[r] == a[r]);
        assert(outranks(values, b[r] as int, b[p] as int));
    }
    if q > p {
        assert(outranks(values, b[p] as int, b[q] as int));
    }
    if r > p {
        assert(outranks(values, a[p] as int, a[r] as int));
    }
}

/// A list of values has one ranking only.
pub proof fn lemma_ranking_unique(a: Seq<usize>, b: Seq<usize>, values: Seq<u64>)
    requires
        is_ranking(a, values),
        is_ranking(b, values),
    ensures
        a == b,
{
    assert forall|p: int| 0 <= p < a.len() implies a[p] == b[p] by {
        lemma_ranking_agrees_at(a, b, values, p);
    }
    assert(a =~= b);
}

/// The ranking of `values`.
pub fn rank_by_value(values: &Vec<u64>) -> (order: Vec<usize>)
    ensures
        is_ranking(order@, values@),
{
    let mut order: Vec<usize> = Vec::new();
    let mut i: usize = 0;
    while i < values.len()
        invariant
            i <= values@.len(),
            order@.len() == i,
            forall|p: int| 0 <= p < order@.len() ==> (#[trigger] order@[p]) < i,
            forall|p: int, q: int|
                0 <= p < q < order@.len() ==> outranks(
                    values@,
                    #[trigger] order@[p] as int,
                    #[trigger] order@[q] as int,
                ),
            forall|k: usize| k < i ==> #[trigger] order@.contains(k),
        decreases values@.len() - i,
    {
        let mut at: usize = 0;
        while at < order.len() && values[order[at]] >= values[i]
            invariant
                at <= order@.len(),
                order@.len() == i,
                i < values@.len(),
                forall|p: int| 0 <= p < order@.len() ==> (#[trigger] order@[p]) < i,
                forall|p: int| 0 <= p < at ==> values@[(#[trigger] order@[p]) as int] >= values@[i as int],
            decreases order@.len() - at,
        {
            at += 1;
        }
        let ghost before = order@;
        order.insert(at, i);
        proof {
            assert forall|p: int, q: int| 0 <= p < q < order@.len() implies outranks(
                values@,
                #[trigger] order@[p] as int,
                #[trigger] order@[q] as int,
            ) by {
                if q < at {
                    assert(order@[p] == before[p] && order@[q] == before[q]);
                } else if q == at {
                    assert(order@[p] == before[p]);
                } else if p < at {
                    assert(order@[p] == before[p] && order@[q] == before[q - 1]);
                } else if p == at {
                    assert(order@[q] == before[q - 1]);
                    if q - 1 > at {
                        assert(outranks(values@, before[at as int] as int, before[q - 1] as int));
                    }
                } else {
                    assert(order@[p] == before[p - 1] && order@[q] == before[q - 1]);
                }
            }
            assert forall|k: usize| k < i + 1 implies #[trigger] order@.contains(k) by {
                if k == i {
                    assert(order@[at as int] == k);
                } else {
                    assert(before.contains(k));
                    let p0 = choose|p: int| 0 <= p < before.len() && before[p] == k;
                    if p0 < at {
                        assert(order@[p0] == k);
                    } else {
                        assert(order@[p0 + 1] == k);
                    }
                }
            }
        }
        i += 1;
    }
    order
}

} // verus!

verus! {

/// The values as mathematical integers.
pub open spec fn as_ints(values: Seq<u64>) -> Seq<int> {
    values.map_values(|v: u64| v as int)
}

/// The sum of `items` from position `from` on.
pub open spec fn sum_from(items: Seq<int>, from: int) -> int
    decreases items.len() - from,
{
    if 0 <= from < items.len() {
        items[from] + sum_from(items, from + 1)
    } else {
        0
    }
}

/// The sum of the first `count` of `items`.
pub open spec fn sum_first(items: Seq<int>, count: int) -> int
    decreases count,
{
    if 0 < count <= items.len() {
        sum_first(items, count - 1) + items[count - 1]
    } else {
        0
    }
}

/// The number of candidates: the leading positions of the ranking, from
/// `from` on, whose value is more than the fee of an input.
pub open spec fn candidate_count(values: Seq<u64>, order: Seq<usize>, input_fee: int, from: int) -> int
    decreases order.len() - from,
{
    if 0 <= from < order.len() && values[order[from] as int] > input_fee {
        candidate_count(values, order, input_fee, from + 1)
    } else {
        from
    }
}

/// What each candidate adds once its own fee is paid, in the order of the
/// ranking.
pub open spec fn effective_values(values: Seq<u64>, order: Seq<usize>, input_fee: int) -> Seq<int> {
    Seq::new(
        candidate_count(values, order, input_fee, 0) as nat,
        |p: int| values[order[p] as int] - input_fee,
    )
}

/// Branch and bound over the candidates from `pos` on, with `acc` collected so
/// far: the first choice, trying to take a candidate before trying to leave
/// it, that takes at least one candidate and collects at least `lo` and less
/// than `hi`. `any` says whether a candidate before `pos` was taken.
pub open spec fn changeless_pick(
    effs: Seq<int>,
    pos: int,
    acc: int,
    lo: int,
    hi: int,
    any: bool,
) -> Option<Seq<bool>>
    decreases effs.len() - pos,
{
    if pos < 0 || pos >= effs.len() {
        if any && lo <= acc < hi {
            Some(Seq::empty())
        } else {
            None
        }
    } else {
        match changeless_pick(effs, pos + 1, acc + effs[pos], lo, hi, true) {
            Some(rest) => Some(seq![true] + rest),
            None => match changeless_pick(effs, pos + 1, acc, lo, hi, any) {
                Some(rest) => Some(seq![false] + rest),
                None => None,
            },
        }
    }
}

/// Largest first: the least number of leading candidates, one at least, that
/// collect `need`; `acc` is what the first `count` collect.
pub open spec fn covering_count(effs: Seq<int>, count: int, acc: int, need: int) -> Option<int>
    decreases effs.len() - count,
{
    if count >= 1 && acc >= need {
        Some(count)
    } else if count < 0 || count >= effs.len() {
        None
    } else {
        covering_count(effs, count + 1, acc + effs[count], need)
    }
}

/// The entries of `order` at the positions that `pick` takes.
pub open spec fn picked(order: Seq<usize>, pick: Seq<bool>) -> Seq<usize>
    decreases pick.len(),
{
    if pick.len() == 0 {
        Seq::empty()
    } else if pick.last() {
        picked(order, pick.drop_last()).push(order[pick.len() - 1])
    } else {
        picked(order, pick.drop_last())
    }
}

/// The number, or the largest `u64` where it is larger.
pub open spec fn clip(n: int) -> u64 {
    if n > u64::MAX {
        u64::MAX
    } else if n < 0 {
        0
    } else {
        n as u64
    }
}

/// The inputs to spend, as indices into the list of values, and what is left
/// for a change output; 0 where there is none.
#[derive(Debug)]
pub struct Selection {
    pub inputs: Vec<usize>,
    pub change: u64,
}

pub struct SelectionView {
    pub inputs: Seq<usize>,
    pub change: int,
}

impl View for Selection {
    type V = SelectionView;

    open spec fn view(&self) -> SelectionView {
        SelectionView { inputs: self.inputs@, change: self.change as int }
    }
}

/// The selection for `target` at `fee_rate`, over `values` ranked by `order`.
///
/// A selection that needs no change output is preferred: one that collects,
/// after the fee of one output and of its inputs, the target and less than the
/// dust threshold more; the surplus goes to the fee. Where there is none, the
/// largest candidates are taken until the target is covered, and what is left
/// after the fee of a second output is the change, unless it is dust.
pub open spec fn select_ranked(values: Seq<u64>, order: Seq<usize>, target: u64, fee_rate: u64) -> Result<
    SelectionView,
    InsufficientFunds,
> {
    let effs = effective_values(values, order, INPUT_VBYTES * fee_rate);
    let need = target + fee_for(0, 1, fee_rate as nat);
    match changeless_pick(effs, 0, 0, need, need + DUST_THRESHOLD, false) {
        Some(pick) => Ok(SelectionView { inputs: picked(order, pick), change: 0 }),
        None => match covering_count(effs, 0, 0, need) {
            None => Err(
                InsufficientFunds {
                    requested: clip(target + fee_for(effs.len(), 1, fee_rate as nat)),
                    available: clip(sum_from(as_ints(values), 0)),
                },
            ),
            Some(count) => {
                let left = sum_first(effs, count) - need - OUTPUT_VBYTES * fee_rate;
                Ok(
                    SelectionView {
                        inputs: order.take(count),
                        change: if left >= DUST_THRESHOLD {
                            left
                        } else {
                            0
                        },
                    },
                )
            },
        },
    }
}

/// Once `hi` is reached, no choice of further candidates stays below it.
proof fn lemma_overshoot(effs: Seq<int>, pos: int, acc: int, lo: int, hi: int, any: bool)
    requires
        0 <= pos <= effs.len(),
        acc >= hi,
        forall|p: int| 0 <= p < effs.len() ==> effs[p] >= 0,
    ensures
        changeless_pick(effs, pos, acc, lo, hi, any) is None,
    decreases effs.len() - pos,
{
    if pos < effs.len() {
        lemma_overshoot(effs, pos + 1, acc + effs[pos], lo, hi, true);
        lemma_overshoot(effs, pos + 1, acc, lo, hi, any);
    }
}

/// Where all further candidates together do not reach `lo`, no choice does.
proof fn lemma_shortfall(effs: Seq<int>, pos: int, acc: int, lo: int, hi: int, any: bool)
    requires
        0 <= pos <= effs.len(),
        acc + sum_from(effs, pos) < lo,
        forall|p: int| 0 <= p < effs.len() ==> effs[p] >= 0,
    ensures
        changeless_pick(effs, pos, acc, lo, hi, any) is None,
    decreases effs.len() - pos,
{
    if pos < effs.len() {
        lemma_sum_from_nonnegative(effs, pos + 1);
        lemma_shortfall(effs, pos + 1, acc + effs[pos], lo, hi, true);
        lemma_shortfall(effs, pos + 1, acc, lo, hi, any);
    }
}

proof fn lemma_sum_from_nonnegative(effs: Seq<int>, pos: int)
    requires
        forall|p: int| 0 <= p < effs.len() ==> effs[p] >= 0,
    ensures
        sum_from(effs, pos) >= 0,
    decreases effs.len() - pos,
{
    if 0 <= pos < effs.len() {
        lemma_sum_from_nonnegative(effs, pos + 1);
    }
}

proof fn lemma_sum_from_bound(values: Seq<u64>, pos: int)
    requires
        0 <= pos <= values.len(),
    ensures
        0 <= sum_from(as_ints(values), pos) <= (values.len() - pos) * u64::MAX,
    decreases values.len() - pos,
{
    if pos < values.len() {
        lemma_sum_from_bound(values, pos + 1);
        assert((values.len() - pos) * u64::MAX == (values.len() - pos - 1) * u64::MAX + u64::MAX)
            by (nonlinear_arith);
    }
}

/// The sum of `values`, which fits in 128 bits.
fn total(values: &Vec<u64>) -> (sum: u128)
    ensures
        sum == sum_from(as_ints(values@), 0),
{
    let mut sum: u128 = 0;
    let mut i: usize = values.len();
    while i > 0
        invariant
            i <= values@.len() <= usize::MAX,
            sum == sum_from(as_ints(values@), i as int),
        decreases i,
    {
        proof {
            lemma_sum_from_bound(values@, i as int);
            assert((values@.len() - i) * u64::MAX <= usize::MAX * u64::MAX) by (nonlinear_arith)
                requires
                    0 <= values@.len() - i <= usize::MAX,
            ;
        }
        i -= 1;
        sum = sum + values[i] as u128;
    }
    sum
}

fn search(effs: &Vec<u64>, pos: usize, acc: u128, rest: u128, lo: u128, hi: u128, any: bool) -> (r:
    Option<Vec<bool>>)
    requires
        pos <= effs@.len(),
        rest == sum_from(as_ints(effs@), pos as int),
        acc + rest <= u128::MAX,
    ensures
        match changeless_pick(as_ints(effs@), pos as int, acc as int, lo as int, hi as int, any) {
            Some(pick) => r is Some && r.unwrap()@ == pick,
            None => r is None,
        },
    decreases effs@.len() - pos,
{
    if acc >= hi {
        proof {
            lemma_overshoot(as_ints(effs@), pos as int, acc as int, lo as int, hi as int, any);
        }
        return None;
    }
    if acc + rest < lo {
        proof {
            lemma_shortfall(as_ints(effs@), pos as int, acc as int, lo as int, hi as int, any);
        }
        return None;
    }
    if pos == effs.len() {
        if any && lo <= acc {
            return Some(Vec::new());
        } else {
            return None;
        }
    }
    let eff = effs[pos] as u128;
    proof {
        lemma_sum_from_nonnegative(as_ints(effs@), pos + 1);
    }
    match search(effs, pos + 1, acc + eff, rest - eff, lo, hi, true) {
        Some(mut pick) => {
            let ghost tail = pick@;
            pick.insert(0, true);
            assert(pick@ =~= seq![true] + tail);
            Some(pick)
        },
        None => match search(effs, pos + 1, acc, rest - eff, lo, hi, any) {
            Some(mut pick) => {
                let ghost tail = pick@;
                pick.insert(0, false);
                assert(pick@ =~= seq![false] + tail);
                Some(pick)
            },
            None => None,
        },
    }
}

} // verus!

verus! {

/// A choice says of every candidate from `pos` on whether it is taken.
pub proof fn lemma_pick_len(effs: Seq<int>, pos: int, acc: int, lo: int, hi: int, any: bool)
    requires
        0 <= pos <= effs.len(),
        changeless_pick(effs, pos, acc, lo, hi, any) is Some,
    ensures
        changeless_pick(effs, pos, acc, lo, hi, any).unwrap().len() == effs.len() - pos,
    decreases effs.len() - pos,
{
    if pos < effs.len() {
        if changeless_pick(effs, pos + 1, acc + effs[pos], lo, hi, true) is Some {
            lemma_pick_len(effs, pos + 1, acc + effs[pos], lo, hi, true);
        } else {
            lemma_pick_len(effs, pos + 1, acc, lo, hi, any);
        }
    }
}

/// What each candidate is worth after its own fee, in the order of the ranking.
fn candidates(values: &Vec<u64>, order: &Vec<usize>, fee_rate: u64) -> (effs: Vec<u64>)
    requires
        is_ranking(order@, values@),
    ensures
        as_ints(effs@) == effective_values(values@, order@, INPUT_VBYTES * fee_rate),
        effs@.len() <= order@.len(),
{
    let input_fee: u128 = INPUT_VBYTES as u128 * fee_rate as u128;
    let mut effs: Vec<u64> = Vec::new();
    let mut p: usize = 0;
    while p < order.len() && values[order[p]] as u128 > input_fee
        invariant
            p <= order@.len(),
            is_ranking(order@, values@),
            input_fee == INPUT_VBYTES * fee_rate,
            effs@.len() == p,
            candidate_count(values@, order@, input_fee as int, p as int) == candidate_count(
                values@,
                order@,
                input_fee as int,
                0,
            ),
            forall|q: int|
                0 <= q < p ==> (#[trigger] effs@[q]) as int == values@[order@[q] as int] - input_fee,
        decreases order@.len() - p,
    {
        effs.push((values[order[p]] as u128 - input_fee) as u64);
        p += 1;
    }
    assert(as_ints(effs@) =~= effective_values(values@, order@, INPUT_VBYTES * fee_rate));
    effs
}

/// The entries of `order` that `pick` takes.
fn gather(order: &Vec<usize>, pick: &Vec<bool>) -> (inputs: Vec<usize>)
    requires
        pick@.len() <= order@.len(),
    ensures
        inputs@ == picked(order@, pick@),
{
    let mut inputs: Vec<usize> = Vec::new();
    let mut p: usize = 0;
    assert(pick@.take(0) =~= Seq::<bool>::empty());
    while p < pick.len()
        invariant
            p <= pick@.len() <= order@.len(),
            inputs@ == picked(order@, pick@.take(p as int)),
        decreases pick@.len() - p,
    {
        assert(pick@.take(p + 1).drop_last() =~= pick@.take(p as int));
        if pick[p] {
            inputs.push(order[p]);
        }
        p += 1;
    }
    assert(pick@.take(pick@.len() as int) =~= pick@);
    inputs
}

/// The first `count` entries of `order`.
fn leading(order: &Vec<usize>, count: usize) -> (inputs: Vec<usize>)
    requires
        count <= order@.len(),
    ensures
        inputs@ == order@.take(count as int),
{
    let mut inputs: Vec<usize> = Vec::new();
    let mut p: usize = 0;
    while p < count
        invariant
            p <= count <= order@.len(),
            inputs@ == order@.take(p as int),
        decreases count - p,
    {
        inputs.push(order[p]);
        assert(inputs@ =~= order@.take(p + 1));
        p += 1;
    }
    inputs
}

fn clip_to_u64(n: u128) -> (r: u64)
    ensures
        r == clip(n as int),
{
    if n > u64::MAX as u128 {
        u64::MAX
    } else {
        n as u64
    }
}

/// The target with the fee of a transaction of `inputs` inputs and one
/// output, clipped.
fn requested_amount(target: u64, inputs: usize, fee_rate: u64) -> (r: u64)
    ensures
        r == clip(target + fee_for(inputs as nat, 1, fee_rate as nat)),
{
    let vbytes: u128 = 44 + 297 * (inputs as u128);
    assert(vbytes == estimated_vbytes(inputs as nat, 1));
    match vbytes.checked_mul(fee_rate as u128) {
        None => u64::MAX,
        Some(fee) => match fee.checked_add(target as u128) {
            None => u64::MAX,
            Some(sum) => clip_to_u64(sum),
        },
    }
}

/// Selects coins over values that are ranked already.
pub fn select_coins_ranked(values: &Vec<u64>, order: &Vec<usize>, target: u64, fee_rate: u64) -> (r:
    Result<Selection, InsufficientFunds>)
    requires
        is_ranking(order@, values@),
    ensures
        match select_ranked(values@, order@, target, fee_rate) {
            Ok(selection) => r is Ok && r.unwrap()@ == selection,
            Err(e) => r is Err && r.unwrap_err() == e,
        },
{
    let effs = candidates(values, order, fee_rate);
    let ghost ints = as_ints(effs@);
    let need: u128 = target as u128 + 44 * (fee_rate as u128);
    assert(need == target + fee_for(0, 1, fee_rate as nat));
    let rest = total(&effs);
    proof {
        lemma_sum_from_bound(effs@, 0);
        assert(effs@.len() * u64::MAX <= usize::MAX * u64::MAX) by (nonlinear_arith)
            requires
                0 <= effs@.len() <= usize::MAX,
        ;
    }
    match search(&effs, 0, 0, rest, need, need + DUST_THRESHOLD as u128, false) {
        Some(pick) => {
            proof {
                lemma_pick_len(ints, 0, 0, need as int, need + DUST_THRESHOLD, false);
            }
            let inputs = gather(order, &pick);
            Ok(Selection { inputs, change: 0 })
        },
        None => {
            let mut count: usize = 0;
            let mut acc: u128 = 0;
            while !(count >= 1 && acc >= need) && count < effs.len()
                invariant
                    count <= effs@.len() <= usize::MAX,
                    ints == as_ints(effs@),
                    acc == sum_first(ints, count as int),
                    acc <= count * u64::MAX,
                    covering_count(ints, count as int, acc as int, need as int) == covering_count(
                        ints,
                        0,
                        0,
                        need as int,
                    ),
                    count >= 2 ==> acc - ints[count - 1] < need,
                decreases effs@.len() - count,
            {
                proof {
                    assert((count + 1) * u64::MAX == count * u64::MAX + u64::MAX)
                        by (nonlinear_arith);
                    assert((count + 1) * u64::MAX <= usize::MAX * u64::MAX) by (nonlinear_arith)
                        requires
                            0 <= count + 1 <= usize::MAX,
                    ;
                }
                acc = acc + effs[count] as u128;
                count += 1;
            }
            if count >= 1 && acc >= need {
                let inputs = leading(order, count);
                let second_output: u128 = OUTPUT_VBYTES as u128 * fee_rate as u128;
                let spare = acc - need;
                assert(spare <= u64::MAX) by {
                    if count == 1 {
                        assert(sum_first(ints, 0) == 0);
                    }
                }
                let change: u64 = if spare >= second_output && spare - second_output
                    >= DUST_THRESHOLD as u128 {
                    (spare - second_output) as u64
                } else {
                    0
                };
                Ok(Selection { inputs, change })
            } else {
                let available = clip_to_u64(total(values));
                Err(
                    InsufficientFunds {
                        requested: requested_amount(target, effs.len(), fee_rate),
                        available,
                    },
                )
            }
        },
    }
}

/// The ranking of `values`; there is one, and one only.
pub open spec fn ranking(values: Seq<u64>) -> Seq<usize> {
    choose|order: Seq<usize>| is_ranking(order, values)
}

/// The selection for `target` at `fee_rate`: that of `select_ranked` over
/// the ranking of `values`.
pub open spec fn select(values: Seq<u64>, target: u64, fee_rate: u64) -> Result<
    SelectionView,
    InsufficientFunds,
> {
    select_ranked(values, ranking(values), target, fee_rate)
}

/// The inputs of a selection are candidates of the ranking: indices into the
/// list of values.
pub proof fn lemma_picked_in_range(order: Seq<usize>, pick: Seq<bool>, bound: nat)
    requires
        pick.len() <= order.len(),
        forall|p: int| 0 <= p < order.len() ==> (#[trigger] order[p]) < bound,
    ensures
        forall|t: int| 0 <= t < picked(order, pick).len() ==> (#[trigger] picked(order, pick)[t]) < bound,
    decreases pick.len(),
{
    if pick.len() > 0 {
        lemma_picked_in_range(order, pick.drop_last(), bound);
        let before = picked(order, pick.drop_last());
        let now = picked(order, pick);
        assert forall|t: int| 0 <= t < now.len() implies (#[trigger] now[t]) < bound by {
            if t < before.len() {
                assert(now[t] == before[t]);
            } else {
                assert(now[t] == order[pick.len() - 1]);
            }
        }
    }
}

/// Selects the coins to spend for `target` at `fee_rate` satoshis per virtual
/// byte.
pub fn select_coins(values: &Vec<u64>, target: u64, fee_rate: u64) -> (r: Result<
    Selection,
    InsufficientFunds,
>)
    ensures
        match select(values@, target, fee_rate) {
            Ok(selection) => r is Ok && r.unwrap()@ == selection,
            Err(e) => r is Err && r.unwrap_err() == e,
        },
        r is Ok ==> forall|t: int|
            0 <= t < r.unwrap().inputs@.len() ==> (#[trigger] r.unwrap().inputs@[t]) < values@.len(),
{
    let order = rank_by_value(values);
    proof {
        lemma_ranking_unique(order@, ranking(values@), values@);
    }
    let r = select_coins_ranked(values, &order, target, fee_rate);
    proof {
        if r is Ok {
            let effs = effective_values(values@, order@, INPUT_VBYTES * fee_rate);
            let need = target + fee_for(0, 1, fee_rate as nat);
            lemma_candidate_count(values@, order@, INPUT_VBYTES * fee_rate, 0);
            match changeless_pick(effs, 0, 0, need, need + DUST_THRESHOLD, false) {
                Some(pick) => {
                    lemma_pick_len(effs, 0, 0, need, need + DUST_THRESHOLD, false);
                    lemma_picked_in_range(order@, pick, values@.len());
                },
                None => {
                    lemma_covering_count(effs, 0, 0, need);
                },
            }
        }
    }
    r
}

/// The candidates are leading positions of the ranking.
pub proof fn lemma_candidate_count(values: Seq<u64>, order: Seq<usize>, input_fee: int, from: int)
    requires
        0 <= from <= order.len(),
    ensures
        from <= candidate_count(values, order, input_fee, from) <= order.len(),
        forall|p: int|
            from <= p < candidate_count(values, order, input_fee, from) ==> values[(
            #[trigger] order[p]) as int] > input_fee,
    decreases order.len() - from,
{
    if from < order.len() && values[order[from] as int] > input_fee {
        lemma_candidate_count(values, order, input_fee, from + 1);
    }
}

/// Largest first takes at least one candidate, no more than there are, and
/// what it takes covers the need.
pub proof fn lemma_covering_count(effs: Seq<int>, count: int, acc: int, need: int)
    requires
        0 <= count <= effs.len(),
        acc == sum_first(effs, count),
        covering_count(effs, count, acc, need) is Some,
    ensures
        ({
            let k = covering_count(effs, count, acc, need).unwrap();
            &&& count <= k <= effs.len()
            &&& 1 <= k
            &&& sum_first(effs, k) >= need
            &&& k >= 2 && k > count ==> sum_first(effs, k - 1) < need
        }),
    decreases effs.len() - count,
{
    if count >= 1 && acc >= need {
    } else if count < effs.len() {
        lemma_covering_count(effs, count + 1, acc + effs[count], need);
    }
}

} // verus!

verus! {

/// What the candidates that `choice` takes collect.
pub open spec fn chosen_sum(effs: Seq<int>, choice: Seq<bool>) -> int
    decreases choice.len(),
{
    if choice.len() == 0 {
        0
    } else if choice.last() {
        chosen_sum(effs, choice.drop_last()) + effs[choice.len() - 1]
    } else {
        chosen_sum(effs, choice.drop_last())
    }
}

/// Whether `choice` says of every candidate whether it is taken, takes one
/// at least, and collects at least `lo` and less than `hi`.
pub open spec fn is_changeless(effs: Seq<int>, choice: Seq<bool>, lo: int, hi: int) -> bool {
    &&& choice.len() == effs.len()
    &&& choice.contains(true)
    &&& lo <= chosen_sum(effs, choice) < hi
}

proof fn lemma_pick_sound_from(
    effs: Seq<int>,
    pos: int,
    acc: int,
    lo: int,
    hi: int,
    any: bool,
    before: Seq<bool>,
)
    requires
        0 <= pos <= effs.len(),
        before.len() == pos,
        acc == chosen_sum(effs, before),
        any == before.contains(true),
        changeless_pick(effs, pos, acc, lo, hi, any) is Some,
    ensures
        is_changeless(effs, before + changeless_pick(effs, pos, acc, lo, hi, any).unwrap(), lo, hi),
    decreases effs.len() - pos,
{
    let rest = changeless_pick(effs, pos, acc, lo, hi, any).unwrap();
    if pos >= effs.len() {
        assert(before + rest =~= before);
    } else {
        let take = changeless_pick(effs, pos + 1, acc + effs[pos], lo, hi, true);
        let taken = take is Some;
        let next = before.push(taken);
        assert(next.drop_last() =~= before);
        assert(next.contains(true) == (taken || any)) by {
            if before.contains(true) {
                let k = choose|k: int| 0 <= k < before.len() && before[k];
                assert(next[k]);
            }
            if taken {
                assert(next[pos]);
            }
            if next.contains(true) && !taken {
                let k = choose|k: int| 0 <= k < next.len() && next[k];
                assert(before[k]);
            }
        }
        if taken {
            lemma_pick_sound_from(effs, pos + 1, acc + effs[pos], lo, hi, true, next);
            assert(before + rest =~= next + take.unwrap());
        } else {
            let leave = changeless_pick(effs, pos + 1, acc, lo, hi, any);
            lemma_pick_sound_from(effs, pos + 1, acc, lo, hi, any, next);
            assert(before + rest =~= next + leave.unwrap());
        }
    }
}

proof fn lemma_pick_complete_from(
    effs: Seq<int>,
    pos: int,
    acc: int,
    lo: int,
    hi: int,
    any: bool,
    choice: Seq<bool>,
)
    requires
        0 <= pos <= effs.len(),
        is_changeless(effs, choice, lo, hi),
        acc == chosen_sum(effs, choice.take(pos)),
        any == choice.take(pos).contains(true),
    ensures
        changeless_pick(effs, pos, acc, lo, hi, any) is Some,
    decreases effs.len() - pos,
{
    if pos >= effs.len() {
        assert(choice.take(pos) =~= choice);
    } else {
        let before = choice.take(pos);
        let next = choice.take(pos + 1);
        assert(next.drop_last() =~= before);
        assert(next.last() == choice[pos]);
        assert(next.contains(true) == (choice[pos] || any)) by {
            if before.contains(true) {
                let k = choose|k: int| 0 <= k < before.len() && before[k];
                assert(next[k]);
            }
            if choice[pos] {
                assert(next[pos]);
            }
            if next.contains(true) && !choice[pos] {
                let k = choose|k: int| 0 <= k < next.len() && next[k];
                assert(before[k]);
            }
        }
        if choice[pos] {
            lemma_pick_complete_from(effs, pos + 1, acc + effs[pos], lo, hi, true, choice);
        } else if changeless_pick(effs, pos + 1, acc + effs[pos], lo, hi, true) is None {
            lemma_pick_complete_from(effs, pos + 1, acc, lo, hi, any, choice);
        }
    }
}

/// Branch and bound finds a changeless choice where there is one, and what
/// it finds is one.
pub proof fn lemma_branch_and_bound(effs: Seq<int>, lo: int, hi: int)
    ensures
        changeless_pick(effs, 0, 0, lo, hi, false) is Some <==> exists|choice: Seq<bool>|
            is_changeless(effs, choice, lo, hi),
        changeless_pick(effs, 0, 0, lo, hi, false) is Some ==> is_changeless(
            effs,
            changeless_pick(effs, 0, 0, lo, hi, false).unwrap(),
            lo,
            hi,
        ),
{
    let empty = Seq::<bool>::empty();
    if changeless_pick(effs, 0, 0, lo, hi, false) is Some {
        lemma_pick_sound_from(effs, 0, 0, lo, hi, false, empty);
        let pick = changeless_pick(effs, 0, 0, lo, hi, false).unwrap();
        assert(empty + pick =~= pick);
    }
    if exists|choice: Seq<bool>| is_changeless(effs, choice, lo, hi) {
        let choice = choose|choice: Seq<bool>| is_changeless(effs, choice, lo, hi);
        assert(choice.take(0) =~= empty);
        lemma_pick_complete_from(effs, 0, 0, lo, hi, false, choice);
    }
}

/// The sum of the values at `inputs`.
pub open spec fn selected_total(values: Seq<u64>, inputs: Seq<usize>) -> int
    decreases inputs.len(),
{
    if inputs.len() == 0 {
        0
    } else {
        selected_total(values, inputs.drop_last()) + values[inputs.last() as int]
    }
}

/// The fee that a selection pays: what its inputs hold beyond the target and
/// the change.
pub open spec fn paid_fee(values: Seq<u64>, selection: SelectionView, target: u64) -> int {
    selected_total(values, selection.inputs) - target - selection.change
}

proof fn lemma_leading_total(values: Seq<u64>, order: Seq<usize>, input_fee: int, count: int)
    requires
        0 <= count <= effective_values(values, order, input_fee).len() <= order.len(),
    ensures
        selected_total(values, order.take(count)) == sum_first(
            effective_values(values, order, input_fee),
            count,
        ) + count * input_fee,
    decreases count,
{
    let effs = effective_values(values, order, input_fee);
    if count > 0 {
        lemma_leading_total(values, order, input_fee, count - 1);
        assert(order.take(count).drop_last() =~= order.take(count - 1));
        assert(order.take(count).last() == order[count - 1]);
        assert(effs[count - 1] == values[order[count - 1] as int] - input_fee);
        assert(count * input_fee == (count - 1) * input_fee + input_fee) by (nonlinear_arith);
    } else {
        assert(order.take(0).len() == 0);
        assert(count * input_fee == 0) by (nonlinear_arith)
            requires
                count == 0,
        ;
    }
}

proof fn lemma_picked_total(values: Seq<u64>, order: Seq<usize>, input_fee: int, choice: Seq<bool>)
    requires
        choice.len() <= effective_values(values, order, input_fee).len() <= order.len(),
    ensures
        selected_total(values, picked(order, choice)) == chosen_sum(
            effective_values(values, order, input_fee),
            choice,
        ) + picked(order, choice).len() * input_fee,
    decreases choice.len(),
{
    let effs = effective_values(values, order, input_fee);
    if choice.len() > 0 {
        lemma_picked_total(values, order, input_fee, choice.drop_last());
        let fewer = picked(order, choice.drop_last());
        if choice.last() {
            assert(picked(order, choice).drop_last() =~= fewer);
            assert(effs[choice.len() - 1] == values[order[choice.len() - 1] as int] - input_fee);
            assert((fewer.len() + 1) * input_fee == fewer.len() * input_fee + input_fee)
                by (nonlinear_arith);
        }
    } else {
        assert(picked(order, choice).len() * input_fee == 0) by (nonlinear_arith)
            requires
                picked(order, choice).len() == 0,
        ;
    }
}

/// **Fee bound.** With a change output the fee is the estimate for the
/// inputs and two outputs, to the satoshi. Without one it is at least the
/// estimate for one output, and exceeds the estimate for two outputs by less
/// than the dust threshold: what would have been dust went to the fee.
pub proof fn lemma_fee_bound(values: Seq<u64>, order: Seq<usize>, target: u64, fee_rate: u64)
    requires
        is_ranking(order, values),
        select_ranked(values, order, target, fee_rate) is Ok,
    ensures
        ({
            let selection = select_ranked(values, order, target, fee_rate).unwrap();
            let inputs = selection.inputs.len();
            let fee = paid_fee(values, selection, target);
            &&& inputs >= 1
            &&& selection.change == 0 || selection.change >= DUST_THRESHOLD
            &&& selection.change > 0 ==> fee == fee_for(inputs, 2, fee_rate as nat)
            &&& selection.change == 0 ==> fee_for(inputs, 1, fee_rate as nat) <= fee < fee_for(
                inputs,
                2,
                fee_rate as nat,
            ) + DUST_THRESHOLD
        }),
{
    let input_fee = INPUT_VBYTES * fee_rate;
    let effs = effective_values(values, order, input_fee);
    let need = target + fee_for(0, 1, fee_rate as nat);
    let selection = select_ranked(values, order, target, fee_rate).unwrap();
    let n = selection.inputs.len() as int;
    lemma_candidate_count(values, order, input_fee, 0);
    assert(fee_for(0, 1, fee_rate as nat) == 44 * fee_rate);
    assert(fee_for(n as nat, 1, fee_rate as nat) == 44 * fee_rate + n * input_fee) by (nonlinear_arith)
        requires
            input_fee == 297 * fee_rate,
            fee_for(n as nat, 1, fee_rate as nat) == (10 + 297 * n + 34 * 1) * fee_rate,
    ;
    assert(fee_for(n as nat, 2, fee_rate as nat) == 78 * fee_rate + n * input_fee) by (nonlinear_arith)
        requires
            input_fee == 297 * fee_rate,
            fee_for(n as nat, 2, fee_rate as nat) == (10 + 297 * n + 34 * 2) * fee_rate,
    ;
    match changeless_pick(effs, 0, 0, need, need + DUST_THRESHOLD, false) {
        Some(pick) => {
            lemma_branch_and_bound(effs, need, need + DUST_THRESHOLD);
            lemma_picked_total(values, order, input_fee, pick);
            lemma_picked_nonempty(order, pick);
        },
        None => {
            lemma_covering_count(effs, 0, 0, need);
            let count = covering_count(effs, 0, 0, need).unwrap();
            lemma_leading_total(values, order, input_fee, count);
        },
    }
}

proof fn lemma_picked_nonempty(order: Seq<usize>, choice: Seq<bool>)
    requires
        choice.contains(true),
    ensures
        picked(order, choice).len() >= 1,
    decreases choice.len(),
{
    if choice.len() > 0 && !choice.last() {
        let k = choose|k: int| 0 <= k < choice.len() && choice[k];
        assert(choice.drop_last()[k]);
        lemma_picked_nonempty(order, choice.drop_last());
    }
}

} // verus!
