//! The search procedure. It keeps a window `[low, end)` of indices (`end` is one
//! past the window's last index, so an empty window needs no negative bound).
//! On every step it averages the weights at the window's two ends, compares the
//! value at the midpoint with the target, and narrows the window to one side;
//! then, if a perturbation is drawn, it widens the window by one index on each
//! side, within the container. It stops when the target is found, when the
//! window is empty, or after `STEP_LIMIT` steps.

use vstd::prelude::*;
use crate::container::QuantumComputer;

verus! {

/// The most steps a search takes. With perturbations a window need not shrink,
/// so the search also stops, reporting nothing found, after this many steps.
pub const STEP_LIMIT: usize = 4096;

/// A draw of `rand::random::<u32>()` perturbs the window when it is below this
/// threshold: one tenth of the `u32` range, rounded up.
pub const PERTURB_THRESHOLD: u32 = 429_496_730;

/// The index compared on a step over the window `[low, end)`.
pub open spec fn midpoint(low: int, end: int) -> int {
    low + (end - 1 - low) / 2
}

/// The window's start after a perturbation: one lower, but not below zero.
pub open spec fn widened_low(low: int) -> int {
    if low > 0 { low - 1 } else { 0 }
}

/// The window's end after a perturbation: one higher, but not past `n`.
pub open spec fn widened_end(end: int, n: int) -> int {
    if end < n { end + 1 } else { n }
}

/// What a search returns from the window `[low, end)` with `fuel` steps left,
/// where `flips[k]` says whether step `k` perturbs the window (no step past the
/// end of `flips` does).
pub open spec fn outcome(
    values: Seq<i32>,
    target: i32,
    low: int,
    end: int,
    flips: Seq<bool>,
    fuel: nat,
) -> Option<int>
    decreases fuel,
{
    if fuel == 0 || low >= end {
        None
    } else {
        let mid = midpoint(low, end);
        if values[mid] == target {
            Some(mid)
        } else {
            let low1 = if values[mid] < target { mid + 1 } else { low };
            let end1 = if values[mid] < target { end } else { mid };
            let flip = flips.len() > 0 && flips[0];
            let rest = if flips.len() > 0 { flips.drop_first() } else { flips };
            let low2 = if flip { widened_low(low1) } else { low1 };
            let end2 = if flip { widened_end(end1, values.len() as int) } else { end1 };
            outcome(values, target, low2, end2, rest, (fuel - 1) as nat)
        }
    }
}

/// An index result read as a mathematical integer.
pub open spec fn index_of(r: Option<usize>) -> Option<int> {
    match r {
        Some(i) => Some(i as int),
        None => None,
    }
}

/// Whether a draw perturbs the window.
pub fn perturbs(draw: u32) -> (r: bool)
    ensures
        r == (draw < PERTURB_THRESHOLD),
{
    draw < PERTURB_THRESHOLD
}


/// A search never reports an index outside the container, and the index it
/// reports holds the target.
pub proof fn lemma_found_index_holds_target(
    values: Seq<i32>,
    target: i32,
    low: int,
    end: int,
    flips: Seq<bool>,
    fuel: nat,
)
    requires
        0 <= low,
        end <= values.len(),
    ensures
        outcome(values, target, low, end, flips, fuel) matches Some(i)
            ==> 0 <= i < values.len() && values[i] == target,
    decreases fuel,
{
    if fuel > 0 && low < end {
        let mid = midpoint(low, end);
        if values[mid] != target {
            let low1 = if values[mid] < target { mid + 1 } else { low };
            let end1 = if values[mid] < target { end } else { mid };
            let flip = flips.len() > 0 && flips[0];
            let rest = if flips.len() > 0 { flips.drop_first() } else { flips };
            let low2 = if flip { widened_low(low1) } else { low1 };
            let end2 = if flip { widened_end(end1, values.len() as int) } else { end1 };
            lemma_found_index_holds_target(values, target, low2, end2, rest, (fuel - 1) as nat);
        }
    }
}

/// Where no element holds the target, every search reports it not found,
/// whatever the perturbations.
pub proof fn lemma_absent_target_not_found(
    values: Seq<i32>,
    target: i32,
    flips: Seq<bool>,
    fuel: nat,
)
    requires
        !values.contains(target),
    ensures
        outcome(values, target, 0, values.len() as int, flips, fuel) == None::<int>,
{
    lemma_found_index_holds_target(values, target, 0, values.len() as int, flips, fuel);
    if let Some(i) = outcome(values, target, 0, values.len() as int, flips, fuel) {
        assert(values[i] == target);
    }
}

/// In a container of one element that holds the target, every search with at
/// least one step reports index 0, whatever the perturbations.
pub proof fn lemma_single_element_found(values: Seq<i32>, target: i32, flips: Seq<bool>, fuel: nat)
    requires
        values.len() == 1,
        values[0] == target,
        fuel > 0,
    ensures
        outcome(values, target, 0, 1, flips, fuel) == Some(0int),
{
    assert(midpoint(0, 1) == 0);
}

/// A search with `fuel` steps left reads no more than its first `fuel`
/// perturbation flips: it ends within `fuel` steps.
pub proof fn lemma_outcome_reads_at_most_fuel_flips(
    values: Seq<i32>,
    target: i32,
    low: int,
    end: int,
    flips: Seq<bool>,
    fuel: nat,
)
    ensures
        outcome(values, target, low, end, flips, fuel) == outcome(
            values,
            target,
            low,
            end,
            flips.take(if fuel < flips.len() { fuel as int } else { flips.len() as int }),
            fuel,
        ),
    decreases fuel,
{
    let cut = if fuel < flips.len() { fuel as int } else { flips.len() as int };
    let short = flips.take(cut);
    if fuel > 0 && low < end {
        let mid = midpoint(low, end);
        if values[mid] != target {
            let low1 = if values[mid] < target { mid + 1 } else { low };
            let end1 = if values[mid] < target { end } else { mid };
            let flip = flips.len() > 0 && flips[0];
            let rest = if flips.len() > 0 { flips.drop_first() } else { flips };
            let low2 = if flip { widened_low(low1) } else { low1 };
            let end2 = if flip { widened_end(end1, values.len() as int) } else { end1 };
            let fuel1 = (fuel - 1) as nat;
            lemma_outcome_reads_at_most_fuel_flips(values, target, low2, end2, rest, fuel1);
            let cut1 = if fuel1 < rest.len() { fuel1 as int } else { rest.len() as int };
            if flips.len() > 0 {
                assert(short.len() > 0);
                assert(short[0] == flips[0]);
                assert(short.drop_first() =~= rest.take(cut1));
            } else {
                assert(short =~= flips);
            }
        }
    }
}

/// One step of a search whose first flip is `flip`: the outcome from the window
/// is the outcome, one step shorter, from the window that step leaves.
proof fn lemma_step(
    values: Seq<i32>,
    target: i32,
    low: int,
    end: int,
    flip: bool,
    rest: Seq<bool>,
    fuel: nat,
)
    requires
        fuel > 0,
        low < end,
        values[midpoint(low, end)] != target,
    ensures
        ({
            let mid = midpoint(low, end);
            let low1 = if values[mid] < target { mid + 1 } else { low };
            let end1 = if values[mid] < target { end } else { mid };
            let low2 = if flip { widened_low(low1) } else { low1 };
            let end2 = if flip { widened_end(end1, values.len() as int) } else { end1 };
            outcome(values, target, low, end, seq![flip] + rest, fuel) == outcome(
                values,
                target,
                low2,
                end2,
                rest,
                (fuel - 1) as nat,
            )
        }),
{
    let flips = seq![flip] + rest;
    assert(flips[0] == flip);
    assert(flips.drop_first() =~= rest);
}


/// Searches `qc` for `target`, perturbing the window on step `k` exactly when
/// `flips[k]` is true (and on no step past the end of `flips`). Weights are
/// averaged on the way; values stay as they were.
pub fn quantum_binary_search_with(
    qc: &mut QuantumComputer,
    target: i32,
    flips: &Vec<bool>,
) -> (r: Option<usize>)
    ensures
        final(qc).qubits@.len() == old(qc).qubits@.len(),
        final(qc).values() == old(qc).values(),
        index_of(r) == outcome(
            old(qc).values(),
            target,
            0,
            old(qc).qubits@.len() as int,
            flips@,
            STEP_LIMIT as nat,
        ),
        r matches Some(i) ==> i < old(qc).qubits@.len() && old(qc).values()[i as int] == target,
        !old(qc).values().contains(target) ==> r is None,
        old(qc).qubits@.len() == 1 && old(qc).values()[0] == target ==> r == Some(0usize),
{
    let ghost values = qc.values();
    let n: usize = qc.qubits.len();
    let mut low: usize = 0;
    let mut end: usize = n;
    let mut k: usize = 0;
    let mut fuel: usize = STEP_LIMIT;
    proof {
        assert(flips@.skip(0) =~= flips@);
    }
    while fuel > 0 && low < end
        invariant
            qc.qubits@.len() == n,
            qc.values() == values,
            values == old(qc).values(),
            n == old(qc).qubits@.len(),
            values.len() == n,
            end <= n,
            k <= flips@.len(),
            outcome(values, target, 0, n as int, flips@, STEP_LIMIT as nat) == outcome(
                values,
                target,
                low as int,
                end as int,
                flips@.skip(k as int),
                fuel as nat,
            ),
        decreases fuel,
    {
        qc.entangle(low, end - 1);
        let mid: usize = low + (end - 1 - low) / 2;
        let value = qc.qubits[mid].value;
        proof {
            assert(value == values[mid as int]);
        }
        if value == target {
            proof {
                lemma_answer(values, target, flips@, Some(mid as int));
            }
            return Some(mid);
        }
        let ghost low0 = low;
        let ghost end0 = end;
        if value < target {
            low = mid + 1;
        } else {
            end = mid;
        }
        let flip: bool = if k < flips.len() {
            flips[k]
        } else {
            false
        };
        proof {
            if k < flips@.len() {
                assert(flips@.skip(k as int) =~= seq![flip] + flips@.skip(k + 1));
                lemma_step(values, target, low0 as int, end0 as int, flip, flips@.skip(k + 1), fuel as nat);
            } else {
                assert(flips@.skip(k as int).len() == 0);
            }
        }
        if k < flips.len() {
            k = k + 1;
        }
        if flip {
            low = if low > 0 {
                low - 1
            } else {
                0
            };
            end = if end < n {
                end + 1
            } else {
                n
            };
        }
        fuel = fuel - 1;
    }
    proof {
        lemma_answer(values, target, flips@, None);
    }
    None
}

/// The facts that every search result carries, from the outcome it equals.
proof fn lemma_answer(values: Seq<i32>, target: i32, flips: Seq<bool>, r: Option<int>)
    requires
        r == outcome(values, target, 0, values.len() as int, flips, STEP_LIMIT as nat),
    ensures
        r matches Some(i) ==> 0 <= i < values.len() && values[i] == target,
        !values.contains(target) ==> r is None,
        values.len() == 1 && values[0] == target ==> r == Some(0int),
{
    lemma_found_index_holds_target(values, target, 0, values.len() as int, flips, STEP_LIMIT as nat);
    if !values.contains(target) {
        lemma_absent_target_not_found(values, target, flips, STEP_LIMIT as nat);
    }
    if values.len() == 1 && values[0] == target {
        lemma_single_element_found(values, target, flips, STEP_LIMIT as nat);
    }
}


/// Searches `qc` for `target`, drawing on every step whether to perturb the
/// window (a draw below `PERTURB_THRESHOLD`, about one step in ten). The result
/// is the outcome for the perturbations that were drawn: an index that holds the
/// target, or none.
pub fn quantum_binary_search(qc: &mut QuantumComputer, target: i32) -> (r: Option<usize>)
    ensures
        final(qc).qubits@.len() == old(qc).qubits@.len(),
        final(qc).values() == old(qc).values(),
        exists|flips: Seq<bool>|
            index_of(r) == #[trigger] outcome(
                old(qc).values(),
                target,
                0,
                old(qc).qubits@.len() as int,
                flips,
                STEP_LIMIT as nat,
            ),
        r matches Some(i) ==> i < old(qc).qubits@.len() && old(qc).values()[i as int] == target,
        !old(qc).values().contains(target) ==> r is None,
        old(qc).qubits@.len() == 1 && old(qc).values()[0] == target ==> r == Some(0usize),
{
    let ghost values = qc.values();
    let ghost mut taken: Seq<bool> = Seq::empty();
    let n: usize = qc.qubits.len();
    let mut low: usize = 0;
    let mut end: usize = n;
    let mut fuel: usize = STEP_LIMIT;
    proof {
        assert forall|rest: Seq<bool>|
            outcome(values, target, 0, n as int, taken + rest, STEP_LIMIT as nat) == outcome(
                values,
                target,
                low as int,
                end as int,
                rest,
                fuel as nat,
            ) by {
            assert(taken + rest =~= rest);
        }
    }
    while fuel > 0 && low < end
        invariant
            qc.qubits@.len() == n,
            qc.values() == values,
            values == old(qc).values(),
            n == old(qc).qubits@.len(),
            values.len() == n,
            end <= n,
            forall|rest: Seq<bool>|
                outcome(values, target, 0, n as int, taken + rest, STEP_LIMIT as nat)
                    == #[trigger] outcome(values, target, low as int, end as int, rest, fuel as nat),
        decreases fuel,
    {
        qc.entangle(low, end - 1);
        let mid: usize = low + (end - 1 - low) / 2;
        let value = qc.qubits[mid].value;
        proof {
            assert(value == values[mid as int]);
        }
        if value == target {
            proof {
                let e = Seq::<bool>::empty();
                assert(taken + e =~= taken);
                assert(outcome(values, target, low as int, end as int, e, fuel as nat) == Some(
                    mid as int,
                ));
                lemma_answer(values, target, taken, Some(mid as int));
            }
            return Some(mid);
        }
        let ghost low0 = low;
        let ghost end0 = end;
        if value < target {
            low = mid + 1;
        } else {
            end = mid;
        }
        let draw: u32 = rand::random::<u32>();
        let flip = perturbs(draw);
        if flip {
            low = if low > 0 {
                low - 1
            } else {
                0
            };
            end = if end < n {
                end + 1
            } else {
                n
            };
        }
        fuel = fuel - 1;
        proof {
            assert forall|rest: Seq<bool>|
                outcome(values, target, 0, n as int, taken.push(flip) + rest, STEP_LIMIT as nat)
                    == outcome(values, target, low as int, end as int, rest, fuel as nat) by {
                assert(taken.push(flip) + rest =~= taken + (seq![flip] + rest));
                assert(outcome(values, target, low0 as int, end0 as int, seq![flip] + rest, (fuel + 1) as nat) == outcome(values, target, 0, n as int, taken + (seq![flip] + rest), STEP_LIMIT as nat));
                lemma_step(values, target, low0 as int, end0 as int, flip, rest, (fuel + 1) as nat);
            }
            taken = taken.push(flip);
        }
    }
    proof {
        let e = Seq::<bool>::empty();
        assert(taken + e =~= taken);
        assert(outcome(values, target, low as int, end as int, e, fuel as nat) == None::<int>);
        lemma_answer(values, target, taken, None);
    }
    None
}

} // verus!
