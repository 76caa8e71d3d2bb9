//! The container: an ordered, fixed-size sequence of elements, each with a value
//! and a weight.

use vstd::prelude::*;
use crate::random::draw_in_range;

verus! {

/// Values drawn at creation lie in `[0, VALUE_BOUND)`.
pub const VALUE_BOUND: i32 = 1000;

/// One element of the container. `probability` is a weight in `[0, 1)`, held
/// in fixed point: the weight is `probability / 2^32`.
#[derive(Clone, Copy, Debug, PartialEq, Eq, Structural)]
pub struct QuantumState {
    pub value: i32,
    pub probability: u32,
}

/// An ordered sequence of elements. Nothing orders the values.
#[derive(Clone, Debug)]
pub struct QuantumComputer {
    pub qubits: Vec<QuantumState>,
}

/// What a read outside the container reports.
#[derive(Clone, Copy, Debug, PartialEq, Eq, Structural)]
pub enum MeasureError {
    OutOfBounds { index: usize, size: usize },
}

/// The mean of two fixed-point weights, rounded down to the grid of `2^-32`.
pub open spec fn mean(a: u32, b: u32) -> int {
    (a + b) / 2
}

impl QuantumComputer {
    /// The values, in order.
    pub open spec fn values(&self) -> Seq<i32> {
        self.qubits@.map_values(|q: QuantumState| q.value)
    }

    /// The weights, in order.
    pub open spec fn weights(&self) -> Seq<u32> {
        self.qubits@.map_values(|q: QuantumState| q.probability)
    }

    /// A container of `size` elements, each with a random value in
    /// `[0, VALUE_BOUND)` and a random weight.
    pub fn new(size: usize) -> (r: Self)
        ensures
            r.qubits@.len() == size,
            forall|k: int| 0 <= k < size ==> 0 <= #[trigger] r.values()[k] < VALUE_BOUND,
    {
        let mut rng = rand::thread_rng();
        let mut qubits: Vec<QuantumState> = Vec::new();
        let mut k: usize = 0;
        while k < size
            invariant
                k <= size,
                qubits@.len() == k,
                forall|m: int| 0 <= m < k ==> 0 <= #[trigger] qubits@[m].value < VALUE_BOUND,
            decreases size - k,
        {
            let value = draw_in_range(&mut rng, 0, VALUE_BOUND);
            let probability: u32 = rand::random::<u32>();
            qubits.push(QuantumState { value, probability });
            k = k + 1;
        }
        QuantumComputer { qubits }
    }

    /// A container holding exactly the given elements.
    pub fn from_states(qubits: Vec<QuantumState>) -> (r: Self)
        ensures
            r.qubits@ == qubits@,
    {
        QuantumComputer { qubits }
    }

    /// The number of elements.
    pub fn len(&self) -> (r: usize)
        ensures
            r == self.qubits@.len(),
    {
        self.qubits.len()
    }

    /// The value at `index`, or an out-of-bounds error outside `[0, len)`.
    pub fn measure(&self, index: usize) -> (r: Result<i32, MeasureError>)
        ensures
            index < self.qubits@.len() ==> r == Ok::<i32, MeasureError>(self.values()[index as int]),
            index >= self.qubits@.len() ==> r == Err::<i32, MeasureError>(
                MeasureError::OutOfBounds { index, size: self.qubits@.len() as usize },
            ),
    {
        if index < self.qubits.len() {
            Ok(self.qubits[index].value)
        } else {
            Err(MeasureError::OutOfBounds { index, size: self.qubits.len() })
        }
    }

    /// Sets the weights of elements `i` and `j` both to the mean of their
    /// former weights. Values, and every other weight, stay as they were.
    pub fn entangle(&mut self, i: usize, j: usize)
        requires
            i < old(self).qubits@.len(),
            j < old(self).qubits@.len(),
        ensures
            final(self).qubits@.len() == old(self).qubits@.len(),
            final(self).values() == old(self).values(),
            final(self).weights()[i as int] == mean(
                old(self).weights()[i as int],
                old(self).weights()[j as int],
            ),
            final(self).weights()[j as int] == final(self).weights()[i as int],
            forall|k: int|
                0 <= k < old(self).qubits@.len() && k != i && k != j
                    ==> #[trigger] final(self).weights()[k] == old(self).weights()[k],
    {
        let sum: u64 = self.qubits[i].probability as u64 + self.qubits[j].probability as u64;
        let m: u32 = (sum / 2) as u32;
        let mut qi = self.qubits[i];
        qi.probability = m;
        self.qubits.set(i, qi);
        let mut qj = self.qubits[j];
        qj.probability = m;
        self.qubits.set(j, qj);
        proof {
            assert(self.values() =~= old(self).values());
        }
    }
}

} // verus!
