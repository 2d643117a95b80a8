//! What the stores of the two counting workloads must hold once recovered.

use vstd::prelude::*;

verus! {

/// The number of keys that a batch writes.
pub const BATCH_SIZE: u32 = 8;

/// The number of keys that the insert loop goes round.
pub const CYCLE: usize = 256;

/// Why a store is not what a batch workload leaves.
#[derive(Debug, Clone, Copy, PartialEq, Eq, Structural)]
pub enum BatchError {
    /// The key has no value.
    Missing { key: u32 },
    /// The key has another value than the first key.
    Mismatch { key: u32, expected: u32, actual: u32 },
}

/// The first of the keys whose value is not `first_value`, among the first
/// `n`, if there is one.
pub open spec fn first_fault(first_value: u32, values: Seq<Option<u32>>, n: nat) -> Option<int>
    decreases n,
{
    if n == 0 || n > values.len() {
        None
    } else {
        match first_fault(first_value, values, (n - 1) as nat) {
            Some(k) => Some(k),
            None => if values[n - 1] == Some(first_value) {
                None
            } else {
                Some(n - 1)
            },
        }
    }
}

/// Checks what a batch workload left: every key has the value of the first.
/// The values are those of the keys from 0 on, in order; the first key
/// without the value is reported.
pub fn verify_batch(first_value: u32, values: &[Option<u32>]) -> (r: Result<u32, BatchError>)
    requires
        values@.len() <= u32::MAX,
    ensures
        match first_fault(first_value, values@, values@.len()) {
            None => r == Ok::<u32, BatchError>(first_value),
            Some(k) => match values@[k] {
                None => r == Err::<u32, BatchError>(BatchError::Missing { key: k as u32 }),
                Some(v) => r == Err::<u32, BatchError>(
                    BatchError::Mismatch { key: k as u32, expected: first_value, actual: v },
                ),
            },
        },
{
    let mut key: usize = 0;
    while key < values.len()
        invariant
            key <= values.len(),
            values@.len() <= u32::MAX,
            first_fault(first_value, values@, key as nat) is None,
        decreases values.len() - key,
    {
        match values[key] {
            None => {
                proof {
                    lemma_first_fault_stays(first_value, values@, (key + 1) as nat, values@.len());
                }
                return Err(BatchError::Missing { key: key as u32 });
            },
            Some(value) => {
                if value != first_value {
                    proof {
                        lemma_first_fault_stays(first_value, values@, (key + 1) as nat, values@.len());
                    }
                    return Err(
                        BatchError::Mismatch {
                            key: key as u32,
                            expected: first_value,
                            actual: value,
                        },
                    );
                }
            },
        }
        key += 1;
    }
    Ok(first_value)
}

/// A fault among the first keys is the first fault among all.
pub proof fn lemma_first_fault_stays(first_value: u32, values: Seq<Option<u32>>, m: nat, n: nat)
    requires
        m <= n <= values.len(),
        first_fault(first_value, values, m) is Some,
    ensures
        first_fault(first_value, values, n) == first_fault(first_value, values, m),
    decreases n,
{
    if m < n {
        lemma_first_fault_stays(first_value, values, m, (n - 1) as nat);
    }
}

/// Why a store is not what the insert loop leaves.
#[derive(Debug, Clone, Copy, PartialEq, Eq, Structural)]
pub enum LoopError {
    /// Where the values first drop, they drop to another value than the one
    /// before the highest.
    WrongDrop { expected: u32, actual: u32 },
    /// After the drop, the value at this place is not the lower one.
    Changed { at: usize, expected: u32, actual: u32 },
}

/// The value before `highest` in the cycle.
pub open spec fn round_before(highest: u32) -> u32 {
    if highest == 0 {
        (CYCLE - 1) as u32
    } else {
        ((highest - 1) % CYCLE as int) as u32
    }
}

/// Where the values from `from` on first differ from `value`, or the length
/// if they never do.
pub open spec fn run_end(values: Seq<u32>, from: int, value: u32) -> int
    decreases values.len() - from,
{
    if 0 <= from < values.len() && values[from] == value {
        run_end(values, from + 1, value)
    } else {
        from
    }
}

/// What the insert loop leaves: the first key has the highest value; the
/// keys after it have the same value up to some key; there the value drops
/// to the one before it in the cycle and stays. The result is the number of
/// keys after the first with the highest value, and the highest value;
/// both 0 for an empty store.
pub open spec fn loop_verdict(values: Seq<u32>) -> Result<(u32, u32), LoopError> {
    if values.len() == 0 {
        Ok((0u32, 0u32))
    } else {
        let highest = values[0];
        let drop = run_end(values, 1, highest);
        if drop >= values.len() {
            Ok(((drop - 1) as u32, highest))
        } else if values[drop] != round_before(highest) {
            Err(LoopError::WrongDrop { expected: round_before(highest), actual: values[drop] })
        } else {
            let change = run_end(values, drop + 1, values[drop]);
            if change >= values.len() {
                Ok(((drop - 1) as u32, highest))
            } else {
                Err(
                    LoopError::Changed {
                        at: change as usize,
                        expected: values[drop],
                        actual: values[change],
                    },
                )
            }
        }
    }
}

/// Checks what the insert loop left, given the values of the keys in their
/// order.
pub fn verify_loop(values: &[u32]) -> (r: Result<(u32, u32), LoopError>)
    requires
        values@.len() <= u32::MAX,
    ensures
        r == loop_verdict(values@),
{
    if values.len() == 0 {
        return Ok((0, 0));
    }
    // key 0 should always have the highest value, as that's where we
    // increment
    let highest = values[0];
    // find out how far we got
    let mut contiguous: u32 = 0;
    let mut lowest: u32 = 0;
    let mut i: usize = 1;
    while i < values.len() && values[i] == highest
        invariant
            1 <= i <= values.len(),
            values@.len() <= u32::MAX,
            contiguous == i - 1,
            run_end(values@, 1, highest) == run_end(values@, i as int, highest),
        decreases values.len() - i,
    {
        contiguous += 1;
        i += 1;
    }
    if i < values.len() {
        let expected = if highest == 0 {
            CYCLE as u32 - 1
        } else {
            (highest - 1) % CYCLE as u32
        };
        let actual = values[i];
        if expected != actual {
            return Err(LoopError::WrongDrop { expected, actual });
        }
        lowest = actual;
        // ensure nothing changes after this point
        let ghost drop = i as int;
        i += 1;
        while i < values.len()
            invariant
                0 < drop < i <= values.len(),
                values@.len() <= u32::MAX,
                highest == values@[0],
                drop == run_end(values@, 1, highest),
                contiguous == drop - 1,
                lowest == values@[drop],
                lowest == round_before(highest),
                run_end(values@, drop + 1, lowest) == run_end(values@, i as int, lowest),
            decreases values.len() - i,
        {
            if values[i] != lowest {
                return Err(LoopError::Changed { at: i, expected: lowest, actual: values[i] });
            }
            i += 1;
        }
    }
    Ok((contiguous, highest))
}

} // verus!
