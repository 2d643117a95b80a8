//! The arithmetic of the workloads: how transactions are dealt out to
//! threads, and how the insert loop counts.

use crate::counters::CYCLE;
use vstd::prelude::*;

verus! {

/// The number of transactions that each thread runs: the number of all
/// divided by the number of threads, rounded up.
pub open spec fn share(transaction_count: nat, thread_count: nat) -> nat {
    transaction_count / thread_count + (if transaction_count % thread_count > 0 {
        1nat
    } else {
        0nat
    })
}

/// The number of transactions that each thread runs.
pub fn chunk_size(transaction_count: usize, thread_count: usize) -> (size: usize)
    requires
        thread_count > 0,
    ensures
        size == share(transaction_count as nat, thread_count as nat),
{
    let whole = transaction_count / thread_count;
    if transaction_count % thread_count > 0 {
        assert(whole < usize::MAX) by (nonlinear_arith)
            requires
                whole == transaction_count / thread_count,
                transaction_count % thread_count > 0,
                thread_count > 0,
                transaction_count <= usize::MAX,
        ;
        whole + 1
    } else {
        whole
    }
}

/// The smaller of two numbers.
pub open spec fn least(a: nat, b: nat) -> nat {
    if a < b {
        a
    } else {
        b
    }
}

/// Where the transactions of a thread begin.
pub open spec fn range_start(thread_idx: nat, size: nat, len: nat) -> nat {
    least(thread_idx * size, len)
}

/// The transactions of a thread: from where they begin to where those of
/// the next thread begin.
pub fn chunk_range(thread_idx: usize, size: usize, len: usize) -> (range: (usize, usize))
    requires
        thread_idx < usize::MAX,
        (thread_idx + 1) * size <= usize::MAX,
    ensures
        range.0 == range_start(thread_idx as nat, size as nat, len as nat),
        range.1 == range_start((thread_idx + 1) as nat, size as nat, len as nat),
        range.0 <= range.1 <= len,
{
    assert(thread_idx * size <= (thread_idx + 1) * size) by (nonlinear_arith);
    let start = thread_idx * size;
    let end = (thread_idx + 1) * size;
    (
        if start < len {
            start
        } else {
            len
        },
        if end < len {
            end
        } else {
            len
        },
    )
}

/// The threads' transactions follow one another without a gap, from the
/// first transaction to the last: each transaction is run by one thread.
pub proof fn lemma_ranges_tile(transaction_count: nat, thread_count: nat)
    requires
        thread_count > 0,
    ensures
        range_start(0, share(transaction_count, thread_count), transaction_count) == 0,
        range_start(thread_count, share(transaction_count, thread_count), transaction_count)
            == transaction_count,
        forall|i: nat|
            #![trigger range_start(i, share(transaction_count, thread_count), transaction_count)]
            range_start(i, share(transaction_count, thread_count), transaction_count)
                <= range_start(
                (i + 1) as nat,
                share(transaction_count, thread_count),
                transaction_count,
            ),
{
    let size = share(transaction_count, thread_count);
    assert(thread_count * size >= transaction_count) by (nonlinear_arith)
        requires
            thread_count > 0,
            size == transaction_count / thread_count + (if transaction_count % thread_count > 0 {
                1nat
            } else {
                0nat
            }),
    ;
    assert(0 * size == 0) by (nonlinear_arith);
    assert forall|i: nat|
        #![trigger range_start(i, size, transaction_count)]
        range_start(i, size, transaction_count) <= range_start(
            (i + 1) as nat,
            size,
            transaction_count,
        ) by {
        assert(i * size <= (i + 1) * size) by (nonlinear_arith);
    }
}

/// Where the insert loop stands: the round and the key within the round, as
/// one number.
pub open spec fn position(highest: nat, key: nat) -> nat {
    highest * CYCLE as nat + key
}

/// Where the insert loop stands, given the highest value in the store and
/// the number of keys after the first that hold it. The round and the key
/// are had back from the position.
pub fn loop_position(highest: u32, key: u32) -> (hu: usize)
    requires
        key < CYCLE,
        highest as nat * CYCLE as nat + key <= usize::MAX,
    ensures
        hu == position(highest as nat, key as nat),
        hu % CYCLE == key,
        hu / CYCLE == highest,
{
    let hu = (highest as usize) * CYCLE + key as usize;
    assert(hu % 256 == key && hu / 256 == highest) by (nonlinear_arith)
        requires
            hu == highest * 256 + key,
            key < 256,
    ;
    hu
}

/// The position and the count of wraps after the next step: the position
/// goes on by one, and starts again from 0, with one more wrap, where the
/// rounds are used up.
pub open spec fn stepped(hu: nat, wrap_count: nat) -> (nat, nat) {
    if (hu + 1) / CYCLE as nat >= CYCLE {
        (0, wrap_count + 1)
    } else {
        (hu + 1, wrap_count)
    }
}

/// What the insert loop does next.
pub struct LoopStep {
    /// The position after the step.
    pub hu: usize,
    /// The count of wraps after the step.
    pub wrap_count: u32,
    /// Whether the count of wraps has changed and is to be stored.
    pub wrapped: bool,
    /// The key to write.
    pub key: u32,
    /// The value to write.
    pub value: u32,
}

/// The next step of the insert loop from position `hu`.
pub fn advance(hu: usize, wrap_count: u32) -> (step: LoopStep)
    requires
        hu < usize::MAX,
        wrap_count < u32::MAX,
    ensures
        (step.hu as nat, step.wrap_count as nat) == stepped(hu as nat, wrap_count as nat),
        step.wrapped == (step.wrap_count != wrap_count),
        step.key == step.hu % CYCLE,
        step.value == step.hu / CYCLE,
        step.key < CYCLE,
        step.value < CYCLE,
{
    let mut hu = hu + 1;
    let mut wrap_count = wrap_count;
    let mut wrapped = false;
    if hu / CYCLE >= CYCLE {
        hu = 0;
        wrap_count += 1;
        wrapped = true;
    }
    LoopStep {
        hu,
        wrap_count,
        wrapped,
        key: (hu % CYCLE) as u32,
        value: (hu / CYCLE) as u32,
    }
}

/// Whether the insert loop goes on: whether the steps so far, counting the
/// wraps, are fewer than asked for.
pub fn loop_goes_on(hu: usize, wrap_count: u32, loop_count: usize) -> (r: bool)
    ensures
        r == (hu + CYCLE * CYCLE * wrap_count < loop_count),
{
    let per_wrap: u128 = (CYCLE * CYCLE) as u128;
    assert(per_wrap * (wrap_count as u128) <= 65536 * 0xffff_ffff) by (nonlinear_arith)
        requires
            per_wrap == 65536,
            wrap_count <= 0xffff_ffff,
    ;
    (hu as u128) + per_wrap * (wrap_count as u128) < loop_count as u128
}

} // verus!
