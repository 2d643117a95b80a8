use history_checker::counters::{verify_batch, verify_loop, BatchError, LoopError};
use history_checker::ops::{BatchDraws, BatchOp, Op, OpDraws};
use history_checker::recovery::{after_child, after_status, NextStep};
use history_checker::reference::{
    construct_reference, prune_reference, Reference, ReferenceEntry, ReferenceVersion,
};
use history_checker::tree_check::{
    verify_against_ops, verify_against_reference, OpsError, TreeError,
};
use history_checker::util::shift_bytes_by;
use history_checker::workload::{
    advance, chunk_range, chunk_size, loop_goes_on, loop_position,
};
use std::collections::BTreeMap;

fn version(value: Option<u16>, batch: Option<u32>) -> ReferenceVersion {
    ReferenceVersion { value, batch }
}

fn versions_of(reference: &Reference, key: u16) -> Vec<ReferenceVersion> {
    reference.map[&key].versions.clone()
}

fn run(reference: &mut Reference, op: &Op) {
    assert!(reference.admits(op));
    reference.update_before(op);
    reference.update_after(op);
}

#[test]
fn new_reference() {
    let reference = Reference::new();
    assert!(reference.map.is_empty());
    assert_eq!(reference.set_counter, 0);
    assert_eq!(reference.max_id, -1);
    assert_eq!(reference.crash_counter, 0);
    assert_eq!(reference.batch_counter, 1);
}

#[test]
fn writes_and_removals_add_versions() {
    let mut reference = Reference::new();
    run(&mut reference, &Op::Put);
    assert_eq!(reference.set_counter, 1);
    assert_eq!(
        versions_of(&reference, 0),
        vec![version(None, None), version(Some(0), None)]
    );
    run(&mut reference, &Op::Del(0));
    assert_eq!(
        versions_of(&reference, 0),
        vec![
            version(None, None),
            version(Some(0), None),
            version(None, None)
        ]
    );
    // a removal of a key that was never written leaves no trace
    run(&mut reference, &Op::Del(9));
    assert!(!reference.map.contains_key(&9));
    run(&mut reference, &Op::Id);
    run(&mut reference, &Op::Restart);
    run(&mut reference, &Op::DelayedCrash);
    assert_eq!(reference.map.len(), 1);
    assert_eq!(reference.set_counter, 1);
}

#[test]
fn flush_settles_what_was_written_since_the_last_crash() {
    let mut reference = Reference::new();
    run(&mut reference, &Op::Put);
    run(&mut reference, &Op::Put);
    run(&mut reference, &Op::Del(0));
    run(&mut reference, &Op::Flush);
    assert_eq!(versions_of(&reference, 0), vec![version(None, None)]);
    assert_eq!(versions_of(&reference, 1), vec![version(Some(1), None)]);
    // after a crash, what was written before it is not settled by a flush
    run(&mut reference, &Op::Put);
    run(&mut reference, &Op::CrashAndRecoveryVirtualOp(0));
    assert_eq!(reference.crash_counter, 1);
    run(&mut reference, &Op::Flush);
    assert_eq!(
        versions_of(&reference, 2),
        vec![version(None, None), version(Some(2), None)]
    );
}

#[test]
fn batches_stamp_their_versions() {
    let mut reference = Reference::new();
    run(&mut reference, &Op::Put);
    run(
        &mut reference,
        &Op::Batched(vec![BatchOp::Put, BatchOp::Del(0), BatchOp::Put, BatchOp::Del(7)]),
    );
    assert_eq!(reference.set_counter, 3);
    assert_eq!(reference.batch_counter, 2);
    assert_eq!(
        versions_of(&reference, 0),
        vec![
            version(None, None),
            version(Some(0), None),
            version(None, Some(1))
        ]
    );
    assert_eq!(
        versions_of(&reference, 1),
        vec![version(None, None), version(Some(1), Some(1))]
    );
    assert_eq!(
        versions_of(&reference, 2),
        vec![version(None, None), version(Some(2), Some(1))]
    );
    assert!(!reference.map.contains_key(&7));
}

#[test]
fn pruning_after_a_crash() {
    let entry = |versions: Vec<ReferenceVersion>| ReferenceEntry {
        versions,
        crash_epoch: 0,
    };
    let mut map: BTreeMap<u16, ReferenceEntry> = BTreeMap::new();
    // committed batches 1 and 2, discarded batch 3
    map.insert(
        1,
        entry(vec![
            version(None, None),
            version(Some(1), Some(1)),
            version(None, Some(2)),
            version(Some(5), None),
            version(Some(6), Some(3)),
            version(Some(7), None),
        ]),
    );
    // a single version stays whatever its batch
    map.insert(2, entry(vec![version(Some(2), Some(9))]));
    // nothing committed: all before the first discarded version stays
    map.insert(
        3,
        entry(vec![
            version(None, None),
            version(Some(3), None),
            version(None, Some(4)),
        ]),
    );
    // no batch at all
    map.insert(4, entry(vec![version(None, None), version(Some(4), None)]));
    prune_reference(&mut map, 2);
    assert_eq!(
        map[&1].versions,
        vec![version(None, Some(2)), version(Some(5), None)]
    );
    assert_eq!(map[&2].versions, vec![version(Some(2), Some(9))]);
    assert_eq!(
        map[&3].versions,
        vec![version(None, None), version(Some(3), None)]
    );
    assert_eq!(
        map[&4].versions,
        vec![version(None, None), version(Some(4), None)]
    );
}

#[test]
fn generated_ids_must_grow() {
    let mut reference = Reference::new();
    assert!(reference.admits(&Op::IdResultVirtualOp(0)));
    run(&mut reference, &Op::IdResultVirtualOp(0));
    assert_eq!(reference.max_id, 0);
    assert!(!reference.admits(&Op::IdResultVirtualOp(0)));
    assert!(reference.admits(&Op::IdResultVirtualOp(1)));
    run(&mut reference, &Op::IdResultVirtualOp(41));
    assert!(!reference.admits(&Op::IdResultVirtualOp(41)));
    assert!(!reference.admits(&Op::IdResultVirtualOp(u64::MAX)));
}

#[test]
fn counters_have_an_end() {
    let mut reference = Reference::new();
    reference.set_counter = u16::MAX - 1;
    assert!(reference.admits(&Op::Put));
    assert!(reference.admits(&Op::Batched(vec![BatchOp::Put, BatchOp::Del(1)])));
    assert!(!reference.admits(&Op::Batched(vec![BatchOp::Put, BatchOp::Put])));
    run(&mut reference, &Op::Put);
    assert!(!reference.admits(&Op::Put));
    assert!(reference.admits(&Op::Del(3)));
    reference.batch_counter = u32::MAX;
    assert!(!reference.admits(&Op::Batched(vec![])));
    reference.crash_counter = u32::MAX;
    assert!(!reference.admits(&Op::CrashAndRecoveryVirtualOp(0)));
    assert!(construct_reference(&[Op::IdResultVirtualOp(3), Op::IdResultVirtualOp(2)]).is_none());
}

#[test]
fn store_against_model() {
    // key 0 settled, key 1 uncertain, key 2 removed for sure
    let ops = [
        Op::Put,
        Op::Put,
        Op::Put,
        Op::Del(2),
        Op::Flush,
        Op::Del(1),
    ];
    let reference = construct_reference(&ops).unwrap();
    assert_eq!(verify_against_reference(&[0, 1], &reference), Ok(()));
    assert_eq!(verify_against_reference(&[0], &reference), Ok(()));
    assert_eq!(
        verify_against_reference(&[1], &reference),
        Err(TreeError::Skipped {
            expected: 0,
            actual: 1
        })
    );
    assert_eq!(
        verify_against_reference(&[], &reference),
        Err(TreeError::Missing { expected: 0 })
    );
    // keys behind the last key of the model are passed over
    assert_eq!(verify_against_reference(&[0, 2], &reference), Ok(()));
    assert_eq!(verify_against_reference(&[0, 1, 7], &reference), Ok(()));

    // an uncertain key ahead of the store's key
    let ops = [Op::Put, Op::Put, Op::Put, Op::Flush, Op::Del(2), Op::Del(0)];
    let reference = construct_reference(&ops).unwrap();
    assert_eq!(verify_against_reference(&[1, 2], &reference), Ok(()));
    assert_eq!(verify_against_reference(&[0, 1], &reference), Ok(()));
    let ops = [Op::Put, Op::Put, Op::Put, Op::Flush, Op::Del(1), Op::Del(2)];
    let reference = construct_reference(&ops).unwrap();
    assert_eq!(
        verify_against_reference(&[0, 0], &reference),
        Err(TreeError::Unexpected {
            expected: 1,
            actual: 0
        })
    );

    assert!(verify_against_ops(&[0], &[Op::Put, Op::Flush]).is_ok());
    assert_eq!(
        verify_against_ops(&[], &[Op::Put, Op::Flush]).unwrap_err(),
        OpsError::Tree(TreeError::Missing { expected: 0 })
    );
    assert_eq!(
        verify_against_ops(&[], &[Op::IdResultVirtualOp(u64::MAX)]).unwrap_err(),
        OpsError::Inadmissible
    );
}

#[test]
fn operations_from_draws() {
    let draws = |delayed_crash, restart, kind| OpDraws {
        delayed_crash,
        restart,
        kind,
        key: 77,
        batch: vec![
            BatchDraws { put: true, key: 1 },
            BatchDraws { put: false, key: 2 },
        ],
    };
    assert_eq!(Op::generate(&draws(true, true, 0), true), Op::DelayedCrash);
    assert_eq!(Op::generate(&draws(true, true, 0), false), Op::Restart);
    assert_eq!(Op::generate(&draws(true, false, 0), false), Op::Put);
    assert_eq!(Op::generate(&draws(false, false, 1), true), Op::Del(77));
    assert_eq!(Op::generate(&draws(false, false, 2), true), Op::Id);
    assert_eq!(
        Op::generate(&draws(false, false, 3), true),
        Op::Batched(vec![BatchOp::Put, BatchOp::Del(2)])
    );
    assert_eq!(Op::generate(&draws(false, false, 4), true), Op::Flush);
    assert_eq!(
        BatchOp::generate(BatchDraws { put: false, key: 9 }),
        BatchOp::Del(9)
    );
}

#[test]
fn after_the_child() {
    assert_eq!(after_child(true, 0, false, 0), NextStep::Succeed);
    assert_eq!(after_child(true, 0, true, 9), NextStep::Succeed);
    assert_eq!(after_child(true, 3, false, 0), NextStep::FailWithStatus(3));
    assert_eq!(after_child(true, 3, true, 9), NextStep::FailWithStatus(3));
    assert_eq!(after_child(false, 0, true, 9), NextStep::Again);
    assert_eq!(after_child(false, 0, true, 15), NextStep::FailAbnormally);
    assert_eq!(after_child(false, 0, false, 9), NextStep::FailAbnormally);
}

#[test]
fn after_the_status() {
    // the statuses of a child that exited with 0, exited with 3, was killed
    // and was ended by another signal, as this system lays them out
    assert_eq!(after_status(0), NextStep::Succeed);
    assert_eq!(after_status(3 << 8), NextStep::FailWithStatus(3));
    assert_eq!(after_status(9), NextStep::Again);
    assert_eq!(after_status(15), NextStep::FailAbnormally);
}

#[test]
fn batch_workload_store() {
    assert_eq!(verify_batch(5, &[Some(5); 8]), Ok(5));
    assert_eq!(verify_batch(5, &[]), Ok(5));
    assert_eq!(
        verify_batch(5, &[Some(5), None, Some(4)]),
        Err(BatchError::Missing { key: 1 })
    );
    assert_eq!(
        verify_batch(5, &[Some(5), Some(4), None]),
        Err(BatchError::Mismatch {
            key: 1,
            expected: 5,
            actual: 4
        })
    );
}

#[test]
fn insert_loop_store() {
    assert_eq!(verify_loop(&[]), Ok((0, 0)));
    assert_eq!(verify_loop(&[3]), Ok((0, 3)));
    assert_eq!(verify_loop(&[3, 3, 3]), Ok((2, 3)));
    assert_eq!(verify_loop(&[3, 3, 2, 2, 2]), Ok((1, 3)));
    assert_eq!(verify_loop(&[0, 255, 255]), Ok((0, 0)));
    assert_eq!(verify_loop(&[256, 256, 255]), Ok((1, 256)));
    assert_eq!(verify_loop(&[257, 0]), Ok((0, 257)));
    assert_eq!(
        verify_loop(&[3, 3, 1]),
        Err(LoopError::WrongDrop {
            expected: 2,
            actual: 1
        })
    );
    assert_eq!(
        verify_loop(&[3, 2, 2, 3]),
        Err(LoopError::Changed {
            at: 3,
            expected: 2,
            actual: 3
        })
    );
}

#[test]
fn bytes_turned_round() {
    assert_eq!(shift_bytes_by(&[1, 2, 3, 4], 0), vec![1, 2, 3, 4]);
    assert_eq!(shift_bytes_by(&[1, 2, 3, 4], 1), vec![2, 3, 4, 1]);
    assert_eq!(shift_bytes_by(&[1, 2, 3, 4], 6), vec![3, 4, 1, 2]);
    assert_eq!(shift_bytes_by(&[], 3), Vec::<u8>::new());
}

#[test]
fn transactions_are_dealt_out_to_threads() {
    assert_eq!(chunk_size(10, 4), 3);
    assert_eq!(chunk_size(8, 4), 2);
    assert_eq!(chunk_size(0, 4), 0);
    assert_eq!(chunk_size(3, 1), 3);
    assert_eq!(chunk_size(usize::MAX, 1), usize::MAX);
    assert_eq!(chunk_size(usize::MAX, 2), usize::MAX / 2 + 1);
    assert_eq!(chunk_range(0, 3, 10), (0, 3));
    assert_eq!(chunk_range(1, 3, 10), (3, 6));
    assert_eq!(chunk_range(2, 3, 10), (6, 9));
    assert_eq!(chunk_range(3, 3, 10), (9, 10));
    assert_eq!(chunk_range(4, 3, 10), (10, 10));
    // every transaction falls to one thread
    for (count, threads) in [(10usize, 4usize), (7, 7), (1, 5), (0, 3), (100, 1), (13, 6)] {
        let size = chunk_size(count, threads);
        let mut next = 0;
        for thread in 0..threads {
            let (first, behind) = chunk_range(thread, size, count);
            assert_eq!(first, next);
            assert!(first <= behind);
            next = behind;
        }
        assert_eq!(next, count);
    }
}

#[test]
fn the_insert_loop_counts() {
    assert_eq!(loop_position(0, 0), 0);
    assert_eq!(loop_position(3, 17), 3 * 256 + 17);
    let step = advance(3 * 256 + 17, 0);
    assert_eq!(
        (step.hu, step.wrap_count, step.wrapped, step.key, step.value),
        (3 * 256 + 18, 0, false, 18, 3)
    );
    let step = advance(3 * 256 + 255, 2);
    assert_eq!(
        (step.hu, step.wrap_count, step.wrapped, step.key, step.value),
        (4 * 256, 2, false, 0, 4)
    );
    // the rounds are used up: the loop starts again
    let step = advance(256 * 256 - 1, 2);
    assert_eq!(
        (step.hu, step.wrap_count, step.wrapped, step.key, step.value),
        (0, 3, true, 0, 0)
    );
    assert!(loop_goes_on(39, 0, 40));
    assert!(!loop_goes_on(40, 0, 40));
    assert!(!loop_goes_on(0, 1, 65536));
    assert!(loop_goes_on(0, 1, 65537));
    assert!(!loop_goes_on(usize::MAX, u32::MAX, usize::MAX));
}
