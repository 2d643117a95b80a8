//! The reference model of the random workload: for each key, the values
//! that the store may hold, given the operations so far and what is known
//! to have reached the disk.

use crate::ops::{BatchOp, Op, OpModel};
use std::collections::BTreeMap;
use vstd::prelude::*;
use vstd::std_specs::iter::IteratorSpec;

verus! {

/// A value that a key may have: the number stored, or none where the key is
/// absent; and the batch that wrote it, if one did.
#[derive(Debug, Clone, Copy, PartialEq, Eq, Structural)]
pub struct ReferenceVersion {
    pub value: Option<u16>,
    pub batch: Option<u32>,
}

/// The values that a key may have, oldest first, and the number of crashes
/// when the key was last written.
#[derive(Debug)]
pub struct ReferenceEntry {
    pub versions: Vec<ReferenceVersion>,
    pub crash_epoch: u32,
}

/// What an entry holds.
pub struct EntryModel {
    pub versions: Seq<ReferenceVersion>,
    pub crash_epoch: u32,
}

impl View for ReferenceEntry {
    type V = EntryModel;

    open spec fn view(&self) -> EntryModel {
        EntryModel { versions: self.versions@, crash_epoch: self.crash_epoch }
    }
}

/// The reference model.
#[derive(Debug)]
pub struct Reference {
    pub map: BTreeMap<u16, ReferenceEntry>,
    pub set_counter: u16,
    pub max_id: isize,
    pub crash_counter: u32,
    pub batch_counter: u32,
}

/// What a reference model holds.
pub struct ReferenceModel {
    pub entries: Map<u16, EntryModel>,
    pub set_counter: u16,
    pub max_id: int,
    pub crash_counter: u32,
    pub batch_counter: u32,
}

/// What a map of entries holds.
pub open spec fn entries_of(map: Map<u16, ReferenceEntry>) -> Map<u16, EntryModel> {
    Map::new(|k: u16| map.contains_key(k), |k: u16| map[k]@)
}

impl View for Reference {
    type V = ReferenceModel;

    open spec fn view(&self) -> ReferenceModel {
        ReferenceModel {
            entries: entries_of(self.map@),
            set_counter: self.set_counter,
            max_id: self.max_id as int,
            crash_counter: self.crash_counter,
            batch_counter: self.batch_counter,
        }
    }
}

/// The version of a key that was never written or was removed outside a
/// batch.
pub open spec fn absent() -> ReferenceVersion {
    ReferenceVersion { value: None, batch: None }
}

/// `entries` after `key` was written: the version is added to the key's
/// entry and the entry is stamped with `epoch`. A key without an entry gets
/// one that starts with its absence, if `create` says so, and is left
/// without one otherwise.
pub open spec fn written(
    entries: Map<u16, EntryModel>,
    key: u16,
    version: ReferenceVersion,
    epoch: u32,
    create: bool,
) -> Map<u16, EntryModel> {
    if entries.contains_key(key) {
        entries.insert(
            key,
            EntryModel { versions: entries[key].versions.push(version), crash_epoch: epoch },
        )
    } else if create {
        entries.insert(key, EntryModel { versions: seq![absent(), version], crash_epoch: epoch })
    } else {
        entries
    }
}

/// The batch of the version has reached the disk.
pub open spec fn committed(v: ReferenceVersion, stable_batch: u32) -> bool {
    match v.batch {
        Some(batch) => batch <= stable_batch,
        None => false,
    }
}

/// The batch of the version has not reached the disk.
pub open spec fn discarded(v: ReferenceVersion, stable_batch: u32) -> bool {
    match v.batch {
        Some(batch) => batch > stable_batch,
        None => false,
    }
}

/// The place of the last committed version among the first `n`, if there is
/// one.
pub open spec fn last_committed(versions: Seq<ReferenceVersion>, stable_batch: u32, n: nat) -> Option<
    int,
>
    decreases n,
{
    if n == 0 || n > versions.len() {
        None
    } else if committed(versions[n - 1], stable_batch) {
        Some(n - 1)
    } else {
        last_committed(versions, stable_batch, (n - 1) as nat)
    }
}

/// The place of the first discarded version from `from` on, if there is
/// one.
pub open spec fn first_discarded(versions: Seq<ReferenceVersion>, stable_batch: u32, from: int) -> Option<
    int,
>
    decreases versions.len() - from,
{
    if from < 0 || from >= versions.len() {
        None
    } else if discarded(versions[from], stable_batch) {
        Some(from)
    } else {
        first_discarded(versions, stable_batch, from + 1)
    }
}

/// The versions of a key after a crash, given the last batch that reached
/// the disk: those before the last committed version are gone, and so are
/// the first discarded version and all after it. A single version stays.
pub open spec fn pruned_versions(versions: Seq<ReferenceVersion>, stable_batch: u32) -> Seq<
    ReferenceVersion,
> {
    if versions.len() == 1 {
        versions
    } else {
        let tail = match last_committed(versions, stable_batch, versions.len()) {
            Some(at) => versions.skip(at),
            None => versions,
        };
        match first_discarded(tail, stable_batch, 0) {
            Some(at) => tail.take(at),
            None => tail,
        }
    }
}

/// An entry after a crash.
pub open spec fn pruned(e: EntryModel, stable_batch: u32) -> EntryModel {
    EntryModel { versions: pruned_versions(e.versions, stable_batch), ..e }
}

/// An entry after a flush: if the key was written since the last crash,
/// only its last version is left.
pub open spec fn flushed(e: EntryModel, crash_counter: u32) -> EntryModel {
    if e.versions.len() > 1 && e.crash_epoch == crash_counter {
        EntryModel { versions: seq![e.versions.last()], ..e }
    } else {
        e
    }
}

/// The number of writes among the first `n` operations of a batch.
pub open spec fn puts(ops: Seq<BatchOp>, n: nat) -> nat
    decreases n,
{
    if n == 0 || n > ops.len() {
        0
    } else {
        puts(ops, (n - 1) as nat) + (if ops[n - 1] == BatchOp::Put {
            1nat
        } else {
            0nat
        })
    }
}

/// The model after the first `n` operations of a batch were noted.
pub open spec fn batched(m: ReferenceModel, ops: Seq<BatchOp>, n: nat) -> ReferenceModel
    decreases n,
{
    if n == 0 || n > ops.len() {
        m
    } else {
        let prev = batched(m, ops, (n - 1) as nat);
        match ops[n - 1] {
            BatchOp::Put => ReferenceModel {
                entries: written(
                    prev.entries,
                    prev.set_counter,
                    ReferenceVersion {
                        value: Some(prev.set_counter),
                        batch: Some(m.batch_counter),
                    },
                    m.crash_counter,
                    true,
                ),
                set_counter: (prev.set_counter + 1) as u16,
                ..prev
            },
            BatchOp::Del(key) => ReferenceModel {
                entries: written(
                    prev.entries,
                    key as u16,
                    ReferenceVersion { value: None, batch: Some(m.batch_counter) },
                    m.crash_counter,
                    false,
                ),
                ..prev
            },
        }
    }
}

/// Whether the model can note the operation before it is run: the counters
/// have room, and a generated id is larger than all before it.
pub open spec fn admits_before(m: ReferenceModel, op: OpModel) -> bool {
    match op {
        OpModel::Batched(ops) => m.set_counter + puts(ops, ops.len()) <= u16::MAX,
        OpModel::CrashAndRecoveryVirtualOp(_) => m.crash_counter < u32::MAX,
        OpModel::IdResultVirtualOp(id) => m.max_id < id <= isize::MAX,
        _ => true,
    }
}

/// Whether the model can note the operation after it was run: the counters
/// have room.
pub open spec fn admits_after(m: ReferenceModel, op: OpModel) -> bool {
    match op {
        OpModel::Put => m.set_counter < u16::MAX,
        OpModel::Batched(_) => m.batch_counter < u32::MAX,
        _ => true,
    }
}

/// The model after the operation was noted before its run: a write or a
/// removal adds a version that may or may not have reached the store; a
/// crash takes the versions away that cannot be there any more.
pub open spec fn before(m: ReferenceModel, op: OpModel) -> ReferenceModel {
    match op {
        OpModel::Put => ReferenceModel {
            entries: written(
                m.entries,
                m.set_counter,
                ReferenceVersion { value: Some(m.set_counter), batch: None },
                m.crash_counter,
                true,
            ),
            ..m
        },
        OpModel::Del(k) => ReferenceModel {
            entries: written(m.entries, k as u16, absent(), m.crash_counter, false),
            ..m
        },
        OpModel::Batched(ops) => batched(m, ops, ops.len()),
        OpModel::CrashAndRecoveryVirtualOp(stable_batch) => ReferenceModel {
            entries: m.entries.map_values(|e: EntryModel| pruned(e, stable_batch)),
            crash_counter: (m.crash_counter + 1) as u32,
            ..m
        },
        OpModel::IdResultVirtualOp(id) => ReferenceModel { max_id: id as int, ..m },
        _ => m,
    }
}

/// The model after the operation was noted after its run: the counters of
/// writes and of batches go on, and a flush settles what was written since
/// the last crash.
pub open spec fn after(m: ReferenceModel, op: OpModel) -> ReferenceModel {
    match op {
        OpModel::Put => ReferenceModel { set_counter: (m.set_counter + 1) as u16, ..m },
        OpModel::Batched(_) => ReferenceModel {
            batch_counter: (m.batch_counter + 1) as u32,
            ..m
        },
        OpModel::Flush => ReferenceModel {
            entries: m.entries.map_values(|e: EntryModel| flushed(e, m.crash_counter)),
            ..m
        },
        _ => m,
    }
}

/// The model before any operation.
pub open spec fn fresh() -> ReferenceModel {
    ReferenceModel {
        entries: Map::empty(),
        set_counter: 0,
        max_id: -1,
        crash_counter: 0,
        batch_counter: 1,
    }
}

/// Adds a version to the entry of `key`.
fn write_version(
    map: &mut BTreeMap<u16, ReferenceEntry>,
    key: u16,
    version: ReferenceVersion,
    epoch: u32,
    create: bool,
)
    ensures
        entries_of(final(map)@) == written(entries_of(old(map)@), key, version, epoch, create),
{
    broadcast use vstd::std_specs::btree::group_btree_axioms;

    match map.remove(&key) {
        Some(mut entry) => {
            entry.versions.push(version);
            entry.crash_epoch = epoch;
            map.insert(key, entry);
        },
        None => {
            if create {
                let mut versions: Vec<ReferenceVersion> = Vec::new();
                versions.push(ReferenceVersion { value: None, batch: None });
                versions.push(version);
                assert(versions@ =~= seq![absent(), version]);
                map.insert(key, ReferenceEntry { versions, crash_epoch: epoch });
            }
        },
    }
    assert(entries_of(map@) =~= written(entries_of(old(map)@), key, version, epoch, create));
}

/// The keys of the map, each once.
fn keys_of(map: &BTreeMap<u16, ReferenceEntry>) -> (keys: Vec<u16>)
    ensures
        keys@.to_set() == map@.dom(),
        keys@.no_duplicates(),
{
    broadcast use vstd::std_specs::btree::group_btree_axioms;

    let mut keys: Vec<u16> = Vec::new();
    let ghost all = map.keys().remaining();
    for k in it: map.keys()
        invariant
            it.seq() == all,
            keys@ == all.take(it.index()).unref(),
    {
        assert(all.take(it.index() + 1).unref() =~= all.take(it.index()).unref().push(*k));
        keys.push(*k);
    }
    assert(all.take(all.len() as int) =~= all);
    assert(keys@.no_duplicates()) by {
        assert forall|i: int, j: int| 0 <= i < keys@.len() && 0 <= j < keys@.len() && i
            != j implies keys@[i] != keys@[j] by {
            assert(all[i] != all[j]);
        }
    }
    keys
}

/// Whether the batch of the version has reached the disk.
fn is_committed(v: &ReferenceVersion, stable_batch: u32) -> (r: bool)
    ensures
        r == committed(*v, stable_batch),
{
    match v.batch {
        Some(batch) => batch <= stable_batch,
        None => false,
    }
}

/// Whether the batch of the version has not reached the disk.
fn is_discarded(v: &ReferenceVersion, stable_batch: u32) -> (r: bool)
    ensures
        r == discarded(*v, stable_batch),
{
    match v.batch {
        Some(batch) => batch > stable_batch,
        None => false,
    }
}

/// Takes away the versions of the entry that cannot be there after a crash.
fn prune_entry(entry: &mut ReferenceEntry, stable_batch: u32)
    ensures
        final(entry)@ == pruned(old(entry)@, stable_batch),
{
    let ghost versions = entry.versions@;
    if entry.versions.len() == 1 {
        return ;
    }
    // find the last version from a stable batch, if there is one, and throw
    // away all preceding versions
    let mut i: usize = entry.versions.len();
    while i > 0 && !is_committed(&entry.versions[i - 1], stable_batch)
        invariant
            i <= entry.versions.len(),
            entry.versions@ == versions,
            entry.crash_epoch == old(entry).crash_epoch,
            last_committed(versions, stable_batch, versions.len()) == last_committed(
                versions,
                stable_batch,
                i as nat,
            ),
        decreases i,
    {
        i -= 1;
    }
    if i > 0 {
        let committed_index = i - 1;
        let tail_versions = entry.versions.split_off(committed_index);
        entry.versions = tail_versions;
    }
    let ghost tail = entry.versions@;
    assert(tail =~= match last_committed(versions, stable_batch, versions.len()) {
        Some(at) => versions.skip(at),
        None => versions,
    });
    // find the first version from a batch that wasn't committed, throw away
    // it and all subsequent versions
    let mut j: usize = 0;
    while j < entry.versions.len() && !is_discarded(&entry.versions[j], stable_batch)
        invariant
            j <= entry.versions.len(),
            entry.versions@ == tail,
            entry.crash_epoch == old(entry).crash_epoch,
            first_discarded(tail, stable_batch, 0) == first_discarded(
                tail,
                stable_batch,
                j as int,
            ),
        decreases entry.versions.len() - j,
    {
        j += 1;
    }
    if j < entry.versions.len() {
        entry.versions.truncate(j);
    }
    assert(entry.versions@ =~= pruned_versions(versions, stable_batch));
}

/// Settles the entry after a flush.
fn flush_entry(entry: &mut ReferenceEntry, crash_counter: u32)
    ensures
        final(entry)@ == flushed(old(entry)@, crash_counter),
{
    if entry.versions.len() > 1 && entry.crash_epoch == crash_counter {
        let at = entry.versions.len() - 1;
        let last = entry.versions.split_off(at);
        entry.versions = last;
        assert(entry.versions@ =~= seq![old(entry).versions@.last()]);
    }
}

/// What is done to every entry: pruning after a crash, or settling after a
/// flush.
#[derive(Clone, Copy)]
enum Sweep {
    Prune(u32),
    Flush(u32),
}

/// An entry after a sweep.
spec fn swept(e: EntryModel, sweep: Sweep) -> EntryModel {
    match sweep {
        Sweep::Prune(stable_batch) => pruned(e, stable_batch),
        Sweep::Flush(crash_counter) => flushed(e, crash_counter),
    }
}

/// Sweeps every entry of the map.
fn sweep_entries(map: &mut BTreeMap<u16, ReferenceEntry>, sweep: Sweep)
    ensures
        entries_of(final(map)@) == entries_of(old(map)@).map_values(
            |e: EntryModel| swept(e, sweep),
        ),
{
    broadcast use vstd::std_specs::btree::group_btree_axioms;

    let ghost start = entries_of(map@);
    let keys = keys_of(map);
    let mut i: usize = 0;
    while i < keys.len()
        invariant
            i <= keys.len(),
            keys@.to_set() == start.dom(),
            keys@.no_duplicates(),
            entries_of(map@).dom() == start.dom(),
            forall|j: int|
                0 <= j < i ==> entries_of(map@)[#[trigger] keys@[j]] == swept(
                    start[keys@[j]],
                    sweep,
                ),
            forall|j: int|
                i <= j < keys.len() ==> entries_of(map@)[#[trigger] keys@[j]] == start[keys@[j]],
        decreases keys.len() - i,
    {
        let key = keys[i];
        let ghost now = entries_of(map@);
        assert(keys@.to_set().contains(key)) by {
            assert(keys@.contains(keys@[i as int]));
        }
        match map.remove(&key) {
            Some(mut entry) => {
                assert(entry@ == now[key]);
                match sweep {
                    Sweep::Prune(stable_batch) => prune_entry(&mut entry, stable_batch),
                    Sweep::Flush(crash_counter) => flush_entry(&mut entry, crash_counter),
                }
                map.insert(key, entry);
            },
            None => {},
        }
        proof {
            assert(entries_of(map@).dom() =~= start.dom());
            assert forall|j: int| 0 <= j < keys.len() && j != i implies entries_of(
                map@,
            )[#[trigger] keys@[j]] == now[keys@[j]] by {
                assert(keys@[j] != keys@[i as int]);
            }
        }
        i += 1;
    }
    assert(entries_of(map@) =~= start.map_values(|e: EntryModel| swept(e, sweep))) by {
        assert forall|k: u16| start.contains_key(k) implies entries_of(map@)[k] == swept(
            start[k],
            sweep,
        ) by {
            assert(keys@.to_set().contains(k));
            let j = choose|j: int| 0 <= j < keys@.len() && keys@[j] == k;
            assert(entries_of(map@)[keys@[j]] == swept(start[keys@[j]], sweep));
        }
    }
}

/// After a crash, takes away from every entry the versions that cannot be
/// there any more, given the last batch that reached the disk.
pub fn prune_reference(reference: &mut BTreeMap<u16, ReferenceEntry>, stable_batch: u32)
    ensures
        entries_of(final(reference)@) == entries_of(old(reference)@).map_values(
            |e: EntryModel| pruned(e, stable_batch),
        ),
{
    sweep_entries(reference, Sweep::Prune(stable_batch));
    assert(entries_of(old(reference)@).map_values(
        |e: EntryModel| swept(e, Sweep::Prune(stable_batch)),
    ) =~= entries_of(old(reference)@).map_values(|e: EntryModel| pruned(e, stable_batch)));
}

impl Reference {
    /// The model before any operation.
    pub fn new() -> (reference: Reference)
        ensures
            reference@ == fresh(),
    {
        let reference = Reference {
            map: BTreeMap::new(),
            set_counter: 0,
            max_id: -1,
            crash_counter: 0,
            batch_counter: 1,
        };
        assert(reference@.entries =~= Map::<u16, EntryModel>::empty());
        reference
    }

    /// Whether the model can note the operation before and after its run.
    pub fn admits(&self, op: &Op) -> (r: bool)
        ensures
            r == (admits_before(self@, op@) && admits_after(before(self@, op@), op@)),
    {
        match op {
            Op::Put => self.set_counter < u16::MAX,
            Op::Batched(batch_ops) => {
                let mut room: u16 = u16::MAX - self.set_counter;
                let mut i: usize = 0;
                while i < batch_ops.len()
                    invariant
                        i <= batch_ops.len(),
                        op@ == OpModel::Batched(batch_ops@),
                        room + puts(batch_ops@, i as nat) == u16::MAX - self.set_counter,
                    decreases batch_ops.len() - i,
                {
                    match batch_ops[i] {
                        BatchOp::Put => {
                            if room == 0 {
                                proof {
                                    assert(puts(batch_ops@, (i + 1) as nat) == puts(
                                        batch_ops@,
                                        i as nat,
                                    ) + 1);
                                    lemma_puts_grow(batch_ops@, (i + 1) as nat, batch_ops@.len());
                                }
                                return false;
                            }
                            room -= 1;
                        },
                        BatchOp::Del(_) => {},
                    }
                    i += 1;
                }
                proof {
                    lemma_batched_counters(self@, batch_ops@, batch_ops@.len());
                }
                self.batch_counter < u32::MAX
            },
            Op::CrashAndRecoveryVirtualOp(_) => self.crash_counter < u32::MAX,
            Op::IdResultVirtualOp(id) => {
                if *id > isize::MAX as u64 {
                    false
                } else {
                    *id as isize > self.max_id
                }
            },
            _ => true,
        }
    }

    /// Notes an operation before it is run.
    pub fn update_before(&mut self, op: &Op)
        requires
            admits_before(old(self)@, op@),
        ensures
            final(self)@ == before(old(self)@, op@),
    {
        match op {
            Op::Put => {
                // The key could be present from now on. The next flush will
                // require it to be present, unless there is a crash before.
                write_version(
                    &mut self.map,
                    self.set_counter,
                    ReferenceVersion { value: Some(self.set_counter), batch: None },
                    self.crash_counter,
                    true,
                );
            },
            Op::Del(k) => {
                write_version(
                    &mut self.map,
                    *k as u16,
                    ReferenceVersion { value: None, batch: None },
                    self.crash_counter,
                    false,
                );
            },
            Op::Id => {},
            Op::Batched(batch_ops) => {
                let crash_counter_copy = self.crash_counter;
                let batch_counter_copy = self.batch_counter;
                let mut i: usize = 0;
                while i < batch_ops.len()
                    invariant
                        i <= batch_ops.len(),
                        crash_counter_copy == old(self).crash_counter,
                        batch_counter_copy == old(self).batch_counter,
                        old(self)@.set_counter + puts(batch_ops@, batch_ops@.len()) <= u16::MAX,
                        self@ == batched(old(self)@, batch_ops@, i as nat),
                        self@.set_counter == old(self)@.set_counter + puts(batch_ops@, i as nat),
                    decreases batch_ops.len() - i,
                {
                    proof {
                        lemma_puts_grow(batch_ops@, (i + 1) as nat, batch_ops@.len());
                    }
                    match batch_ops[i] {
                        BatchOp::Put => {
                            write_version(
                                &mut self.map,
                                self.set_counter,
                                ReferenceVersion {
                                    value: Some(self.set_counter),
                                    batch: Some(batch_counter_copy),
                                },
                                crash_counter_copy,
                                true,
                            );
                            self.set_counter += 1;
                        },
                        BatchOp::Del(key) => {
                            write_version(
                                &mut self.map,
                                key as u16,
                                ReferenceVersion { value: None, batch: Some(batch_counter_copy) },
                                crash_counter_copy,
                                false,
                            );
                        },
                    }
                    i += 1;
                }
            },
            Op::Restart => {},
            Op::Flush => {},
            Op::DelayedCrash => {},
            Op::CrashAndRecoveryVirtualOp(batch_counter) => {
                self.crash_counter += 1;
                prune_reference(&mut self.map, *batch_counter);
            },
            Op::IdResultVirtualOp(id) => {
                self.max_id = *id as isize;
            },
        }
    }

    /// Notes an operation after it was run.
    pub fn update_after(&mut self, op: &Op)
        requires
            admits_after(old(self)@, op@),
        ensures
            final(self)@ == after(old(self)@, op@),
    {
        match op {
            Op::Put => {
                self.set_counter += 1;
            },
            Op::Del(_) => {},
            Op::Id => {},
            Op::Batched(_) => {
                self.batch_counter += 1;
            },
            Op::Restart => {},
            Op::Flush => {
                // Once a flush has completed, what was written since the
                // last crash is on the disk: of each key written since, the
                // last version alone is left.
                sweep_entries(&mut self.map, Sweep::Flush(self.crash_counter));
                assert(old(self)@.entries.map_values(
                    |e: EntryModel| swept(e, Sweep::Flush(self.crash_counter)),
                ) =~= old(self)@.entries.map_values(
                    |e: EntryModel| flushed(e, old(self)@.crash_counter),
                ));
            },
            Op::DelayedCrash => {},
            Op::CrashAndRecoveryVirtualOp(_) => {},
            Op::IdResultVirtualOp(_) => {},
        }
    }
}

/// The number of writes in a batch grows with its length.
pub proof fn lemma_puts_grow(ops: Seq<BatchOp>, m: nat, n: nat)
    requires
        m <= n <= ops.len(),
    ensures
        puts(ops, m) <= puts(ops, n),
    decreases n,
{
    if m < n {
        lemma_puts_grow(ops, m, (n - 1) as nat);
    }
}

/// A batch moves the counter of writes by the number of its writes, where
/// that has room, and leaves the other counters alone.
pub proof fn lemma_batched_counters(m: ReferenceModel, ops: Seq<BatchOp>, n: nat)
    requires
        n <= ops.len(),
        m.set_counter + puts(ops, n) <= u16::MAX,
    ensures
        batched(m, ops, n).set_counter == m.set_counter + puts(ops, n),
        batched(m, ops, n).batch_counter == m.batch_counter,
        batched(m, ops, n).crash_counter == m.crash_counter,
        batched(m, ops, n).max_id == m.max_id,
    decreases n,
{
    if n > 0 {
        lemma_batched_counters(m, ops, (n - 1) as nat);
    }
}

/// The model after the first `n` operations were run, each noted before and
/// after.
pub open spec fn constructed(ops: Seq<OpModel>, n: nat) -> ReferenceModel
    decreases n,
{
    if n == 0 || n > ops.len() {
        fresh()
    } else {
        after(before(constructed(ops, (n - 1) as nat), ops[n - 1]), ops[n - 1])
    }
}

/// Every one of the first `n` operations can be noted, in its turn.
pub open spec fn admissible(ops: Seq<OpModel>, n: nat) -> bool
    decreases n,
{
    if n == 0 || n > ops.len() {
        true
    } else {
        let m = constructed(ops, (n - 1) as nat);
        admissible(ops, (n - 1) as nat) && admits_before(m, ops[n - 1]) && admits_after(
            before(m, ops[n - 1]),
            ops[n - 1],
        )
    }
}

/// What a list of operations holds.
pub open spec fn op_views(ops: Seq<Op>) -> Seq<OpModel> {
    Seq::new(ops.len(), |i: int| ops[i]@)
}

/// The model after the operations were run; none where one of them cannot
/// be noted.
pub fn construct_reference(ops: &[Op]) -> (r: Option<Reference>)
    ensures
        match r {
            Some(reference) => admissible(op_views(ops@), ops@.len()) && reference@ == constructed(
                op_views(ops@),
                ops@.len(),
            ),
            None => !admissible(op_views(ops@), ops@.len()),
        },
{
    let ghost all = op_views(ops@);
    let mut reference = Reference::new();
    let mut i: usize = 0;
    while i < ops.len()
        invariant
            i <= ops.len(),
            all == op_views(ops@),
            admissible(all, i as nat),
            reference@ == constructed(all, i as nat),
        decreases ops.len() - i,
    {
        assert(all[i as int] == ops[i as int]@);
        if !reference.admits(&ops[i]) {
            proof {
                if admissible(all, all.len()) {
                    lemma_admissible_prefix(all, (i + 1) as nat, all.len());
                }
            }
            return None;
        }
        reference.update_before(&ops[i]);
        reference.update_after(&ops[i]);
        i += 1;
    }
    Some(reference)
}

/// Operations that can all be noted can be noted up to any point.
pub proof fn lemma_admissible_prefix(ops: Seq<OpModel>, m: nat, n: nat)
    requires
        m <= n <= ops.len(),
        admissible(ops, n),
    ensures
        admissible(ops, m),
    decreases n,
{
    if m < n {
        lemma_admissible_prefix(ops, m, (n - 1) as nat);
    }
}

} // verus!
