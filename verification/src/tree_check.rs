//! The comparison of a recovered store with the reference model: the keys
//! of the store, in order, against the keys that the model holds.

use crate::ops::Op;
use crate::reference::{
    admissible, construct_reference, constructed, entries_of, op_views, EntryModel, Reference,
    ReferenceEntry, ReferenceVersion,
};
use std::collections::BTreeMap;
use vstd::prelude::*;

verus! {

/// What the model says of a key.
#[derive(Debug, Clone, Copy, PartialEq, Eq, Structural)]
pub enum Presence {
    /// Every version of the key is its absence: the store must not hold it.
    Absent,
    /// Every version of the key is a value: the store must hold it.
    Present,
    /// The store may hold the key or not.
    Uncertain,
}

/// Why a store is not one that the model allows.
#[derive(Debug, Clone, Copy, PartialEq, Eq, Structural)]
pub enum TreeError {
    /// The store holds `actual` where it must hold `expected` first.
    Skipped { expected: u16, actual: u16 },
    /// The store holds `actual`, which the model does not allow before
    /// `expected`.
    Unexpected { expected: u16, actual: u16 },
    /// The store ends without `expected`, which it must hold.
    Missing { expected: u16 },
}

/// The first `n` versions are all absences.
pub open spec fn all_absent(versions: Seq<ReferenceVersion>, n: nat) -> bool
    decreases n,
{
    if n == 0 || n > versions.len() {
        true
    } else {
        all_absent(versions, (n - 1) as nat) && versions[n - 1].value is None
    }
}

/// The first `n` versions are all values.
pub open spec fn all_present(versions: Seq<ReferenceVersion>, n: nat) -> bool
    decreases n,
{
    if n == 0 || n > versions.len() {
        true
    } else {
        all_present(versions, (n - 1) as nat) && versions[n - 1].value is Some
    }
}

/// What versions say of their key. Without a version the key is absent.
pub open spec fn presence(versions: Seq<ReferenceVersion>) -> Presence {
    if all_absent(versions, versions.len()) {
        Presence::Absent
    } else if all_present(versions, versions.len()) {
        Presence::Present
    } else {
        Presence::Uncertain
    }
}

/// The keys below `n` that the model holds, in order, each with what the
/// model says of it.
pub open spec fn listing(entries: Map<u16, EntryModel>, n: nat) -> Seq<(u16, Presence)>
    decreases n,
{
    if n == 0 || n > 0x1_0000 {
        Seq::empty()
    } else {
        let rest = listing(entries, (n - 1) as nat);
        let key = (n - 1) as u16;
        if entries.contains_key(key) {
            rest.push((key, presence(entries[key].versions)))
        } else {
            rest
        }
    }
}

/// For a key `actual` of the store, goes through the model's keys from
/// place `r` on: keys that must be absent are passed over; a key that must
/// be present has to be `actual`; a key that may be present is `actual`, or
/// is smaller and passed over. The result is the place behind the key that
/// was found, or behind the last key where none was.
pub open spec fn seek(refs: Seq<(u16, Presence)>, r: int, actual: u16) -> Result<int, TreeError>
    decreases refs.len() - r,
{
    if r < 0 || r >= refs.len() {
        Ok(r)
    } else {
        let expected = refs[r].0;
        match refs[r].1 {
            Presence::Absent => seek(refs, r + 1, actual),
            Presence::Present => if actual == expected {
                Ok(r + 1)
            } else {
                Err(TreeError::Skipped { expected, actual })
            },
            Presence::Uncertain => if actual == expected {
                Ok(r + 1)
            } else if expected > actual {
                Err(TreeError::Unexpected { expected, actual })
            } else {
                seek(refs, r + 1, actual)
            },
        }
    }
}

/// None of the model's keys from place `r` on must be present.
pub open spec fn rest(refs: Seq<(u16, Presence)>, r: int) -> Result<(), TreeError>
    decreases refs.len() - r,
{
    if r < 0 || r >= refs.len() {
        Ok(())
    } else if refs[r].1 == Presence::Present {
        Err(TreeError::Missing { expected: refs[r].0 })
    } else {
        rest(refs, r + 1)
    }
}

/// The keys of the store from place `t` on against the model's keys from
/// place `r` on.
pub open spec fn walk(tree: Seq<u16>, t: int, refs: Seq<(u16, Presence)>, r: int) -> Result<
    (),
    TreeError,
>
    decreases tree.len() - t,
{
    if t < 0 || t >= tree.len() {
        rest(refs, r)
    } else {
        match seek(refs, r, tree[t]) {
            Ok(next) => walk(tree, t + 1, refs, next),
            Err(e) => Err(e),
        }
    }
}

/// Whether the model allows a store with these keys, in this order.
pub open spec fn tree_verdict(tree: Seq<u16>, entries: Map<u16, EntryModel>) -> Result<
    (),
    TreeError,
> {
    walk(tree, 0, listing(entries, 0x1_0000), 0)
}

/// What the versions of an entry say of its key.
fn presence_of(entry: &ReferenceEntry) -> (p: Presence)
    ensures
        p == presence(entry@.versions),
{
    let mut none = true;
    let mut some = true;
    let mut i: usize = 0;
    while i < entry.versions.len()
        invariant
            i <= entry.versions.len(),
            none == all_absent(entry.versions@, i as nat),
            some == all_present(entry.versions@, i as nat),
        decreases entry.versions.len() - i,
    {
        if entry.versions[i].value.is_none() {
            some = false;
        } else {
            none = false;
        }
        i += 1;
    }
    if none {
        Presence::Absent
    } else if some {
        Presence::Present
    } else {
        Presence::Uncertain
    }
}

/// The keys that the model holds, in order, each with what the model says
/// of it.
fn list_entries(map: &BTreeMap<u16, ReferenceEntry>) -> (refs: Vec<(u16, Presence)>)
    ensures
        refs@ == listing(entries_of(map@), 0x1_0000),
{
    broadcast use vstd::std_specs::btree::group_btree_axioms;

    let mut refs: Vec<(u16, Presence)> = Vec::new();
    let mut n: u32 = 0;
    while n < 0x1_0000
        invariant
            n <= 0x1_0000,
            refs@ == listing(entries_of(map@), n as nat),
        decreases 0x1_0000 - n,
    {
        let key = n as u16;
        match map.get(&key) {
            Some(entry) => {
                refs.push((key, presence_of(entry)));
            },
            None => {},
        }
        n += 1;
    }
    refs
}

/// Checks the keys of a recovered store, as the store lists them, against
/// the reference model.
pub fn verify_against_reference(tree_keys: &[u16], reference: &Reference) -> (r: Result<
    (),
    TreeError,
>)
    ensures
        r == tree_verdict(tree_keys@, reference@.entries),
{
    let refs = list_entries(&reference.map);
    let mut r: usize = 0;
    let mut t: usize = 0;
    while t < tree_keys.len()
        invariant
            t <= tree_keys.len(),
            r <= refs.len(),
            refs@ == listing(reference@.entries, 0x1_0000),
            walk(tree_keys@, t as int, refs@, r as int) == walk(tree_keys@, 0, refs@, 0),
        decreases tree_keys.len() - t,
    {
        let actual = tree_keys[t];
        // make sure the key of the store is in the model
        let ghost start = r;
        let mut found = false;
        while !found && r < refs.len()
            invariant
                r <= refs.len(),
                t < tree_keys.len(),
                actual == tree_keys@[t as int],
                refs@ == listing(reference@.entries, 0x1_0000),
                walk(tree_keys@, t as int, refs@, start as int) == walk(tree_keys@, 0, refs@, 0),
                !found ==> seek(refs@, r as int, actual) == seek(refs@, start as int, actual),
                found ==> seek(refs@, start as int, actual) == Ok::<int, TreeError>(r as int),
            decreases refs.len() - r + (if found {
                0int
            } else {
                1int
            }),
        {
            let ref_key = refs[r].0;
            match refs[r].1 {
                Presence::Absent => {
                    // this key should not be in the store, skip it
                    r += 1;
                },
                Presence::Present => {
                    // this key must be in the store
                    if actual != ref_key {
                        return Err(TreeError::Skipped { expected: ref_key, actual });
                    }
                    r += 1;
                    found = true;
                },
                Presence::Uncertain => {
                    // This key could be in the store or not. If the keys
                    // differ and the store is ahead of the model, the key
                    // happens to be absent. If the model is ahead, the store
                    // holds a key that it should not.
                    if actual == ref_key {
                        r += 1;
                        found = true;
                    } else if ref_key > actual {
                        return Err(TreeError::Unexpected { expected: ref_key, actual });
                    } else {
                        r += 1;
                    }
                },
            }
        }
        t += 1;
    }
    while r < refs.len()
        invariant
            r <= refs.len(),
            refs@ == listing(reference@.entries, 0x1_0000),
            rest(refs@, r as int) == walk(tree_keys@, 0, refs@, 0),
        decreases refs.len() - r,
    {
        match refs[r].1 {
            Presence::Present => {
                // this key had to be in the store, but the store has ended
                return Err(TreeError::Missing { expected: refs[r].0 });
            },
            _ => {},
        }
        r += 1;
    }
    Ok(())
}

/// Why a store is not what a list of operations leaves.
#[derive(Debug, Clone, Copy, PartialEq, Eq, Structural)]
pub enum OpsError {
    /// One of the operations cannot be noted in the model.
    Inadmissible,
    /// The model does not allow the store.
    Tree(TreeError),
}

/// Checks the keys of a recovered store against the model that the
/// operations make, and hands the model on.
pub fn verify_against_ops(tree_keys: &[u16], ops: &[Op]) -> (r: Result<Reference, OpsError>)
    ensures
        match r {
            Ok(reference) => admissible(op_views(ops@), ops@.len()) && reference@ == constructed(
                op_views(ops@),
                ops@.len(),
            ) && tree_verdict(tree_keys@, reference@.entries) is Ok,
            Err(OpsError::Inadmissible) => !admissible(op_views(ops@), ops@.len()),
            Err(OpsError::Tree(e)) => admissible(op_views(ops@), ops@.len()) && tree_verdict(
                tree_keys@,
                constructed(op_views(ops@), ops@.len()).entries,
            ) == Err::<(), TreeError>(e),
        },
{
    match construct_reference(ops) {
        None => Err(OpsError::Inadmissible),
        Some(reference) => match verify_against_reference(tree_keys, &reference) {
            Ok(()) => Ok(reference),
            Err(e) => Err(OpsError::Tree(e)),
        },
    }
}

} // verus!
