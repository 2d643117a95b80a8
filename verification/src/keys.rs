//! Keys: byte strings in lexicographic order, and the set of keys that a
//! list of transactions names.

use crate::history::{key_of, OperationModel, TransactionSpec};
use crate::ordered::{
    all_after, ascending, insert, lemma_insert_ascending, lemma_insert_at, lemma_insert_members,
    strict_order,
};
use vstd::prelude::*;

verus! {

/// The lexicographic order of byte strings: at the first place where two
/// strings differ the smaller byte decides, and a proper prefix comes first.
pub open spec fn bytes_precede(a: Seq<u8>, b: Seq<u8>) -> bool
    decreases a.len(),
{
    if b.len() == 0 {
        false
    } else if a.len() == 0 {
        true
    } else if a[0] != b[0] {
        a[0] < b[0]
    } else {
        bytes_precede(a.skip(1), b.skip(1))
    }
}

/// The order of keys, as a relation.
pub open spec fn key_order() -> spec_fn(Seq<u8>, Seq<u8>) -> bool {
    |a: Seq<u8>, b: Seq<u8>| bytes_precede(a, b)
}

/// Of two keys at most one comes before the other.
proof fn lemma_bytes_asymmetric(a: Seq<u8>, b: Seq<u8>)
    ensures
        bytes_precede(a, b) ==> !bytes_precede(b, a),
    decreases a.len(),
{
    if a.len() > 0 && b.len() > 0 && a[0] == b[0] {
        lemma_bytes_asymmetric(a.skip(1), b.skip(1));
    }
}

/// Of two different keys one comes before the other.
proof fn lemma_bytes_total(a: Seq<u8>, b: Seq<u8>)
    ensures
        a == b || bytes_precede(a, b) || bytes_precede(b, a),
    decreases a.len(),
{
    if a.len() > 0 && b.len() > 0 && a[0] == b[0] {
        lemma_bytes_total(a.skip(1), b.skip(1));
        if a.skip(1) == b.skip(1) {
            assert(a =~= seq![a[0]] + a.skip(1));
            assert(b =~= seq![b[0]] + b.skip(1));
        }
    } else if a.len() == 0 && b.len() == 0 {
        assert(a =~= b);
    }
}

/// A key that comes before a second comes before all that the second comes
/// before.
proof fn lemma_bytes_transitive(a: Seq<u8>, b: Seq<u8>, c: Seq<u8>)
    ensures
        bytes_precede(a, b) && bytes_precede(b, c) ==> bytes_precede(a, c),
    decreases a.len(),
{
    if a.len() > 0 && b.len() > 0 && c.len() > 0 && a[0] == b[0] && b[0] == c[0] {
        lemma_bytes_transitive(a.skip(1), b.skip(1), c.skip(1));
    }
}

/// The order of keys is a strict total order.
pub proof fn lemma_key_order()
    ensures
        strict_order(key_order()),
{
    let lt = key_order();
    assert forall|x: Seq<u8>, y: Seq<u8>| #[trigger] lt(x, y) implies !lt(y, x) by {
        lemma_bytes_asymmetric(x, y);
    }
    assert forall|x: Seq<u8>, y: Seq<u8>| x == y || #[trigger] lt(x, y) || lt(y, x) by {
        lemma_bytes_total(x, y);
    }
    assert forall|x: Seq<u8>, y: Seq<u8>, z: Seq<u8>| #[trigger]
        lt(x, y) && #[trigger] lt(y, z) implies lt(x, z) by {
        lemma_bytes_transitive(x, y, z);
    }
}

/// Where two strings agree up to `i`, what follows decides their order.
proof fn lemma_bytes_common_prefix(a: Seq<u8>, b: Seq<u8>, i: int)
    requires
        0 <= i <= a.len(),
        i <= b.len(),
        a.take(i) == b.take(i),
    ensures
        bytes_precede(a, b) == bytes_precede(a.skip(i), b.skip(i)),
    decreases i,
{
    if i > 0 {
        assert(a[0] == a.take(i)[0] && b[0] == b.take(i)[0]);
        assert(a.skip(1).take(i - 1) =~= a.take(i).skip(1));
        assert(b.skip(1).take(i - 1) =~= b.take(i).skip(1));
        lemma_bytes_common_prefix(a.skip(1), b.skip(1), i - 1);
        assert(a.skip(1).skip(i - 1) =~= a.skip(i));
        assert(b.skip(1).skip(i - 1) =~= b.skip(i));
    } else {
        assert(a.skip(0) =~= a);
        assert(b.skip(0) =~= b);
    }
}

/// Whether two byte strings are equal.
pub fn bytes_equal(a: &[u8], b: &[u8]) -> (r: bool)
    ensures
        r == (a@ == b@),
{
    if a.len() != b.len() {
        return false;
    }
    let mut i: usize = 0;
    while i < a.len()
        invariant
            i <= a.len(),
            a.len() == b.len(),
            a@.take(i as int) == b@.take(i as int),
        decreases a.len() - i,
    {
        if a[i] != b[i] {
            return false;
        }
        assert(a@.take(i + 1) =~= a@.take(i as int).push(a@[i as int]));
        assert(b@.take(i + 1) =~= b@.take(i as int).push(b@[i as int]));
        i += 1;
    }
    assert(a@.take(i as int) =~= a@);
    assert(b@.take(i as int) =~= b@);
    true
}

/// Whether `a` comes before `b` in the order of keys.
pub fn bytes_less(a: &[u8], b: &[u8]) -> (r: bool)
    ensures
        r == bytes_precede(a@, b@),
{
    let mut i: usize = 0;
    while i < a.len() && i < b.len()
        invariant
            i <= a.len(),
            i <= b.len(),
            a@.take(i as int) == b@.take(i as int),
        decreases a.len() - i,
    {
        proof {
            lemma_bytes_common_prefix(a@, b@, i as int);
        }
        if a[i] != b[i] {
            return a[i] < b[i];
        }
        assert(a@.take(i + 1) =~= a@.take(i as int).push(a@[i as int]));
        assert(b@.take(i + 1) =~= b@.take(i as int).push(b@[i as int]));
        i += 1;
    }
    proof {
        lemma_bytes_common_prefix(a@, b@, i as int);
    }
    i < b.len()
}

/// What a list of keys holds.
pub open spec fn key_views(keys: Seq<Vec<u8>>) -> Seq<Seq<u8>> {
    Seq::new(keys.len(), |i: int| keys[i]@)
}

/// A copy of a byte string.
pub fn copy_bytes(a: &[u8]) -> (r: Vec<u8>)
    ensures
        r@ == a@,
{
    let mut r: Vec<u8> = Vec::new();
    let mut i: usize = 0;
    while i < a.len()
        invariant
            i <= a.len(),
            r@ == a@.take(i as int),
        decreases a.len() - i,
    {
        r.push(a[i]);
        assert(a@.take(i + 1) =~= a@.take(i as int).push(a@[i as int]));
        i += 1;
    }
    assert(a@.take(i as int) =~= a@);
    r
}

/// Puts `key` at its place among `keys`, unless it is there already.
pub fn insert_key(keys: &mut Vec<Vec<u8>>, key: &[u8])
    ensures
        key_views(final(keys)@) == insert(key_views(old(keys)@), key@, key_order()),
{
    let ghost s = key_views(keys@);
    let mut i: usize = keys.len();
    while i > 0 && !bytes_equal(keys[i - 1].as_slice(), key) && !bytes_less(
        keys[i - 1].as_slice(),
        key,
    )
        invariant
            i <= keys.len(),
            keys@ == old(keys)@,
            s == key_views(keys@),
            all_after(s, i as int, key@, key_order()),
        decreases i,
    {
        assert(s[i - 1] == keys[i - 1]@);
        i -= 1;
    }
    proof {
        if i > 0 {
            assert(s[i - 1] == keys[i - 1]@);
        }
    }
    if i > 0 && bytes_equal(keys[i - 1].as_slice(), key) {
        proof {
            lemma_insert_at(s, i as int, key@, key_order());
        }
        return ;
    }
    proof {
        lemma_insert_at(s, i as int, key@, key_order());
    }
    let copy = copy_bytes(key);
    keys.insert(i, copy);
    assert(key_views(keys@) =~= s.insert(i as int, key@));
}

/// `keys` with the keys named by the first `n` of `ops` put in.
pub open spec fn with_keys_of(keys: Seq<Seq<u8>>, ops: Seq<OperationModel>, n: nat) -> Seq<
    Seq<u8>,
>
    decreases n,
{
    if n == 0 || n > ops.len() {
        keys
    } else {
        insert(with_keys_of(keys, ops, (n - 1) as nat), key_of(ops[n - 1]), key_order())
    }
}

/// The keys named by the first `n` transactions, without repetition and in
/// order.
pub open spec fn keys_named(specs: Seq<Seq<OperationModel>>, n: nat) -> Seq<Seq<u8>>
    decreases n,
{
    if n == 0 || n > specs.len() {
        Seq::empty()
    } else {
        with_keys_of(keys_named(specs, (n - 1) as nat), specs[n - 1], specs[n - 1].len())
    }
}

/// The keys named by any of the transactions, without repetition and in
/// order.
pub open spec fn all_keys(specs: Seq<Seq<OperationModel>>) -> Seq<Seq<u8>> {
    keys_named(specs, specs.len())
}

/// Puts the keys that the operations name among `keys`.
pub fn insert_keys_of(keys: &mut Vec<Vec<u8>>, spec: &TransactionSpec)
    ensures
        key_views(final(keys)@) == with_keys_of(key_views(old(keys)@), spec@, spec@.len()),
{
    let mut i: usize = 0;
    while i < spec.ops.len()
        invariant
            i <= spec.ops.len(),
            key_views(keys@) == with_keys_of(key_views(old(keys)@), spec@, i as nat),
        decreases spec.ops.len() - i,
    {
        assert(spec@[i as int] == spec.ops[i as int]@);
        insert_key(keys, spec.ops[i].key());
        i += 1;
    }
}

/// What a list of transaction specifications holds.
pub open spec fn spec_views(specs: Seq<TransactionSpec>) -> Seq<Seq<OperationModel>> {
    Seq::new(specs.len(), |i: int| specs[i]@)
}

/// The keys that the transactions name, without repetition and in order.
pub fn named_keys(specs: &[TransactionSpec]) -> (keys: Vec<Vec<u8>>)
    ensures
        key_views(keys@) == all_keys(spec_views(specs@)),
{
    let mut keys: Vec<Vec<u8>> = Vec::new();
    let mut i: usize = 0;
    assert(key_views(keys@) =~= Seq::<Seq<u8>>::empty());
    while i < specs.len()
        invariant
            i <= specs.len(),
            key_views(keys@) == keys_named(spec_views(specs@), i as nat),
        decreases specs.len() - i,
    {
        assert(spec_views(specs@)[i as int] == specs[i as int]@);
        insert_keys_of(&mut keys, &specs[i]);
        i += 1;
    }
    keys
}

/// Whether `key` is among `keys`.
pub fn is_named(keys: &Vec<Vec<u8>>, key: &[u8]) -> (found: bool)
    ensures
        found == key_views(keys@).contains(key@),
{
    let mut i: usize = 0;
    while i < keys.len()
        invariant
            i <= keys.len(),
            forall|j: int| 0 <= j < i ==> key_views(keys@)[j] != key@,
        decreases keys.len() - i,
    {
        assert(key_views(keys@)[i as int] == keys[i as int]@);
        if bytes_equal(keys[i].as_slice(), key) {
            return true;
        }
        i += 1;
    }
    false
}

/// Some operation of some transaction names `key`.
pub open spec fn names(specs: Seq<Seq<OperationModel>>, key: Seq<u8>) -> bool {
    exists|t: int, o: int|
        0 <= t < specs.len() && 0 <= o < specs[t].len() && key_of(#[trigger] specs[t][o]) == key
}

/// Putting in the keys of operations keeps the order and adds exactly the
/// keys that the operations name.
proof fn lemma_with_keys_of(keys: Seq<Seq<u8>>, ops: Seq<OperationModel>, n: nat)
    requires
        n <= ops.len(),
        ascending(keys, key_order()),
    ensures
        ascending(with_keys_of(keys, ops, n), key_order()),
        forall|k: Seq<u8>| #[trigger]
            with_keys_of(keys, ops, n).contains(k) <==> (keys.contains(k) || exists|o: int|
                0 <= o < n && key_of(#[trigger] ops[o]) == k),
    decreases n,
{
    if n > 0 {
        let prev = with_keys_of(keys, ops, (n - 1) as nat);
        lemma_with_keys_of(keys, ops, (n - 1) as nat);
        lemma_key_order();
        lemma_insert_ascending(prev, key_of(ops[n - 1]), key_order());
        lemma_insert_members(prev, key_of(ops[n - 1]), key_order());
        assert forall|k: Seq<u8>| #[trigger]
            with_keys_of(keys, ops, n).contains(k) <==> (keys.contains(k) || exists|o: int|
                0 <= o < n && key_of(#[trigger] ops[o]) == k) by {
            if prev.contains(k) && !keys.contains(k) {
                let o = choose|o: int| 0 <= o < n - 1 && key_of(#[trigger] ops[o]) == k;
                assert(0 <= o < n && key_of(ops[o]) == k);
            }
            if exists|o: int| 0 <= o < n && key_of(#[trigger] ops[o]) == k {
                let o = choose|o: int| 0 <= o < n && key_of(#[trigger] ops[o]) == k;
                if o < n - 1 {
                    assert(prev.contains(k));
                }
            }
        }
    }
}

/// The keys named by the first `n` transactions are in order and are exactly
/// the keys that their operations name.
proof fn lemma_keys_named(specs: Seq<Seq<OperationModel>>, n: nat)
    requires
        n <= specs.len(),
    ensures
        ascending(keys_named(specs, n), key_order()),
        forall|k: Seq<u8>| #[trigger]
            keys_named(specs, n).contains(k) <==> names(specs.take(n as int), k),
    decreases n,
{
    if n > 0 {
        let prev = keys_named(specs, (n - 1) as nat);
        let ops = specs[n - 1];
        lemma_keys_named(specs, (n - 1) as nat);
        lemma_with_keys_of(prev, ops, ops.len());
        let now = specs.take(n as int);
        let before = specs.take(n - 1);
        assert forall|k: Seq<u8>| #[trigger]
            keys_named(specs, n).contains(k) <==> names(now, k) by {
            if prev.contains(k) {
                assert(names(before, k));
                let (t, o) = choose|t: int, o: int|
                    0 <= t < before.len() && 0 <= o < before[t].len() && key_of(
                        #[trigger] before[t][o],
                    ) == k;
                assert(now[t][o] == before[t][o]);
            }
            if exists|o: int| 0 <= o < ops.len() && key_of(#[trigger] ops[o]) == k {
                let o = choose|o: int| 0 <= o < ops.len() && key_of(#[trigger] ops[o]) == k;
                assert(now[n - 1][o] == ops[o]);
            }
            if names(now, k) {
                let (t, o) = choose|t: int, o: int|
                    0 <= t < now.len() && 0 <= o < now[t].len() && key_of(#[trigger] now[t][o])
                        == k;
                if t < n - 1 {
                    assert(before[t][o] == now[t][o]);
                    assert(names(before, k));
                } else {
                    assert(ops[o] == now[t][o]);
                }
            }
        }
    } else {
        assert forall|k: Seq<u8>| !names(specs.take(0), k) by {}
    }
}

/// The keys of a list of transactions are in order, none twice, and are
/// exactly the keys that its operations name.
pub proof fn lemma_all_keys(specs: Seq<Seq<OperationModel>>)
    ensures
        ascending(all_keys(specs), key_order()),
        forall|k: Seq<u8>| #[trigger] all_keys(specs).contains(k) <==> names(specs, k),
{
    lemma_keys_named(specs, specs.len());
    assert(specs.take(specs.len() as int) =~= specs);
}

} // verus!
