//! Sequences kept in a strict order and without repetition.

use vstd::prelude::*;

verus! {

/// `lt` is a strict total order.
pub open spec fn strict_order<T>(lt: spec_fn(T, T) -> bool) -> bool {
    &&& forall|x: T, y: T| #[trigger] lt(x, y) ==> !lt(y, x)
    &&& forall|x: T, y: T| x == y || #[trigger] lt(x, y) || lt(y, x)
    &&& forall|x: T, y: T, z: T| #[trigger] lt(x, y) && #[trigger] lt(y, z) ==> lt(x, z)
}

/// Each member of `s` comes before the next.
pub open spec fn ascending<T>(s: Seq<T>, lt: spec_fn(T, T) -> bool) -> bool {
    forall|i: int, j: int| 0 <= i < j < s.len() ==> lt(#[trigger] s[i], #[trigger] s[j])
}

/// `x` put at its place in `s`, unless `s` holds it already. The place is
/// found from the end: behind the last member that comes before `x`.
pub open spec fn insert<T>(s: Seq<T>, x: T, lt: spec_fn(T, T) -> bool) -> Seq<T>
    decreases s.len(),
{
    if s.len() == 0 {
        seq![x]
    } else if s.last() == x {
        s
    } else if lt(s.last(), x) {
        s.push(x)
    } else {
        insert(s.drop_last(), x, lt).push(s.last())
    }
}

/// The members of `s` without repetition, in order.
pub open spec fn arranged<T>(s: Seq<T>, lt: spec_fn(T, T) -> bool) -> Seq<T>
    decreases s.len(),
{
    if s.len() == 0 {
        Seq::empty()
    } else {
        insert(arranged(s.drop_last(), lt), s.last(), lt)
    }
}

/// Nothing from position `i` on equals `x` or comes before it.
pub open spec fn all_after<T>(s: Seq<T>, i: int, x: T, lt: spec_fn(T, T) -> bool) -> bool {
    forall|j: int| i <= j < s.len() ==> (#[trigger] s[j]) != x && !lt(s[j], x)
}

/// A sequence in order without its last member is in order.
pub proof fn lemma_ascending_prefix<T>(s: Seq<T>, lt: spec_fn(T, T) -> bool)
    requires
        ascending(s, lt),
        s.len() > 0,
    ensures
        ascending(s.drop_last(), lt),
{
    let d = s.drop_last();
    assert forall|i: int, j: int| 0 <= i < j < d.len() implies lt(
        #[trigger] d[i],
        #[trigger] d[j],
    ) by {
        assert(d[i] == s[i] && d[j] == s[j]);
    }
}

/// Inserting adds exactly the new member.
pub proof fn lemma_insert_members<T>(s: Seq<T>, x: T, lt: spec_fn(T, T) -> bool)
    ensures
        forall|y: T| #[trigger] insert(s, x, lt).contains(y) <==> (s.contains(y) || y == x),
    decreases s.len(),
{
    let r = insert(s, x, lt);
    if s.len() == 0 {
        assert(r[0] == x);
    } else if s.last() == x {
        assert(s[s.len() - 1] == x);
    } else if lt(s.last(), x) {
        assert forall|y: T| r.contains(y) <==> (s.contains(y) || y == x) by {
            if r.contains(y) {
                let i = choose|i: int| 0 <= i < r.len() && r[i] == y;
                if i < s.len() {
                    assert(s[i] == y);
                }
            }
            if s.contains(y) {
                let i = choose|i: int| 0 <= i < s.len() && s[i] == y;
                assert(r[i] == y);
            }
            if y == x {
                assert(r[s.len() as int] == y);
            }
        }
    } else {
        let d = s.drop_last();
        let t = insert(d, x, lt);
        lemma_insert_members(d, x, lt);
        assert forall|y: T| r.contains(y) <==> (s.contains(y) || y == x) by {
            if r.contains(y) {
                let i = choose|i: int| 0 <= i < r.len() && r[i] == y;
                if i < t.len() {
                    assert(t[i] == y);
                    assert(t.contains(y));
                    if d.contains(y) {
                        let k = choose|k: int| 0 <= k < d.len() && d[k] == y;
                        assert(s[k] == y);
                    }
                } else {
                    assert(s[s.len() - 1] == y);
                }
            }
            if s.contains(y) {
                let i = choose|i: int| 0 <= i < s.len() && s[i] == y;
                if i < d.len() {
                    assert(d[i] == y);
                    assert(d.contains(y));
                    assert(t.contains(y));
                    let k = choose|k: int| 0 <= k < t.len() && t[k] == y;
                    assert(r[k] == y);
                } else {
                    assert(r[t.len() as int] == y);
                }
            }
            if y == x {
                assert(t.contains(y));
                let k = choose|k: int| 0 <= k < t.len() && t[k] == y;
                assert(r[k] == y);
            }
        }
    }
}

/// Inserting into a sequence in order keeps it in order, and leaves it as it
/// is if it holds the member already.
pub proof fn lemma_insert_ascending<T>(s: Seq<T>, x: T, lt: spec_fn(T, T) -> bool)
    requires
        strict_order(lt),
        ascending(s, lt),
    ensures
        ascending(insert(s, x, lt), lt),
        s.contains(x) ==> insert(s, x, lt) == s,
    decreases s.len(),
{
    let r = insert(s, x, lt);
    if s.len() == 0 {
    } else if s.last() == x {
    } else if lt(s.last(), x) {
        assert forall|i: int, j: int| 0 <= i < j < r.len() implies lt(
            #[trigger] r[i],
            #[trigger] r[j],
        ) by {
            if j == s.len() {
                if i < s.len() - 1 {
                    assert(lt(s[i], s[s.len() - 1]));
                    assert(lt(s[s.len() - 1], x));
                } else {
                    assert(r[i] == s.last());
                }
            } else {
                assert(r[i] == s[i] && r[j] == s[j]);
            }
        }
        if s.contains(x) {
            let i = choose|i: int| 0 <= i < s.len() && s[i] == x;
            if i < s.len() - 1 {
                assert(lt(s[i], s[s.len() - 1]));
            }
        }
    } else {
        let d = s.drop_last();
        let t = insert(d, x, lt);
        lemma_ascending_prefix(s, lt);
        lemma_insert_ascending(d, x, lt);
        lemma_insert_members(d, x, lt);
        assert(lt(x, s.last()));
        assert forall|i: int, j: int| 0 <= i < j < r.len() implies lt(
            #[trigger] r[i],
            #[trigger] r[j],
        ) by {
            if j == t.len() {
                assert(r[i] == t[i]);
                assert(t.contains(t[i]));
                if d.contains(t[i]) {
                    let k = choose|k: int| 0 <= k < d.len() && d[k] == t[i];
                    assert(lt(s[k], s[s.len() - 1]));
                }
            } else {
                assert(r[i] == t[i] && r[j] == t[j]);
            }
        }
        if s.contains(x) {
            let i = choose|i: int| 0 <= i < s.len() && s[i] == x;
            assert(d[i] == x);
            assert(d.contains(x));
            assert(r =~= s);
        }
    }
}

/// The arranged form is in order and holds exactly the members it was made
/// from; these two facts determine it.
pub proof fn lemma_arranged<T>(s: Seq<T>, lt: spec_fn(T, T) -> bool)
    requires
        strict_order(lt),
    ensures
        ascending(arranged(s, lt), lt),
        forall|y: T| #[trigger] arranged(s, lt).contains(y) <==> s.contains(y),
    decreases s.len(),
{
    if s.len() > 0 {
        let d = s.drop_last();
        lemma_arranged(d, lt);
        lemma_insert_ascending(arranged(d, lt), s.last(), lt);
        lemma_insert_members(arranged(d, lt), s.last(), lt);
        assert forall|y: T| arranged(s, lt).contains(y) <==> s.contains(y) by {
            if s.contains(y) {
                let i = choose|i: int| 0 <= i < s.len() && s[i] == y;
                if i < d.len() {
                    assert(d[i] == y);
                    assert(d.contains(y));
                }
            }
            if d.contains(y) {
                let i = choose|i: int| 0 <= i < d.len() && d[i] == y;
                assert(s[i] == y);
            }
            if y == s.last() {
                assert(s[s.len() - 1] == y);
            }
        }
    }
}

/// A sequence in order is its own arranged form.
pub proof fn lemma_arranged_of_ascending<T>(s: Seq<T>, lt: spec_fn(T, T) -> bool)
    requires
        strict_order(lt),
        ascending(s, lt),
    ensures
        arranged(s, lt) == s,
    decreases s.len(),
{
    if s.len() > 0 {
        let d = s.drop_last();
        lemma_ascending_prefix(s, lt);
        lemma_arranged_of_ascending(d, lt);
        if d.len() > 0 {
            assert(lt(s[d.len() - 1], s[s.len() - 1]));
            assert(d.last() == s[d.len() - 1]);
        }
        assert(d.push(s.last()) =~= s);
    } else {
        assert(arranged(s, lt) =~= s);
    }
}

/// The members behind the place of `x` stay behind it.
pub proof fn lemma_insert_below<T>(s: Seq<T>, i: int, x: T, lt: spec_fn(T, T) -> bool)
    requires
        0 <= i <= s.len(),
        all_after(s, i, x, lt),
    ensures
        insert(s, x, lt) == insert(s.take(i), x, lt) + s.skip(i),
    decreases s.len() - i,
{
    if i == s.len() {
        assert(s.take(i) =~= s);
        assert(insert(s, x, lt) + s.skip(i) =~= insert(s, x, lt));
    } else {
        let d = s.drop_last();
        assert(s[s.len() - 1] != x && !lt(s[s.len() - 1], x));
        assert(all_after(d, i, x, lt)) by {
            assert forall|j: int| i <= j < d.len() implies (#[trigger] d[j]) != x && !lt(
                d[j],
                x,
            ) by {
                assert(d[j] == s[j]);
            }
        }
        lemma_insert_below(d, i, x, lt);
        assert(d.take(i) =~= s.take(i));
        assert((insert(s.take(i), x, lt) + d.skip(i)).push(s.last()) =~= insert(
            s.take(i),
            x,
            lt,
        ) + s.skip(i));
    }
}

/// Where the scan from the end has stopped at `i`, the insertion is settled:
/// nothing to do if the member before `i` is `x`, else `x` goes to `i`.
pub proof fn lemma_insert_at<T>(s: Seq<T>, i: int, x: T, lt: spec_fn(T, T) -> bool)
    requires
        0 <= i <= s.len(),
        all_after(s, i, x, lt),
        i > 0 ==> s[i - 1] == x || lt(s[i - 1], x),
    ensures
        insert(s, x, lt) == (if i > 0 && s[i - 1] == x {
            s
        } else {
            s.insert(i, x)
        }),
{
    lemma_insert_below(s, i, x, lt);
    let t = s.take(i);
    if i > 0 {
        assert(t.last() == s[i - 1]);
        if t.last() == x {
            assert(t + s.skip(i) =~= s);
        } else {
            assert(t.push(x) + s.skip(i) =~= s.insert(i, x));
        }
    } else {
        assert(seq![x] + s.skip(0) =~= s.insert(0, x));
    }
}

} // verus!
