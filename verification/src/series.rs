//! Sums and products of finite sequences of natural numbers.

use vstd::prelude::*;

verus! {

/// The sum of the elements of `s`.
pub open spec fn sum(s: Seq<nat>) -> nat
    decreases s.len(),
{
    if s.len() == 0 {
        0
    } else {
        sum(s.drop_last()) + s.last()
    }
}

/// The product of the elements of `s`.
pub open spec fn product(s: Seq<nat>) -> nat
    decreases s.len(),
{
    if s.len() == 0 {
        1
    } else {
        product(s.drop_last()) * s.last()
    }
}

/// Every element of `s` is at least `k`.
pub open spec fn all_at_least(s: Seq<nat>, k: nat) -> bool {
    forall|i: int| 0 <= i < s.len() ==> #[trigger] s[i] >= k
}

/// `s` is pointwise below `t`.
pub open spec fn pointwise_le(s: Seq<nat>, t: Seq<nat>) -> bool {
    &&& s.len() == t.len()
    &&& forall|i: int| 0 <= i < s.len() ==> #[trigger] s[i] <= t[i]
}

/// The sum of two sequences joined is the sum of their sums.
pub proof fn lemma_sum_concat(s: Seq<nat>, t: Seq<nat>)
    ensures
        sum(s + t) == sum(s) + sum(t),
    decreases t.len(),
{
    if t.len() == 0 {
        assert(s + t =~= s);
    } else {
        assert((s + t).drop_last() =~= s + t.drop_last());
        lemma_sum_concat(s, t.drop_last());
    }
}

/// The product of two sequences joined is the product of their products.
pub proof fn lemma_product_concat(s: Seq<nat>, t: Seq<nat>)
    ensures
        product(s + t) == product(s) * product(t),
    decreases t.len(),
{
    if t.len() == 0 {
        assert(s + t =~= s);
        assert(product(t) == 1);
        assert(product(s) * 1 == product(s)) by (nonlinear_arith);
    } else {
        assert((s + t).drop_last() =~= s + t.drop_last());
        assert((s + t).last() == t.last());
        lemma_product_concat(s, t.drop_last());
        let a = product(s);
        let b = product(t.drop_last());
        let c = t.last();
        assert((a * b) * c == a * (b * c)) by (nonlinear_arith);
    }
}

/// The sum and the product of a single number are the number.
pub proof fn lemma_single(x: nat)
    ensures
        sum(seq![x]) == x,
        product(seq![x]) == x,
{
    assert(seq![x].drop_last() =~= Seq::<nat>::empty());
    assert(sum(seq![x].drop_last()) == 0);
    assert(product(seq![x].drop_last()) == 1);
    assert(seq![x].last() == x);
    assert(product(seq![x]) == product(seq![x].drop_last()) * x);
    assert(1 * x == x) by (nonlinear_arith);
}

/// A product of numbers that are at least `k`, and at least 1, is at least 1;
/// at least `k` with one factor; at least `k * k` with two.
pub proof fn lemma_product_at_least(s: Seq<nat>, k: nat)
    requires
        all_at_least(s, k),
        k >= 1,
    ensures
        product(s) >= 1,
        s.len() >= 1 ==> product(s) >= k,
        s.len() >= 2 ==> product(s) >= k * k,
    decreases s.len(),
{
    if s.len() > 0 {
        let r = s.drop_last();
        assert(all_at_least(r, k)) by {
            assert forall|i: int| 0 <= i < r.len() implies #[trigger] r[i] >= k by {
                assert(r[i] == s[i]);
            }
        }
        lemma_product_at_least(r, k);
        let a = product(r);
        let b = s.last();
        assert(b >= k);
        assert(a * b >= b) by (nonlinear_arith)
            requires
                a >= 1,
        ;
        if s.len() >= 2 {
            assert(a * b >= k * k) by (nonlinear_arith)
                requires
                    a >= k,
                    b >= k,
            ;
        }
    }
}

/// Splitting a sequence around position `i`.
pub proof fn lemma_split(s: Seq<nat>, i: int)
    requires
        0 <= i < s.len(),
    ensures
        sum(s) == sum(s.take(i)) + s[i] + sum(s.skip(i + 1)),
        product(s) == product(s.take(i)) * s[i] * product(s.skip(i + 1)),
{
    let a = s.take(i);
    let m = seq![s[i]];
    let b = s.skip(i + 1);
    assert(s =~= a + m + b);
    lemma_sum_concat(a + m, b);
    lemma_sum_concat(a, m);
    lemma_product_concat(a + m, b);
    lemma_product_concat(a, m);
    lemma_single(s[i]);
}

/// Changing one element changes the sum and the product by that element.
pub proof fn lemma_update(s: Seq<nat>, i: int, x: nat)
    requires
        0 <= i < s.len(),
    ensures
        sum(s.update(i, x)) + s[i] == sum(s) + x,
        product(s.update(i, x)) * s[i] == product(s) * x,
{
    let u = s.update(i, x);
    lemma_split(s, i);
    lemma_split(u, i);
    assert(u.take(i) =~= s.take(i));
    assert(u.skip(i + 1) =~= s.skip(i + 1));
    let a = product(s.take(i));
    let b = product(s.skip(i + 1));
    let y = s[i];
    assert((a * x * b) * y == (a * y * b) * x) by (nonlinear_arith);
}

/// Taking one element out takes it out of the sum and of the product.
pub proof fn lemma_remove(s: Seq<nat>, i: int)
    requires
        0 <= i < s.len(),
    ensures
        sum(s.remove(i)) + s[i] == sum(s),
        product(s.remove(i)) * s[i] == product(s),
{
    lemma_split(s, i);
    assert(s.remove(i) =~= s.take(i) + s.skip(i + 1));
    lemma_sum_concat(s.take(i), s.skip(i + 1));
    lemma_product_concat(s.take(i), s.skip(i + 1));
    let a = product(s.take(i));
    let b = product(s.skip(i + 1));
    let y = s[i];
    assert((a * b) * y == a * y * b) by (nonlinear_arith);
}

/// Adding an element at the end adds it to the sum and multiplies the
/// product by it.
pub proof fn lemma_push(s: Seq<nat>, x: nat)
    ensures
        sum(s.push(x)) == sum(s) + x,
        product(s.push(x)) == product(s) * x,
{
    assert(s.push(x).drop_last() =~= s);
}

/// A pointwise smaller sequence has a smaller sum, and an equal one only if
/// the sequences are equal.
pub proof fn lemma_sum_pointwise(s: Seq<nat>, t: Seq<nat>)
    requires
        pointwise_le(s, t),
    ensures
        sum(s) <= sum(t),
        sum(s) == sum(t) ==> s == t,
    decreases s.len(),
{
    if s.len() > 0 {
        let sr = s.drop_last();
        let tr = t.drop_last();
        assert(pointwise_le(sr, tr)) by {
            assert forall|i: int| 0 <= i < sr.len() implies #[trigger] sr[i] <= tr[i] by {
                assert(sr[i] == s[i] && tr[i] == t[i]);
            }
        }
        lemma_sum_pointwise(sr, tr);
        assert(s.last() <= t.last());
        if sum(s) == sum(t) {
            assert(s =~= sr.push(s.last()));
            assert(t =~= tr.push(t.last()));
        }
    } else {
        assert(s =~= t);
    }
}

/// A pointwise smaller sequence of positive numbers has a smaller product,
/// and an equal one only if the sequences are equal.
pub proof fn lemma_product_pointwise(s: Seq<nat>, t: Seq<nat>)
    requires
        pointwise_le(s, t),
        all_at_least(s, 1),
    ensures
        product(s) <= product(t),
        product(s) == product(t) ==> s == t,
    decreases s.len(),
{
    if s.len() > 0 {
        let sr = s.drop_last();
        let tr = t.drop_last();
        assert(pointwise_le(sr, tr)) by {
            assert forall|i: int| 0 <= i < sr.len() implies #[trigger] sr[i] <= tr[i] by {
                assert(sr[i] == s[i] && tr[i] == t[i]);
            }
        }
        assert(all_at_least(sr, 1)) by {
            assert forall|i: int| 0 <= i < sr.len() implies #[trigger] sr[i] >= 1 by {
                assert(sr[i] == s[i]);
            }
        }
        lemma_product_pointwise(sr, tr);
        lemma_product_at_least(sr, 1);
        let a = product(sr);
        let b = product(tr);
        let x = s.last();
        let y = t.last();
        assert(1 <= x <= y);
        assert(a * x <= b * y) by (nonlinear_arith)
            requires
                a <= b,
                x <= y,
        ;
        if product(s) == product(t) {
            assert(a == b && x == y) by (nonlinear_arith)
                requires
                    1 <= a <= b,
                    1 <= x <= y,
                    a * x == b * y,
            ;
            assert(s =~= sr.push(x));
            assert(t =~= tr.push(y));
        }
    } else {
        assert(s =~= t);
    }
}

/// Each element of `s` multiplied by `c`.
pub open spec fn scale(s: Seq<nat>, c: nat) -> Seq<nat> {
    Seq::new(s.len(), |i: int| c * s[i])
}

/// The sum of the multiples is the multiple of the sum.
pub proof fn lemma_sum_scale(s: Seq<nat>, c: nat)
    ensures
        sum(scale(s, c)) == c * sum(s),
    decreases s.len(),
{
    if s.len() == 0 {
        assert(c * 0 == 0) by (nonlinear_arith);
    } else {
        assert(scale(s, c).drop_last() =~= scale(s.drop_last(), c));
        lemma_sum_scale(s.drop_last(), c);
        let a = sum(s.drop_last());
        let b = s.last();
        assert(c * a + c * b == c * (a + b)) by (nonlinear_arith);
    }
}

/// Moving the last element to position `i` and dropping the last place
/// takes the factor at `i` out of the product.
pub proof fn lemma_product_swap_remove(s: Seq<nat>, i: int)
    requires
        0 <= i < s.len(),
        all_at_least(s, 1),
    ensures
        product(s.update(i, s.last()).drop_last()) * s[i] == product(s),
{
    let x = s.last();
    let t = s.update(i, x);
    lemma_update(s, i, x);
    assert(t.last() == x);
    let p = product(t.drop_last());
    let q = product(s);
    let y = s[i];
    assert(x >= 1);
    assert(p * y == q) by (nonlinear_arith)
        requires
            (p * x) * y == q * x,
            x >= 1,
    ;
}

} // verus!
