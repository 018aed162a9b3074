//! Arithmetic on residues modulo a number `p`, as mathematical functions.

use vstd::prelude::*;
use vstd::arithmetic::div_mod::{
    lemma_add_mod_noop, lemma_mod_twice, lemma_mul_mod_noop, lemma_mul_mod_noop_left,
    lemma_mul_mod_noop_right, lemma_small_mod, lemma_sub_mod_noop,
};

verus! {

/// The residue of `a + b`.
pub open spec fn add_mod(a: nat, b: nat, p: nat) -> nat {
    (a + b) % p
}

/// The residue of `a - b`.
pub open spec fn sub_mod(a: nat, b: nat, p: nat) -> nat {
    ((a - b) % (p as int)) as nat
}

/// The residue of `a * b`.
pub open spec fn mul_mod(a: nat, b: nat, p: nat) -> nat {
    (a * b) % p
}

/// `r` is the reduced multiplicative inverse of `a` modulo `p`.
pub open spec fn is_inverse(a: nat, r: nat, p: nat) -> bool {
    r < p && (a * r) % p == 1
}

/// `a` has a multiplicative inverse modulo `p`.
pub open spec fn has_inverse(a: nat, p: nat) -> bool {
    exists|r: nat| is_inverse(a, r, p)
}

/// The reduced multiplicative inverse of `a` modulo `p` where there is one,
/// and zero where there is none.
pub open spec fn inv_mod(a: nat, p: nat) -> nat {
    if has_inverse(a, p) {
        choose|r: nat| is_inverse(a, r, p)
    } else {
        0
    }
}

/// The sum of the numbers in `s`.
pub open spec fn sum_of(s: Seq<nat>) -> nat
    decreases s.len(),
{
    if s.len() == 0 {
        0
    } else {
        sum_of(s.drop_last()) + s.last()
    }
}

/// The residue of the sum of the numbers in `s`.
pub open spec fn sum_mod(s: Seq<nat>, p: nat) -> nat {
    sum_of(s) % p
}

/// `a` and `b` have the same residue modulo `p`.
pub open spec fn congruent(a: int, b: int, p: nat) -> bool {
    a % (p as int) == b % (p as int)
}

/// The residue of a sum with one more number is the residue of the sum so
/// far, with that number added in the field.
pub proof fn lemma_sum_mod_step(s: Seq<nat>, x: nat, p: nat)
    requires
        p > 0,
    ensures
        sum_mod(s.push(x), p) == add_mod(sum_mod(s, p), x, p),
{
    assert(s.push(x).drop_last() == s);
    assert(s.push(x).last() == x);
    lemma_mod_twice(sum_of(s) as int, p as int);
    lemma_add_mod_noop(sum_of(s) as int, x as int, p as int);
    lemma_add_mod_noop((sum_of(s) % p) as int, x as int, p as int);
}

/// Sums of congruent numbers are congruent.
pub proof fn lemma_congruent_add(a: int, b: int, c: int, d: int, p: nat)
    requires
        p > 0,
        congruent(a, b, p),
        congruent(c, d, p),
    ensures
        congruent(a + c, b + d, p),
{
    lemma_add_mod_noop(a, c, p as int);
    lemma_add_mod_noop(b, d, p as int);
}

/// Differences of congruent numbers are congruent.
pub proof fn lemma_congruent_sub(a: int, b: int, c: int, d: int, p: nat)
    requires
        p > 0,
        congruent(a, b, p),
        congruent(c, d, p),
    ensures
        congruent(a - c, b - d, p),
{
    lemma_sub_mod_noop(a, c, p as int);
    lemma_sub_mod_noop(b, d, p as int);
}

/// Products of congruent numbers are congruent.
pub proof fn lemma_congruent_mul(a: int, b: int, c: int, d: int, p: nat)
    requires
        p > 0,
        congruent(a, b, p),
        congruent(c, d, p),
    ensures
        congruent(a * c, b * d, p),
{
    lemma_mul_mod_noop(a, c, p as int);
    lemma_mul_mod_noop(b, d, p as int);
}

/// A number is congruent to its residue.
pub proof fn lemma_congruent_residue(a: int, p: nat)
    requires
        p > 0,
    ensures
        congruent(a % (p as int), a, p),
{
    lemma_mod_twice(a, p as int);
}

/// The residue of a difference with one more number taken off is the residue
/// of the difference so far, with that number taken off.
pub proof fn lemma_sub_mod_step(a: int, s: int, x: int, p: nat)
    requires
        p > 0,
    ensures
        ((a - s) % (p as int) - x) % (p as int) == (a - (s + x)) % (p as int),
{
    lemma_congruent_residue(a - s, p);
    lemma_congruent_sub((a - s) % (p as int), a - s, x, x, p);
}

/// Adding one more number to a sum.
pub proof fn lemma_sum_of_push(s: Seq<nat>, x: nat)
    ensures
        sum_of(s.push(x)) == sum_of(s) + x,
{
    assert(s.push(x).drop_last() == s);
    assert(s.push(x).last() == x);
}

/// Sequences of equal length whose numbers are congruent place by place have
/// congruent sums.
pub proof fn lemma_congruent_sums(s: Seq<nat>, t: Seq<nat>, p: nat)
    requires
        p > 0,
        s.len() == t.len(),
        forall|i: int| 0 <= i < s.len() ==> congruent(s[i] as int, t[i] as int, p),
    ensures
        congruent(sum_of(s) as int, sum_of(t) as int, p),
    decreases s.len(),
{
    if s.len() > 0 {
        lemma_congruent_sums(s.drop_last(), t.drop_last(), p);
        lemma_congruent_add(
            sum_of(s.drop_last()) as int,
            sum_of(t.drop_last()) as int,
            s.last() as int,
            t.last() as int,
            p,
        );
    }
}

/// The sum of the place-by-place sums of two sequences of equal length is the
/// sum of their sums.
pub proof fn lemma_sum_of_sums(s: Seq<nat>, t: Seq<nat>, u: Seq<nat>)
    requires
        s.len() == t.len(),
        s.len() == u.len(),
        forall|i: int| 0 <= i < u.len() ==> u[i] == s[i] + t[i],
    ensures
        sum_of(u) == sum_of(s) + sum_of(t),
    decreases s.len(),
{
    if s.len() > 0 {
        lemma_sum_of_sums(s.drop_last(), t.drop_last(), u.drop_last());
    }
}

/// A sequence of zeros has the sum zero.
pub proof fn lemma_sum_of_zeros(s: Seq<nat>)
    requires
        forall|i: int| 0 <= i < s.len() ==> s[i] == 0,
    ensures
        sum_of(s) == 0,
    decreases s.len(),
{
    if s.len() > 0 {
        lemma_sum_of_zeros(s.drop_last());
    }
}

/// A sum is the sum without one of its numbers, and that number.
pub proof fn lemma_sum_of_remove(s: Seq<nat>, i: int)
    requires
        0 <= i < s.len(),
    ensures
        sum_of(s) == sum_of(s.remove(i)) + s[i],
    decreases s.len(),
{
    if i == s.len() - 1 {
        assert(s.remove(i) =~= s.drop_last());
    } else {
        lemma_sum_of_remove(s.drop_last(), i);
        assert(s.remove(i).drop_last() =~= s.drop_last().remove(i));
        assert(s.remove(i).last() == s.last());
    }
}

/// A sum does not depend on the order of its numbers.
pub proof fn lemma_sum_of_permutation(s: Seq<nat>, t: Seq<nat>)
    requires
        s.to_multiset() == t.to_multiset(),
    ensures
        sum_of(s) == sum_of(t),
    decreases s.len(),
{
    s.to_multiset_ensures();
    t.to_multiset_ensures();
    if s.len() > 0 {
        let x = s.last();
        assert(s.contains(x)) by {
            assert(s[s.len() - 1] == x);
        }
        assert(s.to_multiset().count(x) > 0);
        assert(t.to_multiset().count(x) > 0);
        assert(t.contains(x));
        let i = choose|i: int| 0 <= i < t.len() && t[i] == x;
        assert(s.drop_last() =~= s.remove(s.len() - 1));
        assert(s.remove(s.len() - 1).to_multiset() == s.to_multiset().remove(x));
        assert(t.remove(i).to_multiset() == t.to_multiset().remove(x));
        lemma_sum_of_permutation(s.drop_last(), t.remove(i));
        lemma_sum_of_remove(t, i);
    }
}

/// A residue has at most one reduced inverse.
pub proof fn lemma_inverse_unique(a: nat, r1: nat, r2: nat, p: nat)
    requires
        is_inverse(a, r1, p),
        is_inverse(a, r2, p),
    ensures
        r1 == r2,
{
    let x = (r1 * a) * r2;
    assert(x % p == r2) by {
        assert(r1 * a == a * r1) by (nonlinear_arith);
        lemma_mul_mod_noop_left((r1 * a) as int, r2 as int, p as int);
        assert(1 * r2 == r2);
        lemma_small_mod(r2, p);
    }
    assert(x % p == r1) by {
        assert((r1 * a) * r2 == r1 * (a * r2)) by (nonlinear_arith);
        lemma_mul_mod_noop_right(r1 as int, (a * r2) as int, p as int);
        assert(r1 * 1 == r1);
        lemma_small_mod(r1, p);
    }
}

/// A reduced inverse of `a` is its `inv_mod`.
pub proof fn lemma_inverse_is_inv_mod(a: nat, r: nat, p: nat)
    requires
        is_inverse(a, r, p),
    ensures
        inv_mod(a, p) == r,
{
    assert(has_inverse(a, p));
    lemma_inverse_unique(a, inv_mod(a, p), r, p);
}

/// The `inv_mod` of one is one.
pub proof fn lemma_inv_mod_of_one(p: nat)
    requires
        p >= 2,
    ensures
        inv_mod(1nat % p, p) == 1,
{
    lemma_small_mod(1, p);
    assert(1 * 1 == 1);
    assert(is_inverse(1, 1, p));
    lemma_inverse_is_inv_mod(1, 1, p);
}

/// A multiple of the modulus has no inverse, so its `inv_mod` is zero.
pub proof fn lemma_inv_mod_of_zero(a: nat, p: nat)
    requires
        p > 0,
        a % p == 0,
    ensures
        !has_inverse(a, p),
        inv_mod(a, p) == 0,
{
    assert forall|r: nat| !is_inverse(a, r, p) by {
        lemma_mul_mod_noop_left(a as int, r as int, p as int);
        assert(0 * r == 0);
    }
}

} // verus!
