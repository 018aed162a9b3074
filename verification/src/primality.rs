//! Prime moduli: what makes the residues a field, and a criterion by which a
//! modulus is shown to be prime.

use vstd::prelude::*;
use vstd::arithmetic::div_mod::{
    lemma_fundamental_div_mod, lemma_mod_mod, lemma_mod_multiples_vanish, lemma_mul_mod_noop,
    lemma_mul_mod_noop_left, lemma_mul_mod_noop_right, lemma_small_mod,
};
use vstd::arithmetic::power::{
    lemma0_pow, lemma1_pow, lemma_pow1, lemma_pow_adds, lemma_pow_mod_noop, lemma_pow_multiplies,
    lemma_square_is_pow2, pow,
};
use vstd::arithmetic::power2::{lemma2_to64, lemma_pow2_pos, lemma_pow2_unfold, pow2};
use vstd::relations::injective_on;
use vstd::set_lib::{lemma_int_range, lemma_len_subset, lemma_map_size, set_int_range};
use crate::modular::{congruent, has_inverse, inv_mod, is_inverse};

verus! {

/// `p` is a prime number.
pub open spec fn is_prime(p: nat) -> bool {
    p >= 2 && forall|d: nat| 1 < d < p ==> #[trigger] (p % d) != 0
}

/// Modulo a prime, every reduced residue but zero has an inverse.
///
/// By induction on `a`: the remainder `s` of `p` by `a` is smaller than `a` and
/// not zero, and `a * -(p / a)` is congruent to `s`.
proof fn lemma_reduced_inverse_exists(a: nat, p: nat)
    requires
        is_prime(p),
        0 < a < p,
    ensures
        has_inverse(a, p),
    decreases a,
{
    if a == 1 {
        lemma_small_mod(1, p);
        assert(1 * 1 == 1);
        assert(is_inverse(1, 1, p));
    } else {
        let q = p / a;
        let s = p % a;
        assert(s != 0);
        lemma_fundamental_div_mod(p as int, a as int);
        lemma_reduced_inverse_exists(s, p);
        let t = choose|t: nat| is_inverse(s, t, p);
        let u = -(q * t);
        let r = (u % (p as int)) as nat;
        assert(a * u == p * (-t) + s * t) by (nonlinear_arith)
            requires
                p == a * q + s,
                u == -(q * t),
        ;
        lemma_mod_multiples_vanish(-t, (s * t) as int, p as int);
        lemma_mul_mod_noop_right(a as int, u, p as int);
        assert(is_inverse(a, r, p));
    }
}

/// Modulo a prime, every number that the prime does not divide has an inverse.
pub proof fn lemma_inverse_exists(a: nat, p: nat)
    requires
        is_prime(p),
        a % p != 0,
    ensures
        has_inverse(a, p),
{
    let b = a % p;
    lemma_reduced_inverse_exists(b, p);
    let r = choose|r: nat| is_inverse(b, r, p);
    lemma_mul_mod_noop_left(a as int, r as int, p as int);
    assert(is_inverse(a, r, p));
}

/// Modulo a prime, a number that the prime does not divide, times its
/// `inv_mod`, is congruent to one.
pub proof fn lemma_inv_mod_cancels(k: nat, p: nat)
    requires
        is_prime(p),
        k % p != 0,
    ensures
        congruent((k * inv_mod(k % p, p)) as int, 1, p),
{
    let a = k % p;
    lemma_small_mod(a, p);
    lemma_inverse_exists(a, p);
    let r = inv_mod(a, p);
    assert(is_inverse(a, r, p));
    lemma_mul_mod_noop_left(k as int, r as int, p as int);
    lemma_small_mod(1, p);
}

/// An odd power of `-1` is `-1`.
proof fn lemma_odd_power_of_minus_one(t: nat)
    requires
        t % 2 == 1,
    ensures
        pow(-1, t) == -1,
    decreases t,
{
    if t == 1 {
        lemma_pow1(-1);
    } else {
        lemma_odd_power_of_minus_one((t - 2) as nat);
        lemma_pow_adds(-1, (t - 2) as nat, 2);
        lemma_square_is_pow2(-1);
    }
}

/// Where `x^(2^e)` is congruent to `-1` modulo `q`, `(x^t)^(2^e)` is congruent
/// to `(-1)^t`.
proof fn lemma_power_of_minus_one(x: int, e: nat, t: nat, q: int)
    requires
        q > 2,
        pow(x, pow2(e)) % q == q - 1,
    ensures
        pow(pow(x, t), pow2(e)) % q == pow(-1, t) % q,
{
    let n = pow2(e);
    lemma_pow_multiplies(x, t, n);
    lemma_pow_multiplies(x, n, t);
    assert(t * n == n * t) by (nonlinear_arith);
    lemma_pow_mod_noop(pow(x, n), t, q);
    lemma_mod_multiples_vanish(1, -1, q);
    assert(q * 1 + -1 == q - 1);
    lemma_small_mod((q - 1) as nat, q as nat);
    lemma_pow_mod_noop(-1, t, q);
}

/// Where `x^(2^e)` is congruent to `-1` modulo `q`, no power of `x` with a
/// positive exponent below `2^(e+1)` is congruent to one.
proof fn lemma_no_smaller_order(x: int, e: nat, t: nat, q: int)
    requires
        q > 2,
        pow(x, pow2(e)) % q == q - 1,
        0 < t < pow2(e + 1),
    ensures
        pow(x, t) % q != 1,
    decreases e,
{
    lemma_pow2_unfold(e + 1);
    if t % 2 == 1 {
        if pow(x, t) % q == 1 {
            lemma_power_of_minus_one(x, e, t, q);
            lemma_pow_mod_noop(pow(x, t), pow2(e), q);
            lemma1_pow(pow2(e));
            lemma_small_mod(1, q as nat);
            lemma_odd_power_of_minus_one(t);
            lemma_mod_multiples_vanish(1, -1, q);
            assert(q * 1 + -1 == q - 1);
            lemma_small_mod((q - 1) as nat, q as nat);
            assert(false);
        }
    } else {
        let half = (t / 2) as nat;
        assert(e > 0) by {
            if e == 0 {
                lemma_pow2_unfold(1);
                lemma2_to64();
            }
        }
        let y = pow(x, 2);
        lemma_pow2_unfold(e);
        lemma_pow_multiplies(x, 2, pow2((e - 1) as nat));
        lemma_pow_multiplies(x, 2, half);
        lemma_no_smaller_order(y, (e - 1) as nat, half, q);
    }
}

/// Where `x^(2^e)` is congruent to `-1` modulo `q`, `x^(2^(e+1))` is congruent
/// to one.
proof fn lemma_full_order(x: int, e: nat, q: int)
    requires
        q > 2,
        pow(x, pow2(e)) % q == q - 1,
    ensures
        pow(x, pow2(e + 1)) % q == 1,
{
    let y = pow(x, pow2(e));
    lemma_pow2_unfold(e + 1);
    lemma_pow_multiplies(x, pow2(e), 2);
    assert(pow2(e) * 2 == 2 * pow2(e));
    lemma_square_is_pow2(y);
    lemma_mul_mod_noop(y, y, q);
    assert((q - 1) * (q - 1) == q * (q - 2) + 1) by (nonlinear_arith);
    lemma_mod_multiples_vanish(q - 2, 1, q);
    lemma_small_mod(1, q as nat);
}

/// Where `x^(2^e)` is congruent to `-1` modulo `q`, the powers of `x` with
/// exponents below `2^(e+1)` differ modulo `q`.
proof fn lemma_powers_differ(x: int, e: nat, i: nat, j: nat, q: int)
    requires
        q > 2,
        pow(x, pow2(e)) % q == q - 1,
        i < j < pow2(e + 1),
    ensures
        pow(x, i) % q != pow(x, j) % q,
{
    if pow(x, i) % q == pow(x, j) % q {
        let c = (pow2(e + 1) - j) as nat;
        lemma_pow_adds(x, i, c);
        lemma_pow_adds(x, j, c);
        lemma_mul_mod_noop_left(pow(x, i), pow(x, c), q);
        lemma_mul_mod_noop_left(pow(x, j), pow(x, c), q);
        lemma_full_order(x, e, q);
        lemma_no_smaller_order(x, e, i + c, q);
    }
}

/// Where `x^(2^e)` is congruent to `-1` modulo `q`, no power of `x` is
/// congruent to zero.
proof fn lemma_power_not_zero(x: int, e: nat, i: nat, q: int)
    requires
        q > 2,
        pow(x, pow2(e)) % q == q - 1,
    ensures
        pow(x, i) % q != 0,
{
    if pow(x, i) % q == 0 {
        let n = pow2(e + 1);
        lemma_pow2_pos(e + 1);
        lemma_pow_mod_noop(pow(x, i), n, q);
        lemma0_pow(n);
        lemma_pow_multiplies(x, i, n);
        lemma_pow_multiplies(x, n, i);
        assert(i * n == n * i) by (nonlinear_arith);
        lemma_full_order(x, e, q);
        lemma_pow_mod_noop(pow(x, n), i, q);
        lemma1_pow(i);
        lemma_small_mod(1, q as nat);
        lemma_small_mod(0, q as nat);
        assert(false);
    }
}

/// Where `x^(2^e)` is congruent to `-1` modulo `q`, there are at least
/// `2^(e+1)` residues modulo `q` other than zero: `q` is above `2^(e+1)`.
proof fn lemma_modulus_above_order(x: int, e: nat, q: int)
    requires
        q > 2,
        pow(x, pow2(e)) % q == q - 1,
    ensures
        q > pow2(e + 1),
{
    let n = pow2(e + 1) as int;
    let f = |i: int| pow(x, i as nat) % q;
    let exponents = set_int_range(0, n);
    let powers = exponents.map(f);
    let residues = set_int_range(1, q);
    lemma_int_range(0, n);
    lemma_int_range(1, q);
    assert(injective_on(f, exponents)) by {
        assert forall|i: int, j: int|
            exponents.contains(i) && exponents.contains(j) && #[trigger] f(i) == #[trigger] f(
                j,
            ) implies i == j by {
            if i < j {
                lemma_powers_differ(x, e, i as nat, j as nat, q);
            } else if j < i {
                lemma_powers_differ(x, e, j as nat, i as nat, q);
            }
        }
    }
    lemma_map_size(exponents, powers, f);
    assert(powers.subset_of(residues)) by {
        assert forall|r: int| powers.contains(r) implies residues.contains(r) by {
            let i = choose|i: int| exponents.contains(i) && f(i) == r;
            lemma_power_not_zero(x, e, i as nat, q);
        }
    }
    lemma_len_subset(powers, residues);
}

/// Where `h^(2^e)` is congruent to `-1` modulo an odd number `p`, every
/// divisor of `p` but one is above `2^(e+1)`.
proof fn lemma_divisor_above_order(p: nat, h: int, e: nat, q: nat)
    requires
        p % 2 == 1,
        pow(h, pow2(e)) % (p as int) == p - 1,
        q > 1,
        p % q == 0,
    ensures
        q > pow2(e + 1),
{
    let m = p / q;
    lemma_fundamental_div_mod(p as int, q as int);
    assert(m > 0) by (nonlinear_arith)
        requires
            p == q * m,
            p > 0,
            q > 1,
    ;
    assert(q != 2);
    let y = pow(h, pow2(e));
    lemma_mod_mod(y, q as int, m as int);
    assert((q * m - 1) == q * (m - 1) + (q - 1)) by (nonlinear_arith);
    lemma_mod_multiples_vanish(m - 1, q - 1, q as int);
    lemma_small_mod((q - 1) as nat, q);
    lemma_modulus_above_order(h, e, q as int);
}

/// One squaring in a chain of powers: from the residue of `h^(2^i)` to that of
/// `h^(2^(i+1))`.
pub proof fn lemma_square_step(h: int, i: nat, p: int, x: int, y: int)
    requires
        p > 0,
        pow(h, pow2(i)) % p == x,
        (x * x) % p == y,
    ensures
        pow(h, pow2(i + 1)) % p == y,
{
    let z = pow(h, pow2(i));
    lemma_pow2_unfold(i + 1);
    lemma_pow_multiplies(h, pow2(i), 2);
    assert(pow2(i) * 2 == 2 * pow2(i));
    lemma_square_is_pow2(z);
    lemma_mul_mod_noop(z, z, p);
}

/// A criterion for primality: an odd number `p` that is at most `(2^(e+1))^2`
/// is prime where some `h^(2^e)` is congruent to `-1` modulo `p`.
///
/// Every divisor of `p` but one is then above `2^(e+1)`, and the product of
/// two such numbers is above `p`.
pub proof fn lemma_prime_by_order(p: nat, h: int, e: nat)
    requires
        p % 2 == 1,
        p > 1,
        p <= pow2(e + 1) * pow2(e + 1),
        pow(h, pow2(e)) % (p as int) == p - 1,
    ensures
        is_prime(p),
{
    assert forall|d: nat| 1 < d < p implies #[trigger] (p % d) != 0 by {
        if p % d == 0 {
            let m = p / d;
            lemma_fundamental_div_mod(p as int, d as int);
            assert(m > 1 && p == m * d) by (nonlinear_arith)
                requires
                    p == d * m,
                    1 < d < p,
            ;
            assert(p % m == 0) by {
                lemma_mod_multiples_vanish(d as int, 0, m as int);
                lemma_small_mod(0, m);
            }
            lemma_divisor_above_order(p, h, e, d);
            lemma_divisor_above_order(p, h, e, m);
            let n = pow2(e + 1);
            assert(d * m > n * n) by (nonlinear_arith)
                requires
                    d > n,
                    m > n,
            ;
            assert(false);
        }
    }
}

} // verus!
