//! The hedge against a contributor whose shares do not add up to bits: at
//! places picked at random, every holder replaces its share `s` by
//! `inverse(k) - s`, which turns the shared number `b` there into `1 - b`.

use vstd::prelude::*;
use crate::error::NoiseError;
use crate::field::{values, FieldElement};
use crate::modular::{
    congruent, inv_mod, lemma_congruent_add, lemma_congruent_residue, lemma_congruent_sub,
    sub_mod, sum_of,
};
use crate::primality::{is_prime, lemma_inv_mod_cancels};
use crate::sharing::{all_of_len, column, is_sharing, lemma_sharing_recombines, recombined};

verus! {

/// What a holder makes of the number `x` in its share, one of `num_shares`:
/// `inverse(num_shares) - x` where the place is inverted, `x` where it is
/// not.
pub open spec fn hedged_value(x: nat, invert: bool, num_shares: nat, p: nat) -> nat {
    if invert {
        sub_mod(inv_mod(num_shares % p, p), x, p)
    } else {
        x
    }
}

/// What a holder makes of its share, one of `num_shares`, with the places
/// inverted that `invert` marks.
pub open spec fn hedged(share: Seq<nat>, invert: Seq<bool>, num_shares: nat, p: nat) -> Seq<nat> {
    Seq::new(share.len(), |j: int| hedged_value(share[j], invert[j], num_shares, p))
}

/// What the holders make of their shares, all with the same places inverted.
pub open spec fn hedged_shares(shares: Seq<Seq<nat>>, invert: Seq<bool>, p: nat) -> Seq<Seq<nat>> {
    Seq::new(shares.len(), |i: int| hedged(shares[i], invert, shares.len(), p))
}

/// `value` with `1 - b` in place of `b` at the places that `invert` marks.
pub open spec fn flipped(value: Seq<nat>, invert: Seq<bool>, p: nat) -> Seq<nat> {
    Seq::new(
        value.len(),
        |j: int|
            if invert[j] {
                sub_mod(1, value[j], p)
            } else {
                value[j]
            },
    )
}

/// The share that a holder goes on with: `inverse(num_shares) - s` in place
/// of `s` at the places that `invert` marks, the others unchanged. It is
/// refused, with `LengthMismatch`, where `invert` is not as long as `share`.
pub fn hedge<F: FieldElement>(share: &[F], invert: &[bool], num_shares: usize) -> (r: Result<
    Vec<F>,
    NoiseError,
>)
    ensures
        r is Ok <==> share@.len() == invert@.len(),
        r matches Ok(out) ==> values(out@) == hedged(
            values(share@),
            invert@,
            num_shares as nat,
            F::modulus(),
        ),
        r matches Err(e) ==> e == NoiseError::LengthMismatch,
{
    if share.len() != invert.len() {
        return Err(NoiseError::LengthMismatch);
    }
    let ghost p = F::modulus();
    let ghost target = hedged(values(share@), invert@, num_shares as nat, p);
    let num_shares_inv = F::from_usize(num_shares).inv();
    let mut out: Vec<F> = Vec::new();
    let mut j: usize = 0;
    while j < share.len()
        invariant
            j <= share@.len(),
            share@.len() == invert@.len(),
            p == F::modulus(),
            target == hedged(values(share@), invert@, num_shares as nat, p),
            num_shares_inv.value() == inv_mod((num_shares as nat) % p, p),
            values(out@) == target.take(j as int),
        decreases share@.len() - j,
    {
        let entry = if invert[j] {
            num_shares_inv.sub(share[j])
        } else {
            share[j]
        };
        out.push(entry);
        proof {
            assert(values(out@) =~= target.take(j as int).push(target[j as int]));
            assert(target.take(j + 1) =~= target.take(j as int).push(target[j as int]));
        }
        j += 1;
    }
    proof {
        assert(target.take(j as int) =~= target);
    }
    Ok(out)
}

/// The numbers `k_inv - x` reduced, for the `x` in `col`, add up to as many
/// times `k_inv` as there are numbers, less the sum of `col`.
proof fn lemma_inverted_column(col: Seq<nat>, inverted: Seq<nat>, k_inv: nat, p: nat)
    requires
        p > 0,
        inverted.len() == col.len(),
        forall|i: int| 0 <= i < col.len() ==> inverted[i] == sub_mod(k_inv, col[i], p),
    ensures
        congruent(sum_of(inverted) as int, col.len() * k_inv - sum_of(col), p),
    decreases col.len(),
{
    if col.len() > 0 {
        let n = (col.len() - 1) as nat;
        lemma_inverted_column(col.drop_last(), inverted.drop_last(), k_inv, p);
        lemma_congruent_residue(k_inv - col.last(), p);
        lemma_congruent_add(
            sum_of(inverted.drop_last()) as int,
            n * k_inv - sum_of(col.drop_last()),
            inverted.last() as int,
            k_inv - col.last(),
            p,
        );
        assert((n * k_inv - sum_of(col.drop_last())) + (k_inv - col.last()) == (n + 1) * k_inv
            - (sum_of(col.drop_last()) + col.last())) by (nonlinear_arith);
    } else {
        assert(0 * k_inv == 0);
    }
}

/// The hedge is neutral: where `shares` is an additive sharing of `value`
/// among a number of holders that the modulus does not divide, and every
/// holder inverts its share at the same places, the new shares are an
/// additive sharing of `value` with `1 - b` in place of `b` at these places,
/// and with `b` itself at the others. The new shares are as long as the old,
/// and where `value` is reduced they recombine to just that.
pub proof fn lemma_hedge_is_neutral<F: FieldElement>(
    shares: Seq<Seq<nat>>,
    value: Seq<nat>,
    invert: Seq<bool>,
)
    requires
        is_sharing(shares, value, F::modulus()),
        shares.len() % F::modulus() != 0,
        invert.len() == value.len(),
    ensures
        is_sharing(
            hedged_shares(shares, invert, F::modulus()),
            flipped(value, invert, F::modulus()),
            F::modulus(),
        ),
        (forall|j: int| 0 <= j < value.len() ==> value[j] < F::modulus()) ==> recombined(
            hedged_shares(shares, invert, F::modulus()),
            value.len(),
            F::modulus(),
        ) == flipped(value, invert, F::modulus()),
{
    let p = F::modulus();
    F::lemma_modulus_prime();
    lemma_hedged_sharing(shares, value, invert, p);
    if forall|j: int| 0 <= j < value.len() ==> value[j] < p {
        lemma_sharing_recombines(hedged_shares(shares, invert, p), flipped(value, invert, p), p);
    }
}

/// The hedge turns a sharing of `value` into one of `flipped(value)`, modulo
/// any prime that does not divide the number of shares.
proof fn lemma_hedged_sharing(
    shares: Seq<Seq<nat>>,
    value: Seq<nat>,
    invert: Seq<bool>,
    p: nat,
)
    requires
        is_prime(p),
        is_sharing(shares, value, p),
        shares.len() % p != 0,
        invert.len() == value.len(),
    ensures
        is_sharing(hedged_shares(shares, invert, p), flipped(value, invert, p), p),
{
    let k = shares.len();
    let k_inv = inv_mod(k % p, p);
    let after = hedged_shares(shares, invert, p);
    let target = flipped(value, invert, p);
    assert(all_of_len(after, target.len())) by {
        assert forall|i: int| 0 <= i < after.len() implies (#[trigger] after[i]).len()
            == target.len() by {
            assert(shares[i].len() == value.len());
        }
    }
    assert forall|j: int| 0 <= j < target.len() implies congruent(
        sum_of(#[trigger] column(after, j)) as int,
        target[j] as int,
        p,
    ) by {
        let col = column(shares, j);
        assert forall|i: int| 0 <= i < k implies (#[trigger] column(after, j)[i]) == hedged_value(
            col[i],
            invert[j],
            k,
            p,
        ) by {
            assert(shares[i].len() == value.len());
        }
        if invert[j] {
            lemma_inverted_column(col, column(after, j), k_inv, p);
            lemma_inv_mod_cancels(k, p);
            lemma_congruent_sub((k * k_inv) as int, 1, sum_of(col) as int, value[j] as int, p);
            lemma_congruent_residue(1 - value[j], p);
        } else {
            assert(column(after, j) =~= col);
        }
    }
}

} // verus!
