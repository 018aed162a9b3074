//! The noise distribution: a centered and rescaled count of secret bits.

use vstd::prelude::*;
use vstd::arithmetic::div_mod::{lemma_mul_mod_noop_right, lemma_small_mod, lemma_sub_mod_noop};
use crate::error::NoiseError;
use crate::field::{values, FieldElement};
use crate::modular::{
    has_inverse, inv_mod, is_inverse, lemma_congruent_mul, lemma_congruent_residue,
    lemma_sum_mod_step, mul_mod, sum_mod, sum_of,
};
use crate::primality::{lemma_inv_mod_cancels, lemma_inverse_exists};

verus! {

/// The residue of `m_inv * (y - n_div_2 * inverse(num_shares))`, where `y` is
/// the sum of the numbers in `share`.
pub open spec fn centered_sample(
    m_inv: nat,
    n_div_2: nat,
    share: Seq<nat>,
    num_shares: nat,
    p: nat,
) -> nat {
    ((m_inv * (sum_of(share) - n_div_2 * inv_mod(num_shares % p, p))) % (p as int)) as nat
}

/// A noise distribution that is sampled from a vector of secret bits, or from
/// one additive share of such a vector.
pub trait Noise<F: FieldElement> {
    /// The length of the bit vectors that the distribution is sampled from.
    spec fn bit_count(&self) -> nat;

    /// The residues of the sample that belongs to the residues `bitvec`, held
    /// as one of `num_shares` shares.
    spec fn sample_of(&self, bitvec: Seq<nat>, num_shares: nat) -> Seq<nat>;

    /// The sample for one of `num_shares` additive shares of a bit vector; for
    /// the bit vector itself where `num_shares` is one. It is refused, with
    /// `LengthMismatch`, where the length of `bitvec` is not `bitvec_len()`.
    fn sample_from_bitvec(&self, bitvec: &[F], num_shares: usize) -> (r: Result<Vec<F>, NoiseError>)
        ensures
            r is Ok <==> bitvec@.len() == self.bit_count(),
            r matches Ok(sample) ==> values(sample@) == self.sample_of(
                values(bitvec@),
                num_shares as nat,
            ),
            r matches Err(e) ==> e == NoiseError::LengthMismatch,
    ;

    /// The length of the bit vectors that the distribution is sampled from.
    fn bitvec_len(&self) -> (n: usize)
        ensures
            n == self.bit_count(),
    ;
}

/// The distribution of `(y - n / 2) / m`, where `y` counts the ones among `n`
/// secret bits.
pub struct NBin<F> {
    n: usize,
    n_div_2: F,
    m_inv: F,
}

impl<F: FieldElement> NBin<F> {
    /// The residue of `n / 2`.
    pub closed spec fn half_count(self) -> nat {
        self.n_div_2.value()
    }

    /// The residue of `1 / m`.
    pub closed spec fn scale_inverse(self) -> nat {
        self.m_inv.value()
    }

    /// The distribution is one that `new` makes: the field holds the bit count
    /// as itself, `half_count` is the bit count times the inverse of two, and
    /// `scale_inverse` is the inverse of a residue that has one.
    pub open spec fn wf(self) -> bool {
        let p = F::modulus();
        &&& self.bit_count() < p
        &&& self.half_count() == mul_mod(self.bit_count(), inv_mod(2nat % p, p), p)
        &&& has_inverse(self.scale_inverse(), p)
    }

    /// The distribution for `n` bits and the scale `m`. It is refused, with
    /// `ConfigurationError`, where the field does not hold `n` as itself or `m`
    /// has no inverse in the field.
    pub fn new(n: usize, m: usize) -> (r: Result<Self, NoiseError>)
        ensures
            r is Ok <==> (n as nat) < F::modulus() && (m as nat) % F::modulus() != 0,
            r matches Ok(dist) ==> dist.wf() && dist.bit_count() == n && dist.scale_inverse()
                == inv_mod((m as nat) % F::modulus(), F::modulus()),
            r matches Ok(dist) ==> mul_mod(m as nat, dist.scale_inverse(), F::modulus()) == 1,
            r matches Ok(dist) ==> F::modulus() > 2 ==> mul_mod(2, dist.half_count(), F::modulus())
                == n,
            r matches Err(e) ==> e == NoiseError::ConfigurationError,
    {
        let scale = F::from_usize(m);
        if !F::holds(n) || scale.is_zero() {
            return Err(NoiseError::ConfigurationError);
        }
        let n_div_2 = F::from_usize(n).mul(F::from_usize(2).inv());
        let m_inv = scale.inv();
        proof {
            let p = F::modulus();
            F::lemma_modulus_prime();
            lemma_small_mod(n as nat, p);
            lemma_small_mod(scale.value(), p);
            lemma_inverse_exists(scale.value(), p);
            scale.lemma_value_reduced();
            assert(scale.value() * m_inv.value() == m_inv.value() * scale.value())
                by (nonlinear_arith);
            assert(is_inverse(m_inv.value(), scale.value(), p));
            lemma_inv_mod_cancels(m as nat, p);
            lemma_small_mod(1, p);
            if p > 2 {
                let half = inv_mod(2nat % p, p);
                let count = n as nat;
                lemma_small_mod(2, p);
                lemma_inv_mod_cancels(2, p);
                lemma_congruent_residue((count * half) as int, p);
                lemma_congruent_mul(
                    2,
                    2,
                    ((count * half) % p) as int,
                    (count * half) as int,
                    p,
                );
                lemma_congruent_mul(count as int, count as int, (2 * half) as int, 1, p);
                assert(2 * (count * half) == count * (2 * half)) by (nonlinear_arith);
                assert(count * 1 == count);
            }
        }
        Ok(NBin { n, n_div_2, m_inv })
    }
}

impl<F: FieldElement> Noise<F> for NBin<F> {
    closed spec fn bit_count(&self) -> nat {
        self.n as nat
    }

    open spec fn sample_of(&self, bitvec: Seq<nat>, num_shares: nat) -> Seq<nat> {
        seq![
            centered_sample(
                self.scale_inverse(),
                self.half_count(),
                bitvec,
                num_shares,
                F::modulus(),
            ),
        ]
    }

    fn sample_from_bitvec(&self, bitvec: &[F], num_shares: usize) -> (r: Result<
        Vec<F>,
        NoiseError,
    >) {
        if bitvec.len() != self.n {
            return Err(NoiseError::LengthMismatch);
        }
        let ghost p = F::modulus();
        let ghost bits = values(bitvec@);
        proof {
            F::lemma_modulus_prime();
        }
        let num_shares_inv = F::from_usize(num_shares).inv();
        let mut y = F::from_usize(0);
        let mut i: usize = 0;
        proof {
            lemma_small_mod(0, p);
            assert(bits.take(0) =~= Seq::<nat>::empty());
        }
        while i < bitvec.len()
            invariant
                i <= bitvec@.len(),
                p == F::modulus(),
                p > 0,
                bits == values(bitvec@),
                y.value() == sum_mod(bits.take(i as int), p),
            decreases bitvec@.len() - i,
        {
            proof {
                assert(bits.take(i + 1) =~= bits.take(i as int).push(bitvec@[i as int].value()));
                lemma_sum_mod_step(bits.take(i as int), bitvec@[i as int].value(), p);
            }
            y = y.add(bitvec[i]);
            i += 1;
        }
        let centering = self.n_div_2.mul(num_shares_inv);
        let sample = self.m_inv.mul(y.sub(centering));
        proof {
            assert(bits.take(i as int) =~= bits);
            let k_inv = inv_mod((num_shares as nat) % p, p);
            let c = self.half_count() * k_inv;
            lemma_sub_mod_noop(sum_of(bits) as int, c as int, p as int);
            lemma_mul_mod_noop_right(
                self.scale_inverse() as int,
                sum_of(bits) - c,
                p as int,
            );
        }
        let mut out: Vec<F> = Vec::new();
        out.push(sample);
        proof {
            assert(values(out@) =~= self.sample_of(bits, num_shares as nat));
        }
        Ok(out)
    }

    fn bitvec_len(&self) -> (n: usize) {
        self.n
    }
}

} // verus!
