//! One round of the mechanism, from the shares of a bit vector to the noise
//! that their holders arrive at together.

use vstd::prelude::*;
use vstd::arithmetic::div_mod::lemma_small_mod;
use vstd::pervasive::unreached;
use crate::error::NoiseError;
use crate::field::{values, FieldElement};
use crate::hedge::{flipped, hedge, hedged_shares, lemma_hedge_is_neutral};
use crate::noise::{NBin, Noise};
use crate::sharing::{
    all_of_len, have_len, lemma_recombined_is_shared, lemma_sampling_is_linear,
    lemma_sharing_recombines, recombined, reconstruct, sample_shares, share_values,
};
use crate::testing::{random_bitvec, random_bools, split_vec};

verus! {

/// The sample that the holders of `shares` arrive at together: every holder
/// hedges its share at the places that `invert` marks and samples from it, and
/// the samples are recombined. Where the modulus does not divide the number of
/// holders, this is the sample that belongs to what the shares add up to, with
/// `1 - b` in place of `b` at the marked places. It is refused, with
/// `LengthMismatch`, where a share or `invert` has another length than the
/// distribution's bit count.
pub fn combined_sample<F: FieldElement>(dist: &NBin<F>, shares: &[Vec<F>], invert: &[bool]) -> (r:
    Result<Vec<F>, NoiseError>)
    requires
        shares@.len() >= 1,
    ensures
        r is Ok <==> invert@.len() == dist.bit_count() && all_of_len(
            share_values(shares@),
            dist.bit_count(),
        ),
        r matches Ok(sample) ==> values(sample@) == recombined(
            sample_shares(*dist, hedged_shares(share_values(shares@), invert@, F::modulus())),
            1,
            F::modulus(),
        ),
        r matches Ok(sample) ==> shares@.len() % F::modulus() != 0 ==> values(sample@)
            == dist.sample_of(
            flipped(
                recombined(share_values(shares@), dist.bit_count(), F::modulus()),
                invert@,
                F::modulus(),
            ),
            1,
        ),
        r matches Err(e) ==> e == NoiseError::LengthMismatch,
{
    let n = dist.bitvec_len();
    if invert.len() != n || !have_len(shares, n) {
        return Err(NoiseError::LengthMismatch);
    }
    let ghost p = F::modulus();
    let ghost parts = share_values(shares@);
    let ghost hedged_parts = hedged_shares(parts, invert@, p);
    let ghost targets = sample_shares(*dist, hedged_parts);
    let mut samples: Vec<Vec<F>> = Vec::new();
    let mut i: usize = 0;
    while i < shares.len()
        invariant
            i <= shares@.len(),
            n == dist.bit_count(),
            invert@.len() == n,
            p == F::modulus(),
            parts == share_values(shares@),
            all_of_len(parts, n as nat),
            hedged_parts == hedged_shares(parts, invert@, p),
            targets == sample_shares(*dist, hedged_parts),
            share_values(samples@) == targets.take(i as int),
        decreases shares@.len() - i,
    {
        assert(parts[i as int].len() == n);
        let hedged_share = match hedge(shares[i].as_slice(), invert, shares.len()) {
            Ok(hedged_share) => hedged_share,
            Err(_) => unreached(),
        };
        assert(values(hedged_share@).len() == n);
        let sample = match dist.sample_from_bitvec(hedged_share.as_slice(), shares.len()) {
            Ok(sample) => sample,
            Err(_) => unreached(),
        };
        proof {
            assert(values(sample@) == targets[i as int]);
            assert(share_values(samples@.push(sample)) =~= targets.take(i as int).push(
                targets[i as int],
            ));
            assert(targets.take(i + 1) =~= targets.take(i as int).push(targets[i as int]));
        }
        samples.push(sample);
        i += 1;
    }
    proof {
        assert(targets.take(i as int) =~= targets);
        assert(all_of_len(targets, 1)) by {
            assert forall|h: int| 0 <= h < targets.len() implies (#[trigger] targets[h]).len()
                == 1 by {}
        }
        assert(samples@[0]@.len() == 1) by {
            assert(share_values(samples@)[0].len() == 1);
        }
    }
    let sample = match reconstruct(samples.as_slice()) {
        Ok(sample) => sample,
        Err(_) => unreached(),
    };
    proof {
        if shares@.len() % p != 0 {
            let value = recombined(parts, n as nat, p);
            F::lemma_modulus_prime();
            lemma_recombined_is_shared(parts, n as nat, p);
            lemma_hedge_is_neutral::<F>(parts, value, invert@);
            lemma_sampling_is_linear(*dist, hedged_parts, flipped(value, invert@, p));
        }
    }
    Ok(sample)
}

/// One draw of the noise, as `SHARES` holders arrive at it: a random bit
/// vector is shared out at random, hedged at random places, sampled by every
/// holder and recombined. Where the modulus does not divide `SHARES`, what
/// comes out is the sample that belongs to some vector of bits. It fails,
/// with `RandomnessFailure`, where a source of randomness does, and where the
/// distribution's bit count is above `usize::MAX / 2`: so many random bits
/// are more than a vector holds, and are refused before anything is drawn.
pub fn sample_noise<F: FieldElement, const SHARES: usize>(dist: &NBin<F>) -> (r: Result<
    F,
    NoiseError,
>)
    requires
        SHARES >= 1,
    ensures
        r matches Ok(noise) ==> (SHARES as nat) % F::modulus() != 0 ==> (exists|bits: Seq<nat>|
            bits.len() == dist.bit_count() && (forall|j: int| 0 <= j < bits.len() ==> bits[j] <= 1)
                && #[trigger] dist.sample_of(bits, 1) == seq![noise.value()]),
        r matches Err(e) ==> e == NoiseError::RandomnessFailure,
        dist.bit_count() > usize::MAX / 2 ==> r is Err,
{
    let n = dist.bitvec_len();
    let bitvec: Vec<F> = match random_bitvec(n) {
        Ok(bitvec) => bitvec,
        Err(_) => {
            return Err(NoiseError::RandomnessFailure);
        },
    };
    let shares = match split_vec::<F, SHARES>(bitvec.as_slice()) {
        Ok(shares) => shares,
        Err(_) => {
            return Err(NoiseError::RandomnessFailure);
        },
    };
    let invert = match random_bools(n) {
        Ok(invert) => invert,
        Err(_) => {
            return Err(NoiseError::RandomnessFailure);
        },
    };
    let sample = match combined_sample(dist, shares.as_slice(), invert.as_slice()) {
        Ok(sample) => sample,
        Err(_) => unreached(),
    };
    proof {
        let p = F::modulus();
        F::lemma_modulus_prime();
        if (SHARES as nat) % p != 0 {
            let parts = share_values(shares@);
            let secret = values(bitvec@);
            let value = recombined(parts, n as nat, p);
            assert(value == secret) by {
                assert forall|j: int| 0 <= j < secret.len() implies secret[j] < p by {
                    assert(bitvec@[j].value() <= 1);
                }
                lemma_sharing_recombines(parts, secret, p);
            }
            let bits = flipped(value, invert@, p);
            assert forall|j: int| 0 <= j < bits.len() implies bits[j] <= 1 by {
                assert(bitvec@[j].value() <= 1);
                lemma_small_mod(0, p);
                lemma_small_mod(1, p);
            }
            assert(dist.sample_of(bits, 1) =~= seq![sample@[0].value()]);
        }
    }
    Ok(sample[0])
}

} // verus!
