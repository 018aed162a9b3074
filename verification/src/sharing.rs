//! Additive secret sharing: what a sharing is, how shares are recombined, and
//! why the samples of the shares are a sharing of the sample.

use vstd::prelude::*;
use vstd::arithmetic::div_mod::lemma_small_mod;
use crate::error::NoiseError;
use crate::field::{values, FieldElement};
use crate::modular::{
    congruent, inv_mod, lemma_congruent_add, lemma_congruent_mul, lemma_congruent_residue,
    lemma_congruent_sub, lemma_congruent_sums, lemma_inv_mod_of_one, lemma_sub_mod_step,
    lemma_sum_mod_step, lemma_sum_of_permutation, lemma_sum_of_push, lemma_sum_of_sums,
    lemma_sum_of_zeros, sum_mod, sum_of,
};
use crate::noise::{centered_sample, NBin, Noise};
use crate::primality::{is_prime, lemma_inv_mod_cancels};

verus! {

/// The numbers at place `j` of the sequences in `shares`, one after another.
pub open spec fn column(shares: Seq<Seq<nat>>, j: int) -> Seq<nat> {
    Seq::new(shares.len(), |i: int| shares[i][j])
}

/// Every sequence in `shares` has the length `len`.
pub open spec fn all_of_len(shares: Seq<Seq<nat>>, len: nat) -> bool {
    forall|i: int| 0 <= i < shares.len() ==> (#[trigger] shares[i]).len() == len
}

/// `shares` is an additive sharing of `value` modulo `p`: the shares are as
/// long as `value`, and at every place their sum is congruent to the number
/// that `value` has there.
pub open spec fn is_sharing(shares: Seq<Seq<nat>>, value: Seq<nat>, p: nat) -> bool {
    &&& all_of_len(shares, value.len())
    &&& forall|j: int|
        0 <= j < value.len() ==> congruent(
            sum_of(#[trigger] column(shares, j)) as int,
            value[j] as int,
            p,
        )
}

/// What `shares` add up to at each of the first `len` places, reduced.
pub open spec fn recombined(shares: Seq<Seq<nat>>, len: nat, p: nat) -> Seq<nat> {
    Seq::new(len, |j: int| sum_mod(column(shares, j), p))
}

/// The residues that the elements of each of `shares` stand for.
pub open spec fn share_values<F: FieldElement>(shares: Seq<Vec<F>>) -> Seq<Seq<nat>> {
    shares.map_values(|share: Vec<F>| values(share@))
}

/// The samples that the holders of `shares` compute, each from its own share.
pub open spec fn sample_shares<F: FieldElement>(dist: NBin<F>, shares: Seq<Seq<nat>>) -> Seq<
    Seq<nat>,
> {
    Seq::new(shares.len(), |i: int| dist.sample_of(shares[i], shares.len()))
}

/// Whether every one of `shares` has the length `len`.
pub fn have_len<F: FieldElement>(shares: &[Vec<F>], len: usize) -> (b: bool)
    ensures
        b == all_of_len(share_values(shares@), len as nat),
{
    let mut i: usize = 0;
    while i < shares.len()
        invariant
            i <= shares@.len(),
            forall|h: int| 0 <= h < i ==> (#[trigger] share_values(shares@)[h]).len() == len,
        decreases shares@.len() - i,
    {
        if shares[i].len() != len {
            assert(share_values(shares@)[i as int].len() != len);
            return false;
        }
        i += 1;
    }
    true
}

/// Recombines what was shared: the field sum of the shares, place by place.
/// It is refused, with `LengthMismatch`, where the shares differ in length.
pub fn reconstruct<F: FieldElement>(shares: &[Vec<F>]) -> (r: Result<Vec<F>, NoiseError>)
    requires
        shares@.len() >= 1,
    ensures
        r is Ok <==> all_of_len(share_values(shares@), shares@[0]@.len()),
        r matches Ok(sum) ==> values(sum@) == recombined(
            share_values(shares@),
            shares@[0]@.len(),
            F::modulus(),
        ),
        r matches Err(e) ==> e == NoiseError::LengthMismatch,
{
    let len = shares[0].len();
    if !have_len(shares, len) {
        return Err(NoiseError::LengthMismatch);
    }
    let ghost p = F::modulus();
    let ghost parts = share_values(shares@);
    proof {
        F::lemma_modulus_prime();
    }
    let mut sum: Vec<F> = Vec::new();
    let mut j: usize = 0;
    while j < len
        invariant
            j <= len,
            p == F::modulus(),
            p > 0,
            parts == share_values(shares@),
            all_of_len(parts, len as nat),
            sum@.len() == j,
            forall|h: int|
                0 <= h < j ==> (#[trigger] sum@[h]).value() == sum_mod(column(parts, h), p),
        decreases len - j,
    {
        let mut acc = F::from_usize(0);
        let mut i: usize = 0;
        proof {
            lemma_small_mod(0, p);
            assert(column(parts, j as int).take(0) =~= Seq::<nat>::empty());
        }
        while i < shares.len()
            invariant
                i <= shares@.len(),
                j < len,
                p == F::modulus(),
                p > 0,
                parts == share_values(shares@),
                all_of_len(parts, len as nat),
                acc.value() == sum_mod(column(parts, j as int).take(i as int), p),
            decreases shares@.len() - i,
        {
            proof {
                let col = column(parts, j as int);
                assert(parts[i as int].len() == len);
                assert(col.take(i + 1) =~= col.take(i as int).push(
                    shares@[i as int]@[j as int].value(),
                ));
                lemma_sum_mod_step(col.take(i as int), shares@[i as int]@[j as int].value(), p);
            }
            acc = acc.add(shares[i][j]);
            i += 1;
        }
        proof {
            let col = column(parts, j as int);
            assert(col.take(i as int) =~= col);
        }
        sum.push(acc);
        j += 1;
    }
    proof {
        assert(values(sum@) =~= recombined(parts, len as nat, p));
    }
    Ok(sum)
}

/// Shares of the length `len` are an additive sharing of what they add up to.
pub proof fn lemma_recombined_is_shared(shares: Seq<Seq<nat>>, len: nat, p: nat)
    requires
        p > 0,
        all_of_len(shares, len),
    ensures
        is_sharing(shares, recombined(shares, len, p), p),
{
    let value = recombined(shares, len, p);
    assert forall|j: int| 0 <= j < value.len() implies congruent(
        sum_of(#[trigger] column(shares, j)) as int,
        value[j] as int,
        p,
    ) by {
        lemma_congruent_residue(sum_of(column(shares, j)) as int, p);
    }
}

/// The same shares in another order have the same numbers at every place, in
/// another order.
proof fn lemma_column_permutation(shares: Seq<Seq<nat>>, others: Seq<Seq<nat>>, j: int)
    requires
        shares.to_multiset() == others.to_multiset(),
    ensures
        column(shares, j).to_multiset() == column(others, j).to_multiset(),
    decreases shares.len(),
{
    shares.to_multiset_ensures();
    others.to_multiset_ensures();
    if shares.len() == 0 {
        assert(column(shares, j) =~= column(others, j));
    } else {
        let last = shares.last();
        assert(shares.contains(last)) by {
            assert(shares[shares.len() - 1] == last);
        }
        assert(shares.to_multiset().count(last) > 0);
        assert(others.to_multiset().count(last) > 0);
        assert(others.contains(last));
        let i = choose|i: int| 0 <= i < others.len() && others[i] == last;
        let front = shares.drop_last();
        let rest = others.remove(i);
        assert(front =~= shares.remove(shares.len() - 1));
        assert(shares.remove(shares.len() - 1).to_multiset() == shares.to_multiset().remove(last));
        assert(rest.to_multiset() == others.to_multiset().remove(last));
        lemma_column_permutation(front, rest, j);
        assert(column(shares, j) =~= column(front, j).push(last[j]));
        assert(column(rest, j) =~= column(others, j).remove(i));
        column(front, j).to_multiset_ensures();
        column(others, j).to_multiset_ensures();
        assert(column(others, j).to_multiset().count(last[j]) > 0) by {
            assert(column(others, j)[i] == last[j]);
            assert(column(others, j).contains(last[j]));
        }
        assert(column(others, j).to_multiset() =~= column(others, j).to_multiset().remove(
            last[j],
        ).insert(last[j]));
    }
}

/// Recombining does not depend on the order of the shares.
pub proof fn lemma_recombining_ignores_order(
    shares: Seq<Seq<nat>>,
    others: Seq<Seq<nat>>,
    len: nat,
    p: nat,
)
    requires
        shares.to_multiset() == others.to_multiset(),
    ensures
        recombined(shares, len, p) == recombined(others, len, p),
{
    assert forall|j: int| 0 <= j < len implies recombined(shares, len, p)[j] == recombined(
        others,
        len,
        p,
    )[j] by {
        lemma_column_permutation(shares, others, j);
        lemma_sum_of_permutation(column(shares, j), column(others, j));
    }
    assert(recombined(shares, len, p) =~= recombined(others, len, p));
}

/// The shares of an additive sharing recombine to what was shared, wherever
/// that is reduced.
pub proof fn lemma_sharing_recombines(shares: Seq<Seq<nat>>, value: Seq<nat>, p: nat)
    requires
        p > 0,
        is_sharing(shares, value, p),
        forall|j: int| 0 <= j < value.len() ==> value[j] < p,
    ensures
        recombined(shares, value.len(), p) == value,
{
    let sums = recombined(shares, value.len(), p);
    assert forall|j: int| 0 <= j < value.len() implies sums[j] == value[j] by {
        assert(congruent(sum_of(column(shares, j)) as int, value[j] as int, p));
        lemma_small_mod(value[j], p);
    }
    assert(sums =~= value);
}

/// What is left of `value` when all of `masks` are taken off, place by
/// place, reduced.
pub open spec fn masked(value: Seq<nat>, masks: Seq<Seq<nat>>, p: nat) -> Seq<nat> {
    Seq::new(value.len(), |j: int| ((value[j] - sum_of(column(masks, j))) % (p as int)) as nat)
}

/// Splitting is correct: masks that are as long as `value`, together with
/// what is left of `value` when they are taken off, are an additive sharing of
/// `value`.
pub proof fn lemma_masks_and_rest_are_sharing(value: Seq<nat>, masks: Seq<Seq<nat>>, p: nat)
    requires
        p > 0,
        all_of_len(masks, value.len()),
    ensures
        is_sharing(masks.push(masked(value, masks, p)), value, p),
{
    let rest = masked(value, masks, p);
    let shares = masks.push(rest);
    assert(all_of_len(shares, value.len())) by {
        assert forall|i: int| 0 <= i < shares.len() implies (#[trigger] shares[i]).len()
            == value.len() by {
            if i < masks.len() {
                assert(shares[i] == masks[i]);
            }
        }
    }
    assert forall|j: int| 0 <= j < value.len() implies congruent(
        sum_of(#[trigger] column(shares, j)) as int,
        value[j] as int,
        p,
    ) by {
        assert(column(shares, j) =~= column(masks, j).push(rest[j]));
        lemma_sum_of_push(column(masks, j), rest[j]);
        lemma_congruent_residue(value[j] - sum_of(column(masks, j)), p);
        lemma_congruent_add(
            sum_of(column(masks, j)) as int,
            sum_of(column(masks, j)) as int,
            rest[j] as int,
            value[j] - sum_of(column(masks, j)),
            p,
        );
    }
}

/// `value` shared out with the given masks: the masks themselves are the
/// first shares, and the last share is `value` less all the masks, place by
/// place, so that the shares are an additive sharing of `value`. It is
/// refused, with `LengthMismatch`, where a mask is not as long as `value`.
pub fn split_with_masks<F: FieldElement>(value: &[F], masks: &[Vec<F>]) -> (r: Result<
    Vec<Vec<F>>,
    NoiseError,
>)
    ensures
        r is Ok <==> all_of_len(share_values(masks@), value@.len()),
        r matches Ok(shares) ==> share_values(shares@) == share_values(masks@).push(
            masked(values(value@), share_values(masks@), F::modulus()),
        ),
        r matches Ok(shares) ==> is_sharing(
            share_values(shares@),
            values(value@),
            F::modulus(),
        ),
        r matches Err(e) ==> e == NoiseError::LengthMismatch,
{
    let len = value.len();
    if !have_len(masks, len) {
        return Err(NoiseError::LengthMismatch);
    }
    let ghost p = F::modulus();
    let ghost blinds = share_values(masks@);
    proof {
        F::lemma_modulus_prime();
    }
    let mut shares: Vec<Vec<F>> = Vec::new();
    let mut rest: Vec<F> = Vec::new();
    let mut j: usize = 0;
    while j < len
        invariant
            j <= len,
            len == value@.len(),
            p == F::modulus(),
            p > 0,
            blinds == share_values(masks@),
            all_of_len(blinds, len as nat),
            rest@.len() == j,
            forall|h: int|
                0 <= h < j ==> (#[trigger] rest@[h]).value() == (value@[h].value() - sum_of(
                    column(blinds, h),
                )) % (p as int),
        decreases len - j,
    {
        let mut acc = value[j];
        let mut i: usize = 0;
        proof {
            value@[j as int].lemma_value_reduced();
            lemma_small_mod(acc.value(), p);
            assert(column(blinds, j as int).take(0) =~= Seq::<nat>::empty());
        }
        while i < masks.len()
            invariant
                i <= masks@.len(),
                j < len,
                len == value@.len(),
                p == F::modulus(),
                p > 0,
                blinds == share_values(masks@),
                all_of_len(blinds, len as nat),
                acc.value() == (value@[j as int].value() - sum_of(
                    column(blinds, j as int).take(i as int),
                )) % (p as int),
            decreases masks@.len() - i,
        {
            proof {
                let col = column(blinds, j as int);
                let x = masks@[i as int]@[j as int].value();
                assert(blinds[i as int].len() == len);
                assert(col.take(i + 1) =~= col.take(i as int).push(x));
                lemma_sum_of_push(col.take(i as int), x);
                lemma_sub_mod_step(
                    value@[j as int].value() as int,
                    sum_of(col.take(i as int)) as int,
                    x as int,
                    p,
                );
            }
            acc = acc.sub(masks[i][j]);
            i += 1;
        }
        proof {
            let col = column(blinds, j as int);
            assert(col.take(i as int) =~= col);
        }
        rest.push(acc);
        j += 1;
    }
    let mut i: usize = 0;
    while i < masks.len()
        invariant
            i <= masks@.len(),
            shares@.len() == i,
            all_of_len(share_values(masks@), len as nat),
            forall|h: int| 0 <= h < i ==> (#[trigger] shares@[h])@ == masks@[h]@,
        decreases masks@.len() - i,
    {
        let mask = &masks[i];
        assert(share_values(masks@)[i as int].len() == len);
        let mut copy: Vec<F> = Vec::new();
        let mut j: usize = 0;
        while j < mask.len()
            invariant
                j <= mask@.len(),
                copy@ == mask@.take(j as int),
            decreases mask@.len() - j,
        {
            copy.push(mask[j]);
            proof {
                assert(mask@.take(j + 1) =~= mask@.take(j as int).push(mask@[j as int]));
            }
            j += 1;
        }
        proof {
            assert(mask@.take(j as int) =~= mask@);
        }
        shares.push(copy);
        i += 1;
    }
    shares.push(rest);
    proof {
        let parts = share_values(shares@);
        let secret = values(value@);
        let target = blinds.push(masked(secret, blinds, p));
        assert forall|i: int| 0 <= i < target.len() implies parts[i] == target[i] by {
            if i < masks@.len() {
                assert(shares@[i]@ == masks@[i]@);
            } else {
                assert(values(rest@) =~= masked(secret, blinds, p));
            }
        }
        assert(parts =~= target);
        lemma_masks_and_rest_are_sharing(secret, blinds, p);
    }
    Ok(shares)
}

/// The sum of each of `shares`.
spec fn share_sums(shares: Seq<Seq<nat>>) -> Seq<nat> {
    Seq::new(shares.len(), |i: int| sum_of(shares[i]))
}

/// The sum of each of the first `len` columns of `shares`.
spec fn column_sums(shares: Seq<Seq<nat>>, len: nat) -> Seq<nat> {
    Seq::new(len, |j: int| sum_of(column(shares, j)))
}

/// All the numbers in `shares` add up to the same, share by share or column by
/// column.
proof fn lemma_sum_exchange(shares: Seq<Seq<nat>>, len: nat)
    requires
        all_of_len(shares, len),
    ensures
        sum_of(share_sums(shares)) == sum_of(column_sums(shares, len)),
    decreases shares.len(),
{
    if shares.len() == 0 {
        assert forall|j: int| 0 <= j < len implies column_sums(shares, len)[j] == 0 by {
            assert(column(shares, j) =~= Seq::<nat>::empty());
        }
        lemma_sum_of_zeros(column_sums(shares, len));
    } else {
        let front = shares.drop_last();
        let last = shares.last();
        assert(all_of_len(front, len)) by {
            assert forall|i: int| 0 <= i < front.len() implies (#[trigger] front[i]).len()
                == len by {
                assert(front[i] == shares[i]);
            }
        }
        lemma_sum_exchange(front, len);
        assert(share_sums(shares) =~= share_sums(front).push(sum_of(last)));
        lemma_sum_of_push(share_sums(front), sum_of(last));
        assert forall|j: int| 0 <= j < len implies column_sums(shares, len)[j] == column_sums(
            front,
            len,
        )[j] + last[j] by {
            assert(column(shares, j) =~= column(front, j).push(last[j]));
            lemma_sum_of_push(column(front, j), last[j]);
        }
        lemma_sum_of_sums(column_sums(front, len), last, column_sums(shares, len));
    }
}

/// The samples of the first `r` shares add up to the scaled sum of these
/// shares, less `r` times the centering term.
proof fn lemma_sample_prefix(
    m_inv: nat,
    n_div_2: nat,
    shares: Seq<Seq<nat>>,
    samples: Seq<nat>,
    r: nat,
    p: nat,
)
    requires
        p > 0,
        r <= shares.len(),
        samples.len() == shares.len(),
        forall|i: int|
            0 <= i < shares.len() ==> samples[i] == centered_sample(
                m_inv,
                n_div_2,
                #[trigger] shares[i],
                shares.len(),
                p,
            ),
    ensures
        congruent(
            sum_of(samples.take(r as int)) as int,
            m_inv * (sum_of(share_sums(shares).take(r as int)) - r * (n_div_2 * inv_mod(
                shares.len() % p,
                p,
            ))),
            p,
        ),
    decreases r,
{
    let c = n_div_2 * inv_mod(shares.len() % p, p);
    if r == 0 {
        assert(samples.take(0) =~= Seq::<nat>::empty());
        assert(share_sums(shares).take(0) =~= Seq::<nat>::empty());
        assert(m_inv * (0 - 0 * c) == 0) by (nonlinear_arith);
    } else {
        let q = (r - 1) as nat;
        lemma_sample_prefix(m_inv, n_div_2, shares, samples, q, p);
        let s = sum_of(shares[q as int]);
        let t = sum_of(share_sums(shares).take(q as int));
        assert(samples.take(r as int) =~= samples.take(q as int).push(samples[q as int]));
        lemma_sum_of_push(samples.take(q as int), samples[q as int]);
        assert(share_sums(shares).take(r as int) =~= share_sums(shares).take(q as int).push(s));
        lemma_sum_of_push(share_sums(shares).take(q as int), s);
        lemma_congruent_residue(m_inv * (s - c), p);
        lemma_congruent_add(
            sum_of(samples.take(q as int)) as int,
            m_inv * (t - q * c),
            samples[q as int] as int,
            m_inv * (s - c),
            p,
        );
        assert(m_inv * (t - q * c) + m_inv * (s - c) == m_inv * ((t + s) - r * c))
            by (nonlinear_arith)
            requires
                r == q + 1,
        ;
    }
}

/// The centered samples of the shares of a sharing add up to the centered
/// sample of what is shared.
proof fn lemma_centered_samples_add_up(
    m_inv: nat,
    n_div_2: nat,
    shares: Seq<Seq<nat>>,
    samples: Seq<nat>,
    value: Seq<nat>,
    p: nat,
)
    requires
        is_prime(p),
        is_sharing(shares, value, p),
        shares.len() % p != 0,
        samples.len() == shares.len(),
        forall|i: int|
            0 <= i < shares.len() ==> samples[i] == centered_sample(
                m_inv,
                n_div_2,
                #[trigger] shares[i],
                shares.len(),
                p,
            ),
    ensures
        congruent(
            sum_of(samples) as int,
            centered_sample(m_inv, n_div_2, value, 1, p) as int,
            p,
        ),
{
    let k = shares.len();
    let k_inv = inv_mod(k % p, p);
    let c = n_div_2 * k_inv;
    let total = sum_of(share_sums(shares));
    lemma_sample_prefix(m_inv, n_div_2, shares, samples, k, p);
    assert(samples.take(k as int) =~= samples);
    assert(share_sums(shares).take(k as int) =~= share_sums(shares));
    lemma_sum_exchange(shares, value.len());
    assert forall|j: int| 0 <= j < value.len() implies congruent(
        column_sums(shares, value.len())[j] as int,
        value[j] as int,
        p,
    ) by {
        assert(column_sums(shares, value.len())[j] == sum_of(column(shares, j)));
    }
    lemma_congruent_sums(column_sums(shares, value.len()), value, p);
    lemma_inv_mod_cancels(k, p);
    lemma_congruent_mul(n_div_2 as int, n_div_2 as int, (k * k_inv) as int, 1, p);
    assert(k * c == n_div_2 * (k * k_inv)) by (nonlinear_arith)
        requires
            c == n_div_2 * k_inv,
    ;
    lemma_congruent_sub(
        total as int,
        sum_of(value) as int,
        (k * c) as int,
        (n_div_2 * 1) as int,
        p,
    );
    lemma_congruent_mul(
        m_inv as int,
        m_inv as int,
        total - k * c,
        sum_of(value) - n_div_2 * 1,
        p,
    );
    lemma_inv_mod_of_one(p);
    lemma_congruent_residue(m_inv * (sum_of(value) - n_div_2 * 1), p);
}

/// Sampling is linear: where `shares` is an additive sharing of `bitvec`
/// among a number of holders that the modulus does not divide, the samples
/// that the holders compute from their shares are an additive sharing of the
/// sample that belongs to `bitvec` itself: they recombine to that sample.
pub proof fn lemma_sampling_is_linear<F: FieldElement>(
    dist: NBin<F>,
    shares: Seq<Seq<nat>>,
    bitvec: Seq<nat>,
)
    requires
        is_sharing(shares, bitvec, F::modulus()),
        shares.len() % F::modulus() != 0,
    ensures
        is_sharing(sample_shares(dist, shares), dist.sample_of(bitvec, 1), F::modulus()),
        recombined(sample_shares(dist, shares), 1, F::modulus()) == dist.sample_of(bitvec, 1),
{
    let p = F::modulus();
    let samples = column(sample_shares(dist, shares), 0);
    F::lemma_modulus_prime();
    lemma_centered_samples_add_up(
        dist.scale_inverse(),
        dist.half_count(),
        shares,
        samples,
        bitvec,
        p,
    );
    assert forall|j: int| 0 <= j < dist.sample_of(bitvec, 1).len() implies congruent(
        sum_of(#[trigger] column(sample_shares(dist, shares), j)) as int,
        dist.sample_of(bitvec, 1)[j] as int,
        p,
    ) by {
        assert(j == 0);
    }
    lemma_sharing_recombines(sample_shares(dist, shares), dist.sample_of(bitvec, 1), p);
}

/// The sample does not depend on the number of shares: two additive sharings
/// of one `bitvec`, each among a number of holders that the modulus does not
/// divide, give samples that recombine to the same.
pub proof fn lemma_share_count_is_irrelevant<F: FieldElement>(
    dist: NBin<F>,
    shares: Seq<Seq<nat>>,
    others: Seq<Seq<nat>>,
    bitvec: Seq<nat>,
)
    requires
        is_sharing(shares, bitvec, F::modulus()),
        is_sharing(others, bitvec, F::modulus()),
        shares.len() % F::modulus() != 0,
        others.len() % F::modulus() != 0,
    ensures
        recombined(sample_shares(dist, shares), 1, F::modulus()) == recombined(
            sample_shares(dist, others),
            1,
            F::modulus(),
        ),
{
    lemma_sampling_is_linear(dist, shares, bitvec);
    lemma_sampling_is_linear(dist, others, bitvec);
}

} // verus!
