//! Helpers for simulations and tests: random bit vectors and random sharings.

use vstd::prelude::*;
use vstd::arithmetic::div_mod::lemma_small_mod;
use vstd::pervasive::unreached;
use crate::error::NoiseError;
use crate::field::{values, FieldElement};
use crate::sharing::{all_of_len, column, is_sharing, masked, share_values, split_with_masks};

verus! {

/// The error of the generators of `rand`.
#[verifier::external_type_specification]
#[verifier::external_body]
pub struct ExRandError(rand::Error);

/// `rand::RngCore::try_fill_bytes` on `rand::rngs::OsRng`, with a buffer of
/// `len` bytes: where it succeeds, the buffer holds `len` bytes from the
/// operating system's generator. Nothing is known of which. The buffer must
/// not take more bytes than `isize::MAX`.
#[verifier::external_body]
fn random_bytes(len: usize) -> (r: Result<Vec<u8>, rand::Error>)
    requires
        len <= usize::MAX / 2,
    ensures
        r matches Ok(bytes) ==> bytes@.len() == len,
{
    let mut bytes = vec![0u8; len];
    match rand::RngCore::try_fill_bytes(&mut rand::rngs::OsRng, &mut bytes) {
        Ok(()) => Ok(bytes),
        Err(error) => Err(error),
    }
}

/// `TryFrom<Vec<T>>` for arrays, of std: a vector of `N` items becomes the
/// array of the same items in the same order, and any other vector comes back
/// as it is.
#[verifier::external_body]
fn vec_into_array<T, const N: usize>(items: Vec<T>) -> (r: Result<[T; N], Vec<T>>)
    ensures
        r is Ok <==> items@.len() == N,
        r matches Ok(array) ==> array@ == items@,
        r matches Err(rest) ==> rest@ == items@,
{
    <[T; N]>::try_from(items)
}

/// One boolean for every byte: whether the byte's highest bit is set.
pub fn bools_from_bytes(bytes: &[u8]) -> (r: Vec<bool>)
    ensures
        r@.len() == bytes@.len(),
        forall|i: int| 0 <= i < bytes@.len() ==> r@[i] == (bytes@[i] >= 128),
{
    let mut bools: Vec<bool> = Vec::new();
    let mut i: usize = 0;
    while i < bytes.len()
        invariant
            i <= bytes@.len(),
            bools@.len() == i,
            forall|h: int| 0 <= h < i ==> bools@[h] == (bytes@[h] >= 128),
        decreases bytes@.len() - i,
    {
        bools.push(bytes[i] >= 128);
        i += 1;
    }
    bools
}

/// `len` random booleans, each from one byte of the operating system's
/// generator. It fails, with `RandomnessFailure`, where the generator does,
/// and where `len` bytes are more than a vector holds.
pub fn random_bools(len: usize) -> (r: Result<Vec<bool>, NoiseError>)
    ensures
        r matches Ok(bools) ==> bools@.len() == len,
        r matches Err(e) ==> e == NoiseError::RandomnessFailure,
        len > usize::MAX / 2 ==> r is Err,
{
    if len > usize::MAX / 2 {
        return Err(NoiseError::RandomnessFailure);
    }
    match random_bytes(len) {
        Ok(bytes) => Ok(bools_from_bytes(bytes.as_slice())),
        Err(_) => Err(NoiseError::RandomnessFailure),
    }
}

/// The bit vector that `bits` spells: the field's one where a boolean is
/// true, its zero where it is false.
pub fn bitvec_from_bools<F: FieldElement>(bits: &[bool]) -> (r: Vec<F>)
    ensures
        r@.len() == bits@.len(),
        forall|i: int|
            0 <= i < bits@.len() ==> (#[trigger] r@[i]).value() == (if bits@[i] {
                1nat
            } else {
                0nat
            }),
{
    proof {
        F::lemma_modulus_prime();
        lemma_small_mod(0, F::modulus());
        lemma_small_mod(1, F::modulus());
    }
    let mut bitvec: Vec<F> = Vec::new();
    let mut i: usize = 0;
    while i < bits.len()
        invariant
            i <= bits@.len(),
            bitvec@.len() == i,
            0nat % F::modulus() == 0,
            1nat % F::modulus() == 1,
            forall|h: int|
                0 <= h < i ==> (#[trigger] bitvec@[h]).value() == (if bits@[h] {
                    1nat
                } else {
                    0nat
                }),
        decreases bits@.len() - i,
    {
        let bit: usize = if bits[i] {
            1
        } else {
            0
        };
        bitvec.push(F::from_usize(bit));
        i += 1;
    }
    bitvec
}

/// A vector of `len` random bits, each the field's zero or its one. It fails,
/// with `RandomnessFailure`, where `random_bools` does.
pub fn random_bitvec<F: FieldElement>(len: usize) -> (r: Result<Vec<F>, NoiseError>)
    ensures
        r matches Ok(bitvec) ==> bitvec@.len() == len && forall|i: int|
            0 <= i < len ==> (#[trigger] bitvec@[i]).value() <= 1,
        r matches Err(e) ==> e == NoiseError::RandomnessFailure,
        len > usize::MAX / 2 ==> r is Err,
{
    match random_bools(len) {
        Ok(bools) => Ok(bitvec_from_bools(bools.as_slice())),
        Err(_) => Err(NoiseError::RandomnessFailure),
    }
}

/// An additive sharing of `inp` in `SHARES` shares: all but the last are
/// random vectors of the field, and the last is `inp` less the others, so that
/// the shares add up to `inp` place by place. One share takes no randomness
/// and is `inp` itself. It fails, with `RandomnessFailure`, only where the
/// field's source of randomness does.
pub fn split_vec<F: FieldElement, const SHARES: usize>(inp: &[F]) -> (r: Result<
    [Vec<F>; SHARES],
    NoiseError,
>)
    requires
        SHARES >= 1,
    ensures
        r matches Ok(shares) ==> is_sharing(
            share_values(shares@),
            values(inp@),
            F::modulus(),
        ),
        r matches Ok(shares) ==> share_values(shares@).last() == masked(
            values(inp@),
            share_values(shares@).drop_last(),
            F::modulus(),
        ),
        r matches Err(e) ==> e == NoiseError::RandomnessFailure,
        SHARES == 1 ==> (r matches Ok(shares) && values(shares@[0]@) == values(inp@)),
{
    let mut masks: Vec<Vec<F>> = Vec::new();
    let mut i: usize = 1;
    while i < SHARES
        invariant
            1 <= i <= SHARES,
            masks@.len() == i - 1,
            all_of_len(share_values(masks@), inp@.len()),
        decreases SHARES - i,
    {
        match F::random_vector(inp.len()) {
            Ok(mask) => {
                proof {
                    let before = share_values(masks@);
                    let after = share_values(masks@.push(mask));
                    assert forall|h: int| 0 <= h < after.len() implies (#[trigger] after[h]).len()
                        == inp@.len() by {
                        if h < before.len() {
                            assert(after[h] == before[h]);
                        }
                    }
                }
                masks.push(mask);
            },
            Err(_) => {
                return Err(NoiseError::RandomnessFailure);
            },
        }
        i += 1;
    }
    match split_with_masks(inp, masks.as_slice()) {
        Ok(shares) => {
            proof {
                assert(shares@.len() == share_values(shares@).len());
                assert(share_values(shares@).drop_last() =~= share_values(masks@));
                if SHARES == 1 {
                    let only = share_values(shares@)[0];
                    assert forall|j: int| 0 <= j < inp@.len() implies only[j] == values(inp@)[j] by {
                        assert(column(share_values(masks@), j) =~= Seq::<nat>::empty());
                        inp@[j].lemma_value_reduced();
                        lemma_small_mod(inp@[j].value(), F::modulus());
                    }
                    assert(only =~= values(inp@));
                }
            }
            match vec_into_array::<Vec<F>, SHARES>(shares) {
                Ok(array) => Ok(array),
                Err(_) => unreached(),
            }
        },
        Err(_) => unreached(),
    }
}

} // verus!
