//! The field of residues modulo a 128-bit prime, with the arithmetic of
//! `prio::field::Field128`.

use vstd::prelude::*;
use vstd::arithmetic::div_mod::lemma_small_mod;
use crate::error::NoiseError;
use crate::field::FieldElement;
use crate::modular::{lemma_inverse_is_inv_mod, lemma_inv_mod_of_zero};
use crate::prime128::lemma_modulus_is_prime;

verus! {

/// The modulus of the field, `2^66 * 4611686018427387897 + 1`.
pub const MODULUS: u128 = 340282366920938462946865773367900766209;

/// An element of the field of residues modulo [`MODULUS`], held as its reduced
/// residue.
#[derive(Clone, Copy, Debug, PartialEq, Eq, Structural)]
pub struct Field128 {
    residue: u128,
}

/// Addition in `prio::field::Field128`, between the conversions from and to
/// `u128`: on reduced residues it gives the reduced residue of the sum.
#[verifier::external_body]
fn residue_add(a: u128, b: u128) -> (r: u128)
    requires
        a < MODULUS,
        b < MODULUS,
    ensures
        r == (a + b) % (MODULUS as int),
{
    u128::from(prio::field::Field128::from(a) + prio::field::Field128::from(b))
}

/// Subtraction in `prio::field::Field128`, between the conversions from and to
/// `u128`: on reduced residues it gives the reduced residue of the difference.
#[verifier::external_body]
fn residue_sub(a: u128, b: u128) -> (r: u128)
    requires
        a < MODULUS,
        b < MODULUS,
    ensures
        r == (a - b) % (MODULUS as int),
{
    u128::from(prio::field::Field128::from(a) - prio::field::Field128::from(b))
}

/// Multiplication in `prio::field::Field128`, between the conversions from and
/// to `u128`: on reduced residues it gives the reduced residue of the product.
#[verifier::external_body]
fn residue_mul(a: u128, b: u128) -> (r: u128)
    requires
        a < MODULUS,
        b < MODULUS,
    ensures
        r == (a * b) % (MODULUS as int),
{
    u128::from(prio::field::Field128::from(a) * prio::field::Field128::from(b))
}

/// `prio::field::FieldElement::inv` on `prio::field::Field128`, between the
/// conversions from and to `u128`: for a reduced residue other than zero it
/// gives a reduced residue whose product with the argument has residue one.
#[verifier::external_body]
fn residue_inv(a: u128) -> (r: u128)
    requires
        0 < a < MODULUS,
    ensures
        r < MODULUS,
        (a * r) % (MODULUS as int) == 1,
{
    u128::from(prio::field::FieldElement::inv(&prio::field::Field128::from(a)))
}

/// `prio::field::random_vector` for `prio::field::Field128`, each element
/// converted to `u128`: where it succeeds it gives as many reduced residues as
/// were asked for. It collects `len` elements of 16 bytes into one vector,
/// which must not take more bytes than `isize::MAX`. Its error has no public
/// path, so a failure comes back as `None`.
#[verifier::external_body]
fn random_residues(len: usize) -> (r: Option<Vec<u128>>)
    requires
        len <= usize::MAX / 32,
    ensures
        r matches Some(v) ==> v@.len() == len && forall|i: int|
            0 <= i < v@.len() ==> v@[i] < MODULUS,
{
    match prio::field::random_vector::<prio::field::Field128>(len) {
        Ok(v) => Some(v.into_iter().map(u128::from).collect()),
        Err(_) => None,
    }
}

impl Field128 {
    /// The integer that an element holds is below the modulus.
    #[verifier::type_invariant]
    spec fn reduced(self) -> bool {
        self.residue < MODULUS
    }

    /// The element that stands for the residue of `x`.
    pub fn from_integer(x: u128) -> (r: Self)
        ensures
            r.value() == (x as nat) % (MODULUS as nat),
    {
        let residue: u128 = x % MODULUS;
        proof {
            lemma_small_mod(residue as nat, MODULUS as nat);
        }
        Field128 { residue }
    }

    /// Whether two elements stand for the same residue. They are then the
    /// same element: every residue is held in one way only.
    pub fn same_as(self, other: Self) -> (same: bool)
        ensures
            same == (self.value() == other.value()),
            same == (self == other),
    {
        proof {
            use_type_invariant(&self);
            use_type_invariant(&other);
            lemma_small_mod(self.residue as nat, MODULUS as nat);
            lemma_small_mod(other.residue as nat, MODULUS as nat);
        }
        self.residue == other.residue
    }

    /// The residue that the element stands for.
    pub fn to_integer(self) -> (x: u128)
        ensures
            x == self.value(),
    {
        proof {
            use_type_invariant(&self);
            lemma_small_mod(self.residue as nat, MODULUS as nat);
        }
        self.residue
    }
}

/// The modulus divides no number of shares that a `usize` holds, but zero:
/// what is proved of sharings among a number of holders that the modulus does
/// not divide holds in this field for every number of holders.
pub proof fn lemma_modulus_divides_no_share_count(num_shares: usize)
    requires
        num_shares >= 1,
    ensures
        (num_shares as nat) % (MODULUS as nat) != 0,
{
    lemma_small_mod(num_shares as nat, MODULUS as nat);
}

/// The signed number that the residue `v` stands for: `v` itself in the lower
/// half of the residues, `v` less the modulus in the upper half.
pub open spec fn decoded(v: nat) -> int {
    if v < MODULUS / 2 {
        v as int
    } else {
        v - MODULUS
    }
}

/// The signed number that `elem` stands for, between minus half the modulus
/// and half the modulus.
pub fn decode(elem: Field128) -> (r: i128)
    ensures
        r == decoded(elem.value()),
{
    let uint = elem.to_integer();
    proof {
        elem.lemma_value_reduced();
    }
    if uint < MODULUS / 2 {
        uint as i128
    } else {
        -((MODULUS - uint) as i128)
    }
}

impl FieldElement for Field128 {
    open spec fn modulus() -> nat {
        MODULUS as nat
    }

    /// The residue of the integer that the element holds.
    closed spec fn value(self) -> nat {
        (self.residue % MODULUS) as nat
    }

    proof fn lemma_modulus_prime() {
        lemma_modulus_is_prime();
    }

    proof fn lemma_value_reduced(self) {
    }

    fn from_usize(x: usize) -> (r: Self) {
        proof {
            lemma_small_mod(x as nat, MODULUS as nat);
        }
        Field128 { residue: x as u128 }
    }

    /// The modulus is above every `usize`.
    fn holds(x: usize) -> (b: bool) {
        true
    }

    fn is_zero(self) -> (b: bool) {
        proof {
            use_type_invariant(&self);
        }
        self.residue == 0
    }

    fn add(self, rhs: Self) -> (r: Self) {
        proof {
            use_type_invariant(&self);
            use_type_invariant(&rhs);
        }
        let residue = residue_add(self.residue, rhs.residue);
        Field128 { residue }
    }

    fn sub(self, rhs: Self) -> (r: Self) {
        proof {
            use_type_invariant(&self);
            use_type_invariant(&rhs);
        }
        let residue = residue_sub(self.residue, rhs.residue);
        Field128 { residue }
    }

    fn mul(self, rhs: Self) -> (r: Self) {
        proof {
            use_type_invariant(&self);
            use_type_invariant(&rhs);
        }
        let residue = residue_mul(self.residue, rhs.residue);
        Field128 { residue }
    }

    /// The inverse of zero is not asked of `prio`, which leaves it open.
    fn inv(self) -> (r: Self) {
        proof {
            use_type_invariant(&self);
        }
        if self.residue == 0 {
            proof {
                lemma_inv_mod_of_zero(0, MODULUS as nat);
            }
            self
        } else {
            let residue = residue_inv(self.residue);
            proof {
                lemma_inverse_is_inv_mod(self.residue as nat, residue as nat, MODULUS as nat);
            }
            Field128 { residue }
        }
    }

    /// More than `usize::MAX / 32` elements, of 16 bytes each, are more than
    /// one vector holds: they are refused as a failure of the source, before
    /// anything is drawn.
    fn random_vector(len: usize) -> (r: Result<Vec<Self>, NoiseError>)
        ensures
            len > usize::MAX / 32 ==> r is Err,
    {
        if len > usize::MAX / 32 {
            return Err(NoiseError::RandomnessFailure);
        }
        match random_residues(len) {
            None => Err(NoiseError::RandomnessFailure),
            Some(residues) => {
                let mut out: Vec<Field128> = Vec::new();
                let mut i: usize = 0;
                while i < residues.len()
                    invariant
                        i <= residues@.len(),
                        out@.len() == i,
                        forall|j: int| 0 <= j < residues@.len() ==> residues@[j] < MODULUS,
                    decreases residues@.len() - i,
                {
                    out.push(Field128 { residue: residues[i] });
                    i += 1;
                }
                Ok(out)
            },
        }
    }
}

} // verus!
