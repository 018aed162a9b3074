//! What the noise mechanism asks of a finite field.

use vstd::prelude::*;
use crate::error::NoiseError;
use crate::modular::{add_mod, inv_mod, mul_mod, sub_mod};
use crate::primality::is_prime;

verus! {

/// An element of the field of residues modulo a prime.
///
/// An element stands for one residue, its `value`. The operations are those of
/// modular arithmetic on the values.
pub trait FieldElement: Sized + Copy {
    /// The modulus of the field.
    spec fn modulus() -> nat;

    /// The residue that the element stands for.
    spec fn value(self) -> nat;

    /// The modulus is a prime number.
    proof fn lemma_modulus_prime()
        ensures
            is_prime(Self::modulus()),
    ;

    /// Values are reduced.
    proof fn lemma_value_reduced(self)
        ensures
            self.value() < Self::modulus(),
    ;

    /// The element that stands for the residue of `x`.
    fn from_usize(x: usize) -> (r: Self)
        ensures
            r.value() == (x as nat) % Self::modulus(),
    ;

    /// Whether the field holds `x` as itself: whether `x` is below the modulus.
    fn holds(x: usize) -> (b: bool)
        ensures
            b == ((x as nat) < Self::modulus()),
    ;

    /// Whether the element is the additive identity.
    fn is_zero(self) -> (b: bool)
        ensures
            b == (self.value() == 0),
    ;

    /// Field addition.
    fn add(self, rhs: Self) -> (r: Self)
        ensures
            r.value() == add_mod(self.value(), rhs.value(), Self::modulus()),
    ;

    /// Field subtraction.
    fn sub(self, rhs: Self) -> (r: Self)
        ensures
            r.value() == sub_mod(self.value(), rhs.value(), Self::modulus()),
    ;

    /// Field multiplication.
    fn mul(self, rhs: Self) -> (r: Self)
        ensures
            r.value() == mul_mod(self.value(), rhs.value(), Self::modulus()),
    ;

    /// The multiplicative inverse: the element whose product with this one is
    /// the field's one. The inverse of zero is taken to be zero.
    fn inv(self) -> (r: Self)
        ensures
            r.value() == inv_mod(self.value(), Self::modulus()),
            self.value() != 0 ==> mul_mod(self.value(), r.value(), Self::modulus()) == 1,
            self.value() == 0 ==> r.value() == 0,
    ;

    /// `len` elements drawn independently and uniformly from the field.
    fn random_vector(len: usize) -> (r: Result<Vec<Self>, NoiseError>)
        ensures
            r matches Ok(v) ==> v@.len() == len,
            r matches Err(e) ==> e == NoiseError::RandomnessFailure,
    ;
}

/// The residues that the elements of `s` stand for.
pub open spec fn values<F: FieldElement>(s: Seq<F>) -> Seq<nat> {
    s.map_values(|e: F| e.value())
}

} // verus!
