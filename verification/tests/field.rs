use vdaf_stuff::field128::{decode, Field128, MODULUS};
use vdaf_stuff::FieldElement;

const HALF: u128 = 170141183460469231473432886683950383105;

fn f(x: u128) -> Field128 {
    Field128::from_integer(x)
}

#[test]
fn modulus_is_one_more_than_a_multiple_of_a_power_of_two() {
    assert_eq!(MODULUS, 340282366920938462946865773367900766209);
    assert_eq!(MODULUS - 1, (1u128 << 66) * 4611686018427387897);
}

#[test]
fn integers_are_reduced() {
    assert_eq!(f(0).to_integer(), 0);
    assert_eq!(f(5).to_integer(), 5);
    assert_eq!(f(MODULUS - 1).to_integer(), MODULUS - 1);
    assert_eq!(f(MODULUS).to_integer(), 0);
    assert_eq!(f(MODULUS + 5).to_integer(), 5);
    assert_eq!(f(u128::MAX).to_integer(), u128::MAX - MODULUS);
    assert_eq!(f(MODULUS + 5), f(5));
}

#[test]
fn from_usize_is_the_number_itself() {
    assert_eq!(Field128::from_usize(0), f(0));
    assert_eq!(Field128::from_usize(12), f(12));
    assert_eq!(
        Field128::from_usize(usize::MAX).to_integer(),
        usize::MAX as u128
    );
    assert!(Field128::holds(0));
    assert!(Field128::holds(usize::MAX));
}

#[test]
fn same_residue_is_the_same_element() {
    assert!(f(5).same_as(f(5)));
    assert!(f(5).same_as(f(MODULUS + 5)));
    assert!(f(0).same_as(f(MODULUS)));
    assert!(!f(5).same_as(f(6)));
    assert!(!f(0).same_as(f(MODULUS - 1)));
    assert_eq!(f(5).same_as(f(MODULUS + 5)), f(5) == f(MODULUS + 5));
    assert_eq!(f(5).same_as(f(6)), f(5) == f(6));
}

#[test]
fn zero_is_told_apart() {
    assert!(f(0).is_zero());
    assert!(f(MODULUS).is_zero());
    assert!(!f(1).is_zero());
    assert!(!f(MODULUS - 1).is_zero());
}

#[test]
fn addition_wraps_at_the_modulus() {
    assert_eq!(f(3).add(f(4)).to_integer(), 7);
    assert_eq!(f(MODULUS - 1).add(f(2)).to_integer(), 1);
    assert_eq!(f(MODULUS - 1).add(f(1)).to_integer(), 0);
    assert_eq!(f(MODULUS - 1).add(f(MODULUS - 1)).to_integer(), MODULUS - 2);
    assert_eq!(f(9).add(f(0)).to_integer(), 9);
}

#[test]
fn subtraction_wraps_at_zero() {
    assert_eq!(f(9).sub(f(4)).to_integer(), 5);
    assert_eq!(f(3).sub(f(5)).to_integer(), MODULUS - 2);
    assert_eq!(f(0).sub(f(1)).to_integer(), MODULUS - 1);
    assert_eq!(f(7).sub(f(7)).to_integer(), 0);
    assert_eq!(f(7).sub(f(0)).to_integer(), 7);
}

#[test]
fn multiplication_is_reduced() {
    assert_eq!(f(2).mul(f(3)).to_integer(), 6);
    assert_eq!(f(MODULUS - 1).mul(f(MODULUS - 1)).to_integer(), 1);
    assert_eq!(f(MODULUS - 1).mul(f(2)).to_integer(), MODULUS - 2);
    assert_eq!(f(1 << 100).mul(f(1 << 100)).to_integer(), 3697612956086932202316800);
    assert_eq!(
        f(MODULUS - 3).mul(f(1 << 90)).to_integer(),
        mul_by_hand(MODULUS - 3, 1 << 90)
    );
    assert_eq!(f(12345).mul(f(0)).to_integer(), 0);
    assert_eq!(f(12345).mul(f(1)).to_integer(), 12345);
}

fn mul_by_hand(a: u128, b: u128) -> u128 {
    let mut acc: u128 = 0;
    let mut a = a % MODULUS;
    let mut b = b;
    while b > 0 {
        if b & 1 == 1 {
            acc = add_by_hand(acc, a);
        }
        a = add_by_hand(a, a);
        b >>= 1;
    }
    acc
}

fn add_by_hand(a: u128, b: u128) -> u128 {
    let (sum, over) = a.overflowing_add(b);
    if over {
        sum.wrapping_sub(MODULUS)
    } else if sum >= MODULUS {
        sum - MODULUS
    } else {
        sum
    }
}

#[test]
fn inverse_of_small_numbers() {
    assert_eq!(f(1).inv().to_integer(), 1);
    assert_eq!(f(2).inv().to_integer(), HALF);
    assert_eq!(
        f(3).inv().to_integer(),
        226854911280625641964577182245267177473
    );
    assert_eq!(
        f(5).inv().to_integer(),
        68056473384187692589373154673580153242
    );
    assert_eq!(f(MODULUS - 1).inv().to_integer(), MODULUS - 1);
}

#[test]
fn inverse_times_the_number_is_one() {
    for x in [1u128, 2, 3, 10, 1 << 64, 1 << 127, MODULUS - 2, 987654321987654321] {
        assert_eq!(f(x).mul(f(x).inv()).to_integer(), 1);
        assert_eq!(f(x).inv().inv(), f(x));
    }
}

#[test]
fn inverse_of_zero_is_zero() {
    assert_eq!(f(0).inv().to_integer(), 0);
    assert_eq!(f(MODULUS).inv().to_integer(), 0);
}

#[test]
fn random_vector_has_the_length_asked_for() {
    for len in [0usize, 1, 7, 100] {
        let v = Field128::random_vector(len).unwrap();
        assert_eq!(v.len(), len);
        for x in v.iter() {
            assert!(x.to_integer() < MODULUS);
        }
    }
}

#[test]
fn random_vectors_differ() {
    let a = Field128::random_vector(8).unwrap();
    let b = Field128::random_vector(8).unwrap();
    assert_ne!(a, b);
}

#[test]
fn decode_centers_on_zero() {
    assert_eq!(decode(f(0)), 0);
    assert_eq!(decode(f(1)), 1);
    assert_eq!(decode(f(5)), 5);
    assert_eq!(decode(f(MODULUS - 1)), -1);
    assert_eq!(decode(f(MODULUS - 5)), -5);
    assert_eq!(decode(f(MODULUS / 2 - 1)), (MODULUS / 2 - 1) as i128);
    assert_eq!(decode(f(MODULUS / 2)), -((MODULUS - MODULUS / 2) as i128));
    assert_eq!(
        decode(f(MODULUS / 2)),
        -170141183460469231473432886683950383105
    );
}
