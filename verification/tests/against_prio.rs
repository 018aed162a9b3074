use prio::field::{
    Field128 as PrioField128, FieldElement as PrioFieldElement, FieldElementWithInteger,
};
use vdaf_stuff::field128::MODULUS;
use vdaf_stuff::{Field128, FieldElement};

fn numbers() -> Vec<u128> {
    let mut numbers = vec![
        0,
        1,
        2,
        3,
        (1 << 64) - 1,
        1 << 64,
        (1 << 64) + 1,
        1 << 127,
        MODULUS / 2,
        MODULUS / 2 + 1,
        MODULUS - 2,
        MODULUS - 1,
    ];
    let random: Vec<PrioField128> = prio::field::random_vector(20).unwrap();
    numbers.extend(random.into_iter().map(u128::from));
    numbers
}

fn here(x: u128) -> Field128 {
    Field128::from_integer(x)
}

fn there(x: u128) -> PrioField128 {
    PrioField128::from(x)
}

#[test]
fn modulus_agrees_with_prio() {
    assert_eq!(MODULUS, PrioField128::modulus());
}

#[test]
fn integers_agree_with_prio() {
    for a in numbers() {
        assert_eq!(here(a).to_integer(), u128::from(there(a)));
    }
    for a in [MODULUS, MODULUS + 1, u128::MAX] {
        assert_eq!(here(a).to_integer(), u128::from(there(a)));
    }
}

#[test]
fn addition_agrees_with_prio() {
    for a in numbers() {
        for b in numbers() {
            assert_eq!(
                here(a).add(here(b)).to_integer(),
                u128::from(there(a) + there(b))
            );
        }
    }
}

#[test]
fn subtraction_agrees_with_prio() {
    for a in numbers() {
        for b in numbers() {
            assert_eq!(
                here(a).sub(here(b)).to_integer(),
                u128::from(there(a) - there(b))
            );
        }
    }
}

#[test]
fn multiplication_agrees_with_prio() {
    for a in numbers() {
        for b in numbers() {
            assert_eq!(
                here(a).mul(here(b)).to_integer(),
                u128::from(there(a) * there(b))
            );
        }
    }
}

#[test]
fn inverse_agrees_with_prio() {
    for a in numbers() {
        assert_eq!(here(a).inv().to_integer(), u128::from(there(a).inv()));
    }
}

#[test]
fn division_by_two_is_multiplication_by_the_inverse() {
    for a in numbers() {
        assert_eq!(
            here(a).mul(here(2).inv()).to_integer(),
            u128::from(there(a) / there(2))
        );
    }
}
