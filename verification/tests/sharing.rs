use vdaf_stuff::hedge::hedge;
use vdaf_stuff::sharing::{have_len, reconstruct, split_with_masks};
use vdaf_stuff::simulation::{combined_sample, sample_noise};
use vdaf_stuff::testing::{
    bitvec_from_bools, bools_from_bytes, random_bitvec, random_bools, split_vec,
};
use vdaf_stuff::{decode, Field128, FieldElement, NBin, Noise, NoiseError};

const MODULUS: u128 = 340282366920938462946865773367900766209;
const HALF: u128 = 170141183460469231473432886683950383105;

fn elems(ints: &[u128]) -> Vec<Field128> {
    ints.iter().map(|x| Field128::from_integer(*x)).collect()
}

fn ints(elems: &[Field128]) -> Vec<u128> {
    elems.iter().map(|x| x.to_integer()).collect()
}

fn fifty_ones() -> Vec<Field128> {
    let bits: Vec<u128> = (0..100).map(|i| if i % 4 < 2 { 1 } else { 0 }).collect();
    elems(&bits)
}

#[test]
fn split_in_one_share_is_the_value() {
    let value = elems(&[0, 1, 5, MODULUS - 1]);
    let shares = split_vec::<Field128, 1>(&value).unwrap();
    assert_eq!(shares.len(), 1);
    assert_eq!(shares[0], value);
    assert_eq!(reconstruct(&shares).unwrap(), value);
}

#[test]
fn split_in_two_shares_adds_up() {
    let value = elems(&[0, 1, 5, MODULUS - 1, 1 << 100]);
    let shares = split_vec::<Field128, 2>(&value).unwrap();
    assert_eq!(shares.len(), 2);
    for share in shares.iter() {
        assert_eq!(share.len(), value.len());
    }
    assert_eq!(reconstruct(&shares).unwrap(), value);
    for j in 0..value.len() {
        assert_eq!(shares[0][j].add(shares[1][j]), value[j]);
    }
}

#[test]
fn split_in_ten_shares_adds_up() {
    let value = fifty_ones();
    let shares = split_vec::<Field128, 10>(&value).unwrap();
    assert_eq!(shares.len(), 10);
    for share in shares.iter() {
        assert_eq!(share.len(), 100);
    }
    assert_eq!(reconstruct(&shares).unwrap(), value);
}

#[test]
fn split_of_nothing_is_nothing() {
    let shares = split_vec::<Field128, 3>(&[]).unwrap();
    assert_eq!(shares.len(), 3);
    for share in shares.iter() {
        assert!(share.is_empty());
    }
    assert_eq!(reconstruct(&shares).unwrap(), vec![]);
}

#[test]
fn split_shares_are_random() {
    let value = fifty_ones();
    let first = split_vec::<Field128, 2>(&value).unwrap();
    let second = split_vec::<Field128, 2>(&value).unwrap();
    assert_ne!(first[0], second[0]);
    assert_ne!(first[0], value);
    assert_ne!(first[1], value);
}

#[test]
fn masks_come_first_and_the_rest_last() {
    let value = elems(&[10, 0, 7]);
    let masks = vec![elems(&[1, 2, 3]), elems(&[4, 5, MODULUS - 1])];
    let shares = split_with_masks(&value, &masks).unwrap();
    assert_eq!(shares.len(), 3);
    assert_eq!(shares[0], masks[0]);
    assert_eq!(shares[1], masks[1]);
    assert_eq!(ints(&shares[2]), vec![5, MODULUS - 7, 5]);
    assert_eq!(reconstruct(&shares).unwrap(), value);
}

#[test]
fn no_masks_leave_the_value() {
    let value = elems(&[10, 0, 7]);
    let shares = split_with_masks(&value, &[]).unwrap();
    assert_eq!(shares, vec![value]);
}

#[test]
fn mask_of_wrong_length_is_refused() {
    let value = elems(&[10, 0, 7]);
    let masks = vec![elems(&[1, 2, 3]), elems(&[4, 5])];
    assert_eq!(
        split_with_masks(&value, &masks),
        Err(NoiseError::LengthMismatch)
    );
    assert!(!have_len(&masks, 3));
    assert!(have_len(&masks[..1], 3));
    assert!(have_len::<Field128>(&[], 3));
}

#[test]
fn reconstruct_adds_place_by_place() {
    let shares = vec![
        elems(&[1, 2, MODULUS - 1]),
        elems(&[10, 20, 1]),
        elems(&[100, 200, 5]),
    ];
    assert_eq!(ints(&reconstruct(&shares).unwrap()), vec![111, 222, 5]);
    assert_eq!(ints(&reconstruct(&shares[..1]).unwrap()), vec![1, 2, MODULUS - 1]);
}

#[test]
fn reconstruct_does_not_depend_on_the_order() {
    let a = elems(&[1, 2, MODULUS - 1]);
    let b = elems(&[10, 20, 1]);
    let c = elems(&[100, MODULUS - 200, 5]);
    let want = reconstruct(&[a.clone(), b.clone(), c.clone()]).unwrap();
    assert_eq!(ints(&want), vec![111, MODULUS - 178, 5]);
    assert_eq!(reconstruct(&[a.clone(), c.clone(), b.clone()]).unwrap(), want);
    assert_eq!(reconstruct(&[b.clone(), a.clone(), c.clone()]).unwrap(), want);
    assert_eq!(reconstruct(&[b.clone(), c.clone(), a.clone()]).unwrap(), want);
    assert_eq!(reconstruct(&[c.clone(), a.clone(), b.clone()]).unwrap(), want);
    assert_eq!(reconstruct(&[c, b, a]).unwrap(), want);
}

#[test]
fn samples_may_be_summed_in_any_order() {
    let dist = NBin::<Field128>::new(4, 1).unwrap();
    let bits = elems(&[1, 1, 0, 1]);
    let want = dist.sample_from_bitvec(&bits, 1).unwrap();
    assert_eq!(ints(&want), vec![1]);
    let shares = split_vec::<Field128, 3>(&bits).unwrap();
    let samples: Vec<Vec<Field128>> = shares
        .iter()
        .map(|share| dist.sample_from_bitvec(share, 3).unwrap())
        .collect();
    for order in [[0, 1, 2], [0, 2, 1], [1, 0, 2], [1, 2, 0], [2, 0, 1], [2, 1, 0]] {
        let arrived: Vec<Vec<Field128>> = order.iter().map(|i| samples[*i].clone()).collect();
        assert_eq!(reconstruct(&arrived).unwrap(), want);
    }
}

#[test]
fn reconstruct_refuses_shares_of_different_length() {
    let shares = vec![elems(&[1, 2, 3]), elems(&[10, 20])];
    assert_eq!(reconstruct(&shares), Err(NoiseError::LengthMismatch));
}

#[test]
fn sample_does_not_depend_on_the_number_of_shares() {
    let dist = NBin::<Field128>::new(100, 3).unwrap();
    let bitvec = fifty_ones();
    let want = dist.sample_from_bitvec(&bitvec, 1).unwrap();
    assert_eq!(ints(&want), vec![0]);
    let no_hedge = vec![false; 100];

    let two = split_vec::<Field128, 2>(&bitvec).unwrap();
    assert_eq!(combined_sample(&dist, &two, &no_hedge).unwrap(), want);
    let three = split_vec::<Field128, 3>(&bitvec).unwrap();
    assert_eq!(combined_sample(&dist, &three, &no_hedge).unwrap(), want);
    let ten = split_vec::<Field128, 10>(&bitvec).unwrap();
    assert_eq!(combined_sample(&dist, &ten, &no_hedge).unwrap(), want);
}

#[test]
fn sample_of_uneven_count_does_not_depend_on_the_number_of_shares() {
    let dist = NBin::<Field128>::new(5, 1).unwrap();
    let bitvec = elems(&[1, 1, 0, 1, 1]);
    let want = dist.sample_from_bitvec(&bitvec, 1).unwrap();
    assert_eq!(ints(&want), vec![1 + HALF]);
    let no_hedge = vec![false; 5];
    let two = split_vec::<Field128, 2>(&bitvec).unwrap();
    assert_eq!(combined_sample(&dist, &two, &no_hedge).unwrap(), want);
    let seven = split_vec::<Field128, 7>(&bitvec).unwrap();
    assert_eq!(combined_sample(&dist, &seven, &no_hedge).unwrap(), want);
}

#[test]
fn hedge_inverts_the_marked_places() {
    let share = elems(&[0, 1, 5, 9]);
    let invert = [true, false, true, false];
    let hedged = hedge(&share, &invert, 1).unwrap();
    assert_eq!(ints(&hedged), vec![1, 1, MODULUS - 4, 9]);
    let hedged = hedge(&share, &invert, 2).unwrap();
    assert_eq!(ints(&hedged), vec![HALF, 1, HALF - 5, 9]);
}

#[test]
fn hedge_refuses_a_pattern_of_wrong_length() {
    let share = elems(&[0, 1, 5, 9]);
    assert_eq!(
        hedge(&share, &[true, false, true], 2),
        Err(NoiseError::LengthMismatch)
    );
    assert_eq!(
        hedge(&share, &[true, false, true, false, false], 2),
        Err(NoiseError::LengthMismatch)
    );
}

#[test]
fn hedge_flips_the_shared_bits() {
    let bits = elems(&[0, 1, 1, 0, 1, 0]);
    let invert = [true, true, false, false, true, false];
    let shares = split_vec::<Field128, 3>(&bits).unwrap();
    let hedged: Vec<Vec<Field128>> = shares
        .iter()
        .map(|share| hedge(share, &invert, 3).unwrap())
        .collect();
    for share in hedged.iter() {
        assert_eq!(share.len(), bits.len());
    }
    assert_eq!(
        ints(&reconstruct(&hedged).unwrap()),
        vec![1, 0, 1, 0, 0, 0]
    );
}

#[test]
fn hedge_flips_what_is_no_bit_too() {
    let value = elems(&[7, MODULUS - 1]);
    let invert = [true, true];
    let shares = split_vec::<Field128, 4>(&value).unwrap();
    let hedged: Vec<Vec<Field128>> = shares
        .iter()
        .map(|share| hedge(share, &invert, 4).unwrap())
        .collect();
    assert_eq!(ints(&reconstruct(&hedged).unwrap()), vec![MODULUS - 6, 2]);
}

#[test]
fn hedged_sample_is_the_sample_of_the_flipped_bits() {
    let dist = NBin::<Field128>::new(6, 1).unwrap();
    let bits = elems(&[0, 1, 1, 0, 1, 0]);
    let invert = [true, true, false, false, true, false];
    let flipped = elems(&[1, 0, 1, 0, 0, 0]);
    let want = dist.sample_from_bitvec(&flipped, 1).unwrap();
    assert_eq!(ints(&want), vec![MODULUS - 1]);
    let shares = split_vec::<Field128, 3>(&bits).unwrap();
    assert_eq!(combined_sample(&dist, &shares, &invert).unwrap(), want);
    let single = split_vec::<Field128, 1>(&bits).unwrap();
    assert_eq!(combined_sample(&dist, &single, &invert).unwrap(), want);
}

#[test]
fn combined_sample_refuses_wrong_lengths() {
    let dist = NBin::<Field128>::new(3, 1).unwrap();
    let shares = vec![elems(&[1, 2, 3]), elems(&[4, 5, 6])];
    assert_eq!(
        combined_sample(&dist, &shares, &[true, false]),
        Err(NoiseError::LengthMismatch)
    );
    let short = vec![elems(&[1, 2, 3]), elems(&[4, 5])];
    assert_eq!(
        combined_sample(&dist, &short, &[true, false, true]),
        Err(NoiseError::LengthMismatch)
    );
    assert!(combined_sample(&dist, &shares, &[true, false, true]).is_ok());
}

#[test]
fn bools_spell_a_bit_vector() {
    let bitvec = bitvec_from_bools::<Field128>(&[true, false, false, true]);
    assert_eq!(ints(&bitvec), vec![1, 0, 0, 1]);
    assert!(bitvec_from_bools::<Field128>(&[]).is_empty());
}

#[test]
fn bytes_spell_bools_by_their_highest_bit() {
    assert_eq!(
        bools_from_bytes(&[0, 1, 127, 128, 129, 255]),
        vec![false, false, false, true, true, true]
    );
    assert!(bools_from_bytes(&[]).is_empty());
}

#[test]
fn random_bitvec_holds_bits() {
    let bitvec = random_bitvec::<Field128>(200).unwrap();
    assert_eq!(bitvec.len(), 200);
    for bit in bitvec.iter() {
        assert!(bit.to_integer() <= 1);
    }
    assert!(bitvec.iter().any(|bit| bit.to_integer() == 0));
    assert!(bitvec.iter().any(|bit| bit.to_integer() == 1));
    assert!(random_bitvec::<Field128>(0).unwrap().is_empty());
}

#[test]
fn random_bools_have_the_length_asked_for() {
    assert_eq!(random_bools(0).unwrap().len(), 0);
    let bools = random_bools(200).unwrap();
    assert_eq!(bools.len(), 200);
    assert!(bools.iter().any(|b| *b));
    assert!(bools.iter().any(|b| !*b));
}

#[test]
fn more_randomness_than_a_vector_holds_is_a_failure() {
    assert_eq!(random_bools(usize::MAX), Err(NoiseError::RandomnessFailure));
    assert_eq!(
        random_bools(usize::MAX / 2 + 1),
        Err(NoiseError::RandomnessFailure)
    );
    assert_eq!(
        random_bitvec::<Field128>(usize::MAX),
        Err(NoiseError::RandomnessFailure)
    );
    assert_eq!(
        Field128::random_vector(usize::MAX),
        Err(NoiseError::RandomnessFailure)
    );
    assert_eq!(
        Field128::random_vector(usize::MAX / 32 + 1),
        Err(NoiseError::RandomnessFailure)
    );
}

#[test]
fn noise_from_more_bits_than_a_vector_holds_is_refused() {
    let dist = NBin::<Field128>::new(usize::MAX, 1).unwrap();
    assert_eq!(
        sample_noise::<Field128, 2>(&dist),
        Err(NoiseError::RandomnessFailure)
    );
    let dist = NBin::<Field128>::new(usize::MAX / 2 + 1, 1).unwrap();
    assert_eq!(
        sample_noise::<Field128, 1>(&dist),
        Err(NoiseError::RandomnessFailure)
    );
}

#[test]
fn noise_stays_within_the_bit_count() {
    let dist = NBin::<Field128>::new(10, 1).unwrap();
    for _ in 0..50 {
        let noise = decode(sample_noise::<Field128, 2>(&dist).unwrap());
        assert!(-5 <= noise && noise <= 5);
    }
    let dist = NBin::<Field128>::new(11, 1).unwrap();
    for _ in 0..20 {
        let noise = sample_noise::<Field128, 3>(&dist).unwrap();
        let doubled = decode(noise.add(noise));
        assert!(-11 <= doubled && doubled <= 11);
        assert!(doubled % 2 != 0);
    }
}
