//! Tests for exact fraction arithmetic.

use camel_up::fraction::Fraction;

#[test]
fn fractions_should_add_other_fraction() {
    let s = Fraction::new(1, 2);
    let t = Fraction::new(1, 3);

    let answer = s.add(t);

    assert_eq!(answer, Fraction::new(5, 6));
}

#[test]
fn fractions_should_add_other_number() {
    let s = Fraction::new(1, 2);
    let t = Fraction::from_int(1);

    let answer = s.add(t);

    assert_eq!(answer, Fraction::new(3, 2));
}

#[test]
fn fractions_should_subtract_other_fraction() {
    let s = Fraction::new(1, 2);
    let t = Fraction::new(1, 3);

    let answer = s.sub(t);

    assert_eq!(answer, Fraction::new(1, 6));
}

#[test]
fn fractions_should_multiply_other_fractions() {
    let s = Fraction::new(1, 2);
    let t = Fraction::new(1, 3);

    let answer = s.mul(t);

    assert_eq!(answer, Fraction::new(1, 6));
}

#[test]
fn fractions_should_divide_other_fractions() {
    let s = Fraction::new(1, 2);
    let t = Fraction::new(1, 3);

    let answer = s.div(t);

    assert_eq!(answer, Some(Fraction::new(3, 2)));
}

#[test]
fn fractions_are_in_lowest_terms() {
    let answer = Fraction::new(4, 6);

    assert_eq!(answer, Fraction::new(2, 3));
}

#[test]
fn fractions_are_normalized() {
    let answer = Fraction::new(0, 6);

    assert_eq!(answer, Fraction::zero());
}

#[test]
fn fractions_can_be_displayed() {
    let s = Fraction::new(2, 4);
    let output = s.to_text();

    assert_eq!(output, "1/2".to_owned());
}

#[test]
fn fractions_can_be_ordered() {
    let mut fractions = Vec::new();
    fractions.push(Fraction::new(2, 3));
    fractions.push(Fraction::new(1, 3));
    fractions.push(Fraction::new(1, 2));
    fractions.sort_by(|left, right| left.partial_cmp(right).expect("an order"));

    assert_eq!(
        fractions,
        vec![
            Fraction::new(1, 3),
            Fraction::new(1, 2),
            Fraction::new(2, 3)
        ]
    )
}

#[test]
fn division_by_zero_has_no_result() {
    let s = Fraction::new(1, 2);
    let t = Fraction::new(0, 5);

    assert_eq!(s.div(t), None);
}

#[test]
fn negation_flips_the_sign() {
    let s = Fraction::new(3, 4);

    assert_eq!(s.neg(), Fraction::new(-3, 4));
    assert_eq!(s.neg().neg(), s);
}

#[test]
fn negative_fractions_carry_their_sign_in_the_numerator() {
    let s = Fraction::new(2, 3);
    let t = Fraction::new(5, 6);

    let answer = s.sub(t);

    assert_eq!(answer, Fraction::new(-1, 6));
    assert_eq!(answer.to_text(), "-1/6".to_owned());
}

#[test]
fn whole_numbers_are_written_without_a_denominator() {
    assert_eq!(Fraction::new(4, 2).to_text(), "2".to_owned());
    assert_eq!(Fraction::zero().to_text(), "0".to_owned());
    assert_eq!(Fraction::from_int(-12).to_text(), "-12".to_owned());
}

#[test]
fn one_is_the_unit_of_multiplication() {
    let s = Fraction::new(7, 5);

    assert_eq!(s.mul(Fraction::one()), s);
}

#[test]
fn comparing_fractions_crosses_multiplies() {
    let half = Fraction::new(1, 2);
    let third = Fraction::new(1, 3);
    let also_half = Fraction::new(2, 4);

    assert!(third < half);
    assert!(half > third);
    assert_eq!(half.partial_cmp(&also_half), Some(std::cmp::Ordering::Equal));
}
