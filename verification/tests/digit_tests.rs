use big_number::Digits;
use big_number::MathErrors;

#[test]
fn test_digit_addition() {
    let test_data = [
        (Digits::Five, Digits::Five, (Digits::Zero, Digits::One)),
        (Digits::Two, Digits::Four, (Digits::Six, Digits::Zero)),
        (Digits::Two, Digits::Two, (Digits::Four, Digits::Zero)),
        (Digits::Six, Digits::Four, (Digits::Zero, Digits::One)),
        (Digits::Seven, Digits::Six, (Digits::Three, Digits::One)),
        (Digits::Six, Digits::Zero, (Digits::Six, Digits::Zero)),
        (Digits::Two, Digits::Six, (Digits::Eight, Digits::Zero)),
        (Digits::Seven, Digits::Eight, (Digits::Five, Digits::One)),
        (Digits::Zero, Digits::Zero, (Digits::Zero, Digits::Zero)),
        (Digits::Four, Digits::Zero, (Digits::Four, Digits::Zero)),
    ];

    for (left, right, expected) in test_data {
        assert_eq!(left.addition(right), expected);
    }
}

#[test]
fn test_digit_subtraction() {
    let test_data = [
        (Digits::Nine, Digits::Six, (Digits::Three, Digits::Zero)),
        (Digits::Six, Digits::Zero, (Digits::Six, Digits::Zero)),
        (Digits::One, Digits::Seven, (Digits::Four, Digits::One)),
        (Digits::Zero, Digits::Five, (Digits::Five, Digits::One)),
        (Digits::Five, Digits::Four, (Digits::One, Digits::Zero)),
        (Digits::Seven, Digits::Eight, (Digits::Nine, Digits::One)),
        (Digits::Six, Digits::Zero, (Digits::Six, Digits::Zero)),
        (Digits::Zero, Digits::Nine, (Digits::One, Digits::One)),
        (Digits::Zero, Digits::Seven, (Digits::Three, Digits::One)),
        (Digits::Nine, Digits::Two, (Digits::Seven, Digits::Zero)),
    ];
    for (left, right, expected) in test_data {
        assert_eq!(left.subtract(right), expected);
    }
}

#[test]
fn test_digit_multiplication() {
    let test_data = [
        (Digits::Nine, Digits::Two, (Digits::Eight, Digits::One)),
        (Digits::Eight, Digits::Nine, (Digits::Two, Digits::Seven)),
        (Digits::One, Digits::Zero, (Digits::Zero, Digits::Zero)),
        (Digits::Six, Digits::Six, (Digits::Six, Digits::Three)),
        (Digits::Eight, Digits::Two, (Digits::Six, Digits::One)),
        (Digits::Zero, Digits::Nine, (Digits::Zero, Digits::Zero)),
        (Digits::Seven, Digits::Zero, (Digits::Zero, Digits::Zero)),
        (Digits::Two, Digits::Eight, (Digits::Six, Digits::One)),
        (Digits::Three, Digits::Four, (Digits::Two, Digits::One)),
        (Digits::Eight, Digits::Seven, (Digits::Six, Digits::Five)),
    ];
    for (left, right, expected) in test_data {
        assert_eq!(left.multiply(right), expected);
    }
}

#[test]
fn test_digit_division() {
    let test_data = [
        (Digits::Nine, Digits::Five, Ok((Digits::One, Digits::Four))),
        (Digits::Six, Digits::Five, Ok((Digits::One, Digits::One))),
        (
            Digits::Seven,
            Digits::Nine,
            Ok((Digits::Zero, Digits::Seven)),
        ),
        (Digits::Zero, Digits::Six, Ok((Digits::Zero, Digits::Zero))),
        (Digits::Six, Digits::Six, Ok((Digits::One, Digits::Zero))),
        (
            Digits::Four,
            Digits::Eight,
            Ok((Digits::Zero, Digits::Four)),
        ),
        (Digits::Five, Digits::Four, Ok((Digits::One, Digits::One))),
        (Digits::Nine, Digits::Zero, Err(MathErrors::DivisionByZero)),
        (Digits::Eight, Digits::Four, Ok((Digits::Two, Digits::Zero))),
        (Digits::One, Digits::Two, Ok((Digits::Zero, Digits::One))),
    ];
    for (left, right, expected) in test_data {
        assert_eq!(left.divide(right), expected);
    }
}

#[test]
fn test_fused_addition_folds_the_carry() {
    // 7 + 8 + 1 = 16: digit 6, carry 1.
    assert_eq!(
        Digits::Seven.fused_addition(Digits::Eight, Digits::One),
        (Digits::Six, Digits::One)
    );
    // 2 + 3 + 0 = 5: digit 5, no carry.
    assert_eq!(
        Digits::Two.fused_addition(Digits::Three, Digits::Zero),
        (Digits::Five, Digits::Zero)
    );
    // 9 + 9 + 1 = 19: digit 9, carry 1.
    assert_eq!(
        Digits::Nine.fused_addition(Digits::Nine, Digits::One),
        (Digits::Nine, Digits::One)
    );
}

#[test]
fn test_complement_is_nine_minus_digit() {
    assert_eq!(Digits::complement(Digits::Zero), Digits::Nine);
    assert_eq!(Digits::complement(Digits::Three), Digits::Six);
    assert_eq!(Digits::complement(Digits::Nine), Digits::Zero);
}

#[test]
fn test_digit_conversions() {
    assert_eq!(Digits::Seven.to_usize(), 7);
    assert_eq!(Digits::Zero.to_usize(), 0);
    assert_eq!(Digits::Seven.to_char(), '7');
    assert_eq!(Digits::Zero.to_char(), '0');
}
