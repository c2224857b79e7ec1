use std::cmp::Ordering;

use big_number::BigNumber;
use big_number::Digits;
use big_number::MathErrors;
use big_number::Sign;
use big_number::matches_grammar;

fn number(s: &str) -> BigNumber {
    match BigNumber::parse(s) {
        Ok(b) => b,
        Err(_) => panic!("the test input does not match the grammar"),
    }
}

#[test]
fn test_big_number_display() {
    let test_data = [
        (
            BigNumber {
                integer: Vec::new(),
                decimal: Vec::new(),
                sign: Sign::Positive,
            },
            "0",
        ),
        (
            BigNumber {
                integer: Vec::new(),
                decimal: Vec::new(),
                sign: Sign::Negative,
            },
            "-0",
        ),
        (
            BigNumber {
                integer: vec![Digits::Zero],
                decimal: Vec::new(),
                sign: Sign::Positive,
            },
            "0",
        ),
        (
            BigNumber {
                integer: Vec::new(),
                decimal: vec![Digits::Zero, Digits::One],
                sign: Sign::Positive,
            },
            "0.01",
        ),
    ];
    for (bn, expected) in test_data {
        assert_eq!(bn.format(), expected);
    }
}

#[test]
fn test_big_number_cmp() {
    let test_data = [
        (
            (
                BigNumber {
                    integer: vec![Digits::Three, Digits::Zero],
                    decimal: Vec::new(),
                    sign: Sign::Negative,
                },
                BigNumber {
                    integer: vec![Digits::Three],
                    decimal: Vec::new(),
                    sign: Sign::Positive,
                },
            ),
            Ordering::Less,
        ),
        (
            (
                BigNumber {
                    integer: vec![Digits::Three, Digits::Zero],
                    decimal: Vec::new(),
                    sign: Sign::Positive,
                },
                BigNumber {
                    integer: vec![Digits::Three],
                    decimal: Vec::new(),
                    sign: Sign::Negative,
                },
            ),
            Ordering::Greater,
        ),
        (
            (
                BigNumber {
                    integer: vec![Digits::Three, Digits::Zero],
                    decimal: Vec::new(),
                    sign: Sign::Positive,
                },
                BigNumber {
                    integer: vec![Digits::Three],
                    decimal: Vec::new(),
                    sign: Sign::Positive,
                },
            ),
            Ordering::Greater,
        ),
        (
            (
                BigNumber {
                    integer: vec![Digits::Three],
                    decimal: Vec::new(),
                    sign: Sign::Positive,
                },
                BigNumber {
                    integer: vec![Digits::Three, Digits::Zero],
                    decimal: Vec::new(),
                    sign: Sign::Positive,
                },
            ),
            Ordering::Less,
        ),
    ];
    for ((left, right), expected) in test_data {
        assert_eq!(left.compare(&right), expected);
    }
}

#[test]
fn test_big_number_add() {
    let test_data = [
        (
            (
                BigNumber {
                    integer: vec![Digits::Three],
                    decimal: Vec::new(),
                    sign: Sign::Positive,
                },
                BigNumber {
                    integer: vec![Digits::Three],
                    decimal: Vec::new(),
                    sign: Sign::Positive,
                },
            ),
            BigNumber {
                integer: vec![Digits::Six],
                decimal: Vec::new(),
                sign: Sign::Positive,
            },
        ),
        (
            (
                BigNumber {
                    integer: vec![Digits::Seven],
                    decimal: Vec::new(),
                    sign: Sign::Positive,
                },
                BigNumber {
                    integer: vec![Digits::Seven],
                    decimal: vec![Digits::Seven],
                    sign: Sign::Positive,
                },
            ),
            BigNumber {
                integer: vec![Digits::One, Digits::Four],
                decimal: vec![Digits::Seven],
                sign: Sign::Positive,
            },
        ),
        (
            (
                BigNumber {
                    integer: vec![Digits::Seven],
                    decimal: vec![Digits::Nine],
                    sign: Sign::Positive,
                },
                BigNumber {
                    integer: Vec::new(),
                    decimal: vec![Digits::Nine],
                    sign: Sign::Positive,
                },
            ),
            BigNumber {
                integer: vec![Digits::Eight],
                decimal: vec![Digits::Eight],
                sign: Sign::Positive,
            },
        ),
    ];
    for ((left, right), expected) in test_data {
        assert_eq!(left.add(&right), expected);
    }
}

#[test]
fn test_big_number_validation_regex() {
    let test_data = [
        ("0", true),
        ("-0", true),
        ("--0", false),
        ("0.00", true),
        (" 1923.8855 ", false),
        ("147.58374", true),
        ("-.98", false),
        ("0.", false),
    ];
    for (example, expected) in test_data {
        assert_eq!(matches_grammar(example), expected);
    }
}

#[test]
fn test_big_number_from_str() {
    let test_data = [
        (
            number("7.0"),
            BigNumber {
                integer: vec![Digits::Seven],
                decimal: vec![Digits::Zero],
                sign: Sign::Positive,
            },
        ),
        (
            number("-8.004"),
            BigNumber {
                integer: vec![Digits::Eight],
                decimal: vec![Digits::Zero, Digits::Zero, Digits::Four],
                sign: Sign::Negative,
            },
        ),
        (
            number("-11"),
            BigNumber {
                integer: vec![Digits::One, Digits::One],
                decimal: Vec::new(),
                sign: Sign::Negative,
            },
        ),
        (
            number("30"),
            BigNumber {
                integer: vec![Digits::Three, Digits::Zero],
                decimal: Vec::new(),
                sign: Sign::Positive,
            },
        ),
    ];
    for (example, expected) in test_data {
        assert_eq!(example, expected);
    }
}

#[test]
fn test_parse_rejects_bad_inputs_with_parse_error() {
    for bad in ["", "-", ".9", "-.98", "7.", "1.2.3", "1a", "--0", " 1 ", "+1"] {
        assert_eq!(BigNumber::parse(bad), Err(MathErrors::ParseError));
    }
}

// The round trip keeps every digit as written: parsing normalizes nothing
// and formatting invents nothing.
#[test]
fn test_format_parse_round_trip() {
    for s in ["007", "-8.004", "0.00", "147.58374", "-0", "0", "9.000"] {
        assert_eq!(number(s).format(), s);
    }
}

#[test]
fn test_add_seven_and_seven_point_seven() {
    assert_eq!(number("7").add(&number("7.7")), number("14.7"));
}

#[test]
fn test_fraction_needs_leading_zero_digit() {
    assert!(BigNumber::parse(".9").is_err());
    assert_eq!(number("7.9").add(&number("0.9")), number("8.8"));
}

#[test]
fn test_compare_thirty_with_negative_eleven() {
    assert_eq!(number("30").compare(&number("-11")), Ordering::Greater);
}

#[test]
fn test_add_carries_across_the_decimal_point() {
    assert_eq!(number("999.99").add(&number("0.01")), number("1000"));
    assert_eq!(number("0.5").add(&number("0.5")), number("1"));
}

#[test]
fn test_add_with_differing_signs() {
    assert_eq!(number("3").add(&number("-5")), number("-2"));
    assert_eq!(number("-3").add(&number("5")), number("2"));
    assert_eq!(number("3").add(&number("-3")), BigNumber::zero());
    assert_eq!(number("-2.5").add(&number("-2.5")), number("-5"));
}

#[test]
fn test_subtract_values() {
    assert_eq!(number("7.9").subtract(&number("0.9")), number("7"));
    assert_eq!(number("100").subtract(&number("0.001")), number("99.999"));
    assert_eq!(number("3").subtract(&number("5")), number("-2"));
    assert_eq!(number("-3").subtract(&number("-5")), number("2"));
    assert_eq!(number("-3").subtract(&number("5")), number("-8"));
}

// Addition is commutative: both orders give the same normalized result.
#[test]
fn test_add_commutes() {
    let pairs = [("-3.5", "7.25"), ("999", "1"), ("0.004", "-8")];
    for (a, b) in pairs {
        assert_eq!(number(a).add(&number(b)), number(b).add(&number(a)));
    }
}

// Adding zero changes nothing; subtracting a value from itself gives the
// canonical zero.
#[test]
fn test_add_zero_and_subtract_self() {
    for s in ["7", "-8.004", "0", "147.58374"] {
        let x = number(s);
        assert_eq!(x.add(&BigNumber::zero()), x);
        assert_eq!(x.subtract(&x), BigNumber::zero());
    }
}

// The order ranks two values equal exactly when it ranks them neither
// lower nor higher, and it is antisymmetric and transitive across a
// sample of signs and magnitudes.
#[test]
fn test_compare_is_a_total_order() {
    let sample = ["-30", "-11", "-0.5", "0", "0.5", "7.25", "30"];
    for a in sample {
        for b in sample {
            let ab = number(a).compare(&number(b));
            let ba = number(b).compare(&number(a));
            assert_eq!(ab == Ordering::Equal, ab != Ordering::Less && ab != Ordering::Greater);
            assert_eq!(ab == Ordering::Equal, ba == Ordering::Equal);
            assert_eq!(ab == Ordering::Less, ba == Ordering::Greater);
            for c in sample {
                let bc = number(b).compare(&number(c));
                let ac = number(a).compare(&number(c));
                if ab != Ordering::Greater && bc != Ordering::Greater {
                    assert_ne!(ac, Ordering::Greater);
                }
            }
        }
    }
    // Equal values in different written forms rank equal once normalized.
    let mut a = number("7.0");
    a.normalize();
    assert_eq!(a.compare(&number("7")), Ordering::Equal);
    let mut b = number("007");
    b.normalize();
    assert_eq!(b.compare(&number("7")), Ordering::Equal);
}

#[test]
fn test_normalize_strips_spurious_zeros() {
    let mut x = number("007.500");
    x.normalize();
    assert_eq!(x.format(), "7.5");

    let mut zero = number("-0.000");
    zero.normalize();
    assert_eq!(zero, BigNumber::zero());
    assert!(zero.is_positive());
}

#[test]
fn test_negate_flips_the_sign_but_zero_stays_positive() {
    let mut x = number("8.1");
    assert!(x.is_positive());
    x.negate();
    assert!(x.is_negative());
    assert_eq!(x.format(), "-8.1");
    x.negate();
    assert!(x.is_positive());

    let mut zero = BigNumber::zero();
    zero.negate();
    assert!(zero.is_positive());
}

#[test]
fn test_sign_queries() {
    let a = number("-1");
    let b = number("1");
    assert!(a.is_negative() && !a.is_positive());
    assert!(b.is_positive() && !b.is_negative());
    assert!(!a.is_the_same_sign_as(&b));
    assert!(a.is_the_same_sign_as(&a));
    assert!(Sign::Negative.is_negative() && !Sign::Negative.is_positive());
    assert!(Sign::Positive.is_positive());
    assert_eq!(Sign::Positive.flip(), Sign::Negative);
    assert_eq!(Sign::Negative.flip(), Sign::Positive);
}

#[test]
fn test_zero_is_a_single_zero_digit() {
    let z = BigNumber::zero();
    assert_eq!(z.integer, vec![Digits::Zero]);
    assert!(z.decimal.is_empty());
    assert_eq!(z.sign, Sign::Positive);
    assert_eq!(z.format(), "0");
}

#[test]
fn test_from_unsigned_machine_integers() {
    assert_eq!(BigNumber::from_unsigned(0), BigNumber::zero());
    assert_eq!(BigNumber::from_unsigned(9), number("9"));
    assert_eq!(BigNumber::from_unsigned(10), number("10"));
    assert_eq!(BigNumber::from_unsigned(120409), number("120409"));
}

#[test]
fn test_long_carry_and_borrow_chains() {
    assert_eq!(number("9999999999").add(&number("1")).format(), "10000000000");
    assert_eq!(number("10000").subtract(&number("9999.9999")).format(), "0.0001");
    assert_eq!(number("0.0001").add(&number("9999.9999")).format(), "10000");
}
