use big_number::Digits;
use big_number::DecimalsByAscendingPower;
use big_number::DecimalsByDescendingPower;
use big_number::IntegersByAscendingPower;
use big_number::IntegersByDescendingPower;

#[test]
fn test_decimals_ascending() {
    let test_data: [(Vec<Digits>, Vec<Digits>, Vec<Option<(Digits, Digits)>>); 4] = [
        (Vec::new(), Vec::new(), vec![None]),
        (
            vec![Digits::Three, Digits::Six],
            vec![Digits::Seven, Digits::One],
            vec![
                Some((Digits::Six, Digits::One)),
                Some((Digits::Three, Digits::Seven)),
                None,
            ],
        ),
        (
            vec![Digits::Three],
            vec![Digits::Seven, Digits::One],
            vec![
                Some((Digits::Zero, Digits::One)),
                Some((Digits::Three, Digits::Seven)),
                None,
            ],
        ),
        (
            vec![Digits::Three, Digits::Six],
            vec![Digits::Seven],
            vec![
                Some((Digits::Six, Digits::Zero)),
                Some((Digits::Three, Digits::Seven)),
                None,
            ],
        ),
    ];
    for (first, second, results) in test_data {
        let mut counter: usize = 0;
        let mut da: DecimalsByAscendingPower = DecimalsByAscendingPower::new(&first, &second);
        while counter < results.len() {
            assert_eq!(da.next(), results[counter]);
            counter += 1;
        }
    }
}

#[test]
fn test_integer_ascending() {
    let test_data: [(Vec<Digits>, Vec<Digits>, Vec<Option<(Digits, Digits)>>); 4] = [
        (
            vec![Digits::Three, Digits::Six],
            vec![Digits::Seven, Digits::One],
            vec![
                Some((Digits::Six, Digits::One)),
                Some((Digits::Three, Digits::Seven)),
                None,
            ],
        ),
        (
            vec![Digits::Three],
            vec![Digits::Seven, Digits::One],
            vec![
                Some((Digits::Three, Digits::One)),
                Some((Digits::Zero, Digits::Seven)),
                None,
            ],
        ),
        (
            vec![Digits::Seven, Digits::One],
            vec![Digits::Three],
            vec![
                Some((Digits::One, Digits::Three)),
                Some((Digits::Seven, Digits::Zero)),
                None,
            ],
        ),
        (Vec::new(), Vec::new(), vec![None]),
    ];
    for (first, second, results) in test_data {
        let mut counter: usize = 0;
        let mut da: IntegersByAscendingPower = IntegersByAscendingPower::new(&first, &second);
        while counter < results.len() {
            assert_eq!(da.next(), results[counter]);
            counter += 1;
        }
    }
}

#[test]
fn test_integer_descending() {
    // The shorter run is padded with zeros at its front.
    let first = vec![Digits::Seven, Digits::One];
    let second = vec![Digits::Three];
    let mut it = IntegersByDescendingPower::new(&first, &second);
    assert_eq!(it.next(), Some((Digits::Seven, Digits::Zero)));
    assert_eq!(it.next(), Some((Digits::One, Digits::Three)));
    assert_eq!(it.next(), None);
}

#[test]
fn test_decimals_descending() {
    // The shorter run is padded with zeros at its tail.
    let first = vec![Digits::Three];
    let second = vec![Digits::Seven, Digits::One];
    let mut it = DecimalsByDescendingPower::new(&first, &second);
    assert_eq!(it.next(), Some((Digits::Three, Digits::Seven)));
    assert_eq!(it.next(), Some((Digits::Zero, Digits::One)));
    assert_eq!(it.next(), None);
}

// Over the same two runs, the ascending and descending walks produce the
// same pairs in reverse order, and both produce exactly as many pairs as
// the longer run holds digits.
#[test]
fn test_ascending_reverses_descending() {
    let first = vec![Digits::One, Digits::Two, Digits::Three];
    let second = vec![Digits::Nine];

    let mut asc = IntegersByAscendingPower::new(&first, &second);
    let mut desc = IntegersByDescendingPower::new(&first, &second);
    let mut asc_pairs: Vec<(Digits, Digits)> = Vec::new();
    let mut desc_pairs: Vec<(Digits, Digits)> = Vec::new();
    while let Some(p) = asc.next() {
        asc_pairs.push(p);
    }
    while let Some(p) = desc.next() {
        desc_pairs.push(p);
    }
    assert_eq!(asc_pairs.len(), 3);
    assert_eq!(desc_pairs.len(), 3);
    desc_pairs.reverse();
    assert_eq!(asc_pairs, desc_pairs);

    let mut asc = DecimalsByAscendingPower::new(&first, &second);
    let mut desc = DecimalsByDescendingPower::new(&first, &second);
    let mut asc_pairs: Vec<(Digits, Digits)> = Vec::new();
    let mut desc_pairs: Vec<(Digits, Digits)> = Vec::new();
    while let Some(p) = asc.next() {
        asc_pairs.push(p);
    }
    while let Some(p) = desc.next() {
        desc_pairs.push(p);
    }
    assert_eq!(asc_pairs.len(), 3);
    assert_eq!(desc_pairs.len(), 3);
    desc_pairs.reverse();
    assert_eq!(asc_pairs, desc_pairs);
}
