use goodstein::{is_power_of, Base, BaseError, Multiplier, Power};

fn terms(list: &[(u32, u32)]) -> Vec<(Multiplier, Power)> {
    list.iter().map(|&(m, p)| (Multiplier(m), Power(p))).collect()
}

/// Positional digits of `value` in `base`, by repeated division.
fn radix_string(mut value: u32, base: u32) -> String {
    let symbols: Vec<char> = "0123456789abcdefghijklmnopqrstuvwxyz".chars().collect();
    let mut digits = Vec::new();
    loop {
        digits.push(symbols[(value % base) as usize]);
        value /= base;
        if value == 0 {
            break;
        }
    }
    digits.iter().rev().collect()
}

#[test]
fn check_display_impl() {
    for base in 2..=36u32 {
        for i in 1..10_000u32 {
            let b = Base::from(i, base).unwrap();
            assert_eq!(radix_string(i, base), b.to_display_string());
        }
    }
}

#[test]
fn check_octal() {
    let eighteen = Base::from(18, 8).unwrap();
    assert_eq!(
        Base {
            number: 18,
            base: 8,
            exponents: terms(&[(2, 1), (2, 0)]),
            reduced: true
        },
        eighteen
    );
    let _69 = Base::from(69, 8).unwrap();
    assert_eq!(
        Base {
            number: 69,
            base: 8,
            exponents: terms(&[(1, 2), (0, 1), (5, 0)]),
            reduced: true
        },
        _69
    );
    let _10 = Base::from(10, 8).unwrap();
    assert_eq!(
        Base {
            number: 10,
            base: 8,
            exponents: terms(&[(1, 1), (2, 0)]),
            reduced: true
        },
        _10
    );
    let _8 = Base::from(8, 8).unwrap();
    assert_eq!(
        Base {
            number: 8,
            base: 8,
            exponents: terms(&[(1, 1), (0, 0)]),
            reduced: true
        },
        _8
    );
    let _64 = Base::from(64, 8).unwrap();
    assert_eq!(
        Base {
            number: 64,
            base: 8,
            exponents: terms(&[(1, 2), (0, 1), (0, 0)]),
            reduced: true
        },
        _64
    )
}

#[test]
fn check_base3() {
    let three = Base::from(11, 3).unwrap();
    assert_eq!(
        Base {
            number: 11,
            base: 3,
            exponents: terms(&[(1, 2), (0, 1), (2, 0)]),
            reduced: true
        },
        three
    );
    let three_into = Into::<u32>::into(three);
    assert_eq!(three_into, 11);
}

#[test]
fn check_base2() {
    let eleven_two = Base::from(11, 2).unwrap();
    assert_eq!(
        Base {
            number: 11,
            base: 2,
            exponents: terms(&[(1, 3), (0, 2), (1, 1), (1, 0)]),
            reduced: false
        },
        eleven_two
    );
    let eleven_into = Into::<u32>::into(eleven_two);
    assert_eq!(eleven_into, 11);
}

#[test]
fn check_compute() {
    let eleven_two = Base::from(11, 2).unwrap();
    let eleven_three = Base::from(11, 3).unwrap();
    let eleven_four = Base::from(11, 4).unwrap();
    assert_eq!(eleven_two.compute(), eleven_three.compute());
    assert_eq!(eleven_two.compute(), eleven_four.compute());
    assert_eq!(eleven_two.compute(), Ok(eleven_four.number));
}

#[test]
fn is_power_of_test() {
    let res = is_power_of(3, 2);
    assert_eq!(res, Some((false, 1)));
    let res = is_power_of(11, 3);
    assert_eq!(res, Some((false, 2)));
    let res = is_power_of(2, 3);
    assert_eq!(res, None);
}

#[test]
fn check_reduced() {
    let _100 = Base::from(100_u32, 2).unwrap();
    assert!(!_100.reduced);
    let _4 = Base::from(4, 2).unwrap();
    assert!(!_4.reduced);
    let _3 = Base::from(3, 2).unwrap();
    assert!(_3.reduced);
}

#[test]
fn is_power_of_exact_powers() {
    assert_eq!(is_power_of(8, 2), Some((true, 3)));
    assert_eq!(is_power_of(64, 8), Some((true, 2)));
    assert_eq!(is_power_of(36, 36), Some((true, 1)));
    assert_eq!(is_power_of(0, 2), None);
    assert_eq!(is_power_of(u32::MAX, 2), Some((false, 31)));
    assert_eq!(is_power_of(1 << 31, 2), Some((true, 31)));
}

#[test]
fn hundred_in_base_two_has_the_documented_nonzero_terms() {
    let b = Base::from(100, 2).unwrap();
    let nonzero: Vec<(u32, u32)> = b
        .exponents
        .iter()
        .filter(|(m, _)| m.0 != 0)
        .map(|(m, p)| (m.0, p.0))
        .collect();
    assert_eq!(nonzero, vec![(1, 6), (1, 5), (1, 2)]);
    assert_eq!(b.exponents.len(), 7);
    assert!(!b.reduced);
    assert_eq!(b.compute(), Ok(100));
}

#[test]
fn zero_is_a_single_zero_term() {
    let z = Base::from(0, 7).unwrap();
    assert_eq!(z.exponents, terms(&[(0, 0)]));
    assert!(z.reduced);
    assert_eq!(z.compute(), Ok(0));
    assert_eq!(z.to_display_string(), "0");
}

#[test]
fn base_out_of_range_is_refused() {
    assert_eq!(Base::from(5, 0), Err(BaseError::BaseOutOfRange));
    assert_eq!(Base::from(5, 1), Err(BaseError::BaseOutOfRange));
    assert_eq!(Base::from(5, 37), Err(BaseError::BaseOutOfRange));
    assert!(Base::from(5, 2).is_ok());
    assert!(Base::from(5, 36).is_ok());
}

#[test]
fn round_trip_over_many_values() {
    for base in 2..=36u32 {
        for v in (0..5_000u32).chain([u32::MAX - 1, u32::MAX, 1 << 31]) {
            let b = Base::from(v, base).unwrap();
            assert_eq!(b.compute(), Ok(v));
            assert_eq!(b.number, v);
        }
    }
}

#[test]
fn compute_reports_a_mismatch() {
    let wrong = Base {
        number: 10,
        base: 3,
        exponents: terms(&[(1, 2), (0, 1), (2, 0)]),
        reduced: true,
    };
    assert_eq!(wrong.compute(), Err(BaseError::RoundTripMismatch));
    let huge = Base {
        number: 10,
        base: 2,
        exponents: terms(&[(1, 40)]),
        reduced: false,
    };
    assert_eq!(huge.compute(), Err(BaseError::RoundTripMismatch));
}

#[test]
fn base_bump_rewrites_only_the_old_base() {
    let four = Base::from(4, 2).unwrap();
    assert_eq!(four.exponents, terms(&[(1, 2), (0, 1), (0, 0)]));
    let bumped = Base::base_bump(four);
    assert_eq!(bumped.base, 3);
    assert_eq!(bumped.number, 4);
    assert_eq!(bumped.exponents, terms(&[(1, 3), (0, 1), (0, 0)]));
    assert!(!bumped.reduced);
    assert_eq!(bumped.compute(), Err(BaseError::RoundTripMismatch));
}

#[test]
fn base_bump_keeps_a_reduced_number() {
    let b = Base::from(69, 8).unwrap();
    let before = b.exponents.clone();
    let bumped = Base::base_bump(b);
    assert_eq!(bumped.exponents, before);
    assert!(bumped.reduced);
    assert_eq!(bumped.base, 9);
}

#[test]
fn display_fills_missing_slots_with_zero() {
    let b = Base {
        number: 0,
        base: 3,
        exponents: terms(&[(1, 3), (2, 1)]),
        reduced: false,
    };
    assert_eq!(b.to_display_string(), "1020");
    assert_eq!(Base::from(69, 8).unwrap().to_display_string(), "105");
    assert_eq!(Base::from(35, 36).unwrap().to_display_string(), "z");
    assert_eq!(Base::from(255, 16).unwrap().to_display_string(), "ff");
}

#[test]
fn is_reduced_reports_the_flag() {
    assert!(Base::from(18, 8).unwrap().is_reduced());
    assert!(!Base::from(100, 2).unwrap().is_reduced());
    assert!(Base::from(8, 8).unwrap().is_reduced());
}
