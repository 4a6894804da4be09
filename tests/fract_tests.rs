use fract::fraction::{get_norm, Fract};
use fract::number::{get_num, FType, MyNum};
use fract::parse::{get_aligned, get_fract, split_fraction};

fn code_of(input: &str) -> u8 {
    match get_fract(&input.to_string()) {
        Ok(f) => panic!("expected an error for {:?}, got {:?}", input, f),
        Err((ecd, _)) => ecd,
    }
}

fn fract_of(input: &str) -> Fract {
    match get_fract(&input.to_string()) {
        Ok(f) => f,
        Err((ecd, msg)) => panic!("error {} for {:?}: {}", ecd, input, msg),
    }
}

#[test]
fn test_0010() {
    let result = get_norm(&Fract { numer: 486, denom: 12 });
    assert_eq!(result, Ok(Fract { numer: 81, denom: 2 }));
}

#[test]
fn test_0020() {
    let result = get_norm(&Fract { numer: 96, denom: 4 });
    assert_eq!(result, Ok(Fract { numer: 24, denom: 1 }));
}

#[test]
fn test_0030() {
    let result = get_norm(&Fract { numer: 0, denom: 3 });
    assert_eq!(result, Ok(Fract { numer: 0, denom: 1 }));
}

#[test]
fn test_0040() {
    let result = get_fract(&"3/10000000000000000000".to_string());

    if let Ok(_) = result {
    } else {
        assert!(false);
    }
}

#[test]
fn test_0050() {
    let result = get_fract(&"35,6/12".to_string());
    assert_eq!(result, Ok(Fract { numer: 89, denom: 30 }));
}

#[test]
fn test_0060() {
    let result = get_fract(&"0,000000000000001/1000000000000000000".to_string());

    if let Err((ecd, _)) = result {
        assert_eq!(ecd, 18); // Denominator overflow
    } else {
        assert!(false);
    }
}

#[test]
fn test_0070() {
    let result = get_fract(&"1000000000000000000/0,000000000000001".to_string());

    if let Err((ecd, _)) = result {
        assert_eq!(ecd, 20); // Numerator overflow
    } else {
        assert!(false);
    }
}

#[test]
fn test_0080() {
    let result = get_fract(&"smdjfklsjkdf".to_string());

    if let Err((ecd, _)) = result {
        assert_eq!(ecd, 22); // Can't parse
    } else {
        assert!(false);
    }
}

#[test]
fn test_0090() {
    let result = get_fract(&"100000000000000000000/3".to_string());

    if let Err((ecd, _)) = result {
        assert_eq!(ecd, 24); // Integer overflow Numerator
    } else {
        assert!(false);
    }
}

#[test]
fn test_0100() {
    let result = get_fract(&"3/100000000000000000000".to_string());

    if let Err((ecd, _)) = result {
        assert_eq!(ecd, 24); // Integer overflow Denominator
    } else {
        assert!(false);
    }
}

#[test]
fn test_0110() {
    let result = get_norm(&Fract { numer: 0, denom: 0 });

    if let Err((ecd, _)) = result {
        assert_eq!(ecd, 26); // Division by zero
    } else {
        assert!(false);
    }
}

#[test]
fn reducing_a_reduced_fraction_changes_nothing() {
    for (n, d) in [(81u64, 2u64), (0, 1), (1, 1), (89, 30), (u64::MAX, 1), (7, u64::MAX)] {
        let f = Fract { numer: n, denom: d };
        assert_eq!(get_norm(&f), Ok(f));
    }
    let once = get_norm(&Fract { numer: 486, denom: 12 }).unwrap();
    assert_eq!(get_norm(&once), Ok(once));
}

#[test]
fn results_are_in_lowest_terms() {
    for input in ["486/12", "96/4", "35,6/12", "1,5/2,5", "1000/10", "12.25"] {
        let f = fract_of(input);
        assert!(f.denom >= 1);
        let (mut a, mut b) = (f.numer, f.denom);
        while b > 0 {
            let t = b;
            b = a % b;
            a = t;
        }
        assert_eq!(a, 1, "{} gave {:?}", input, f);
    }
}

#[test]
fn coprime_pair_round_trips() {
    for (n, d) in [(89u64, 30u64), (1, 1), (0, 1), (3, 10000000000000000000), (u64::MAX, 2)] {
        assert_eq!(fract_of(&format!("{}/{}", n, d)), Fract { numer: n, denom: d });
    }
}

#[test]
fn zero_over_five_is_zero_over_one() {
    assert_eq!(fract_of("0/5"), Fract { numer: 0, denom: 1 });
}

#[test]
fn whole_number_is_over_one() {
    assert_eq!(fract_of("7"), Fract { numer: 7, denom: 1 });
}

#[test]
fn decimal_point_and_comma_agree() {
    assert_eq!(fract_of("35.6/12"), Fract { numer: 89, denom: 30 });
    assert_eq!(fract_of("0.5"), Fract { numer: 1, denom: 2 });
    assert_eq!(fract_of("1,5/2,5"), Fract { numer: 3, denom: 5 });
    assert_eq!(fract_of("1/0,25"), Fract { numer: 4, denom: 1 });
}

#[test]
fn literal_zero_denominator_is_refused() {
    assert_eq!(code_of("5/0"), 26);
    assert_eq!(code_of("0/0"), 26);
    assert_eq!(code_of("5/0,0"), 26);
}

#[test]
fn malformed_shapes_are_refused() {
    assert_eq!(code_of("not-a-number"), 22);
    assert_eq!(code_of("1/2/3"), 14);
    assert_eq!(code_of(""), 14);
    assert_eq!(code_of("/5"), 14);
    assert_eq!(code_of("5/"), 14);
    assert_eq!(code_of("/"), 14);
}

#[test]
fn malformed_numbers_are_refused() {
    assert_eq!(code_of("1,/2"), 22);
    assert_eq!(code_of(",5"), 22);
    assert_eq!(code_of("1,2,3"), 22);
    assert_eq!(code_of("-3/4"), 22);
    assert_eq!(code_of(" 3/4"), 22);
    assert_eq!(code_of("3/abc"), 22);
}

#[test]
fn numerator_error_comes_before_denominator_error() {
    assert_eq!(code_of("abc/100000000000000000000"), 22);
    assert_eq!(code_of("100000000000000000000/abc"), 24);
}

#[test]
fn largest_value_is_accepted_and_one_more_is_not() {
    assert_eq!(fract_of("18446744073709551615"), Fract { numer: u64::MAX, denom: 1 });
    assert_eq!(code_of("18446744073709551616"), 24);
    assert_eq!(code_of("1/18446744073709551616"), 24);
}

#[test]
fn power_of_ten_overflow() {
    assert_eq!(code_of("0,00000000000000000001/1"), 16);
    assert_eq!(code_of("1/0,00000000000000000001"), 16);
    assert_eq!(fract_of("0,0000000000000000001/1"), Fract { numer: 1, denom: 10000000000000000000 });
}

#[test]
fn leading_zeros_and_long_fractions() {
    assert_eq!(fract_of("007/014"), Fract { numer: 1, denom: 2 });
    let zeros = "0".repeat(300);
    let input = format!("0,{}1/0,{}2", zeros, zeros);
    assert_eq!(fract_of(&input), Fract { numer: 1, denom: 2 });
    assert_eq!(code_of(&format!("0,{}1/1", zeros)), 16);
}

#[test]
fn number_reader_gives_mantissa_and_scale() {
    let n = get_num(FType::Num, &"35,6".to_string());
    assert_eq!(n, Ok(MyNum { mnt: 356, exp: 1 }));
    let d = get_num(FType::Den, &"12".to_string());
    assert_eq!(d, Ok(MyNum { mnt: 12, exp: 0 }));
    let p = get_num(FType::Den, &"0.0040".to_string());
    assert_eq!(p, Ok(MyNum { mnt: 40, exp: 4 }));
    match get_num(FType::Den, &"x".to_string()) {
        Err((ecd, msg)) => {
            assert_eq!(ecd, 22);
            assert!(msg.contains("Denominator"));
        }
        Ok(v) => panic!("unexpected {:?}", v),
    }
}

#[test]
fn aligner_scales_the_side_with_fewer_decimals() {
    let num = MyNum { mnt: 356, exp: 1 };
    let den = MyNum { mnt: 12, exp: 0 };
    assert_eq!(get_aligned(&num, &den), Ok(Fract { numer: 356, denom: 120 }));
    assert_eq!(get_aligned(&den, &num), Ok(Fract { numer: 120, denom: 356 }));
    let big = MyNum { mnt: u64::MAX, exp: 0 };
    assert!(matches!(get_aligned(&num, &big), Err((18, _))));
    assert!(matches!(get_aligned(&big, &num), Err((20, _))));
}

#[test]
fn splitter_parts() {
    assert_eq!(split_fraction(&"35,6/12".to_string()), Some(("35,6".to_string(), "12".to_string())));
    assert_eq!(split_fraction(&"7".to_string()), Some(("7".to_string(), "1".to_string())));
    assert_eq!(split_fraction(&"a/b/c".to_string()), None);
    assert_eq!(split_fraction(&"ä/ö".to_string()), Some(("ä".to_string(), "ö".to_string())));
}
