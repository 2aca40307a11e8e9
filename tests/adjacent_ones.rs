use word_chains::adjacent_ones::{
    calc_naive, calc_restacking, calc_restacking_reusing, parse_range, to_inclusive, CalcApproach,
    MultiCalc, SingleCalc,
};

#[test]
fn test_naive_known() {
    assert_eq!(calc_naive(1), 2);
    assert_eq!(calc_naive(2), 3);
    assert_eq!(calc_naive(3), 5);
}

#[test]
fn test_reusing_known() {
    assert_eq!(calc_restacking(1), 2);
    assert_eq!(calc_restacking(2), 3);
    assert_eq!(calc_restacking(3), 5);
}

#[test]
fn compare_reusing_with_naive_to_16_digits() {
    for digit_count in 3..=16 {
        assert_eq!(calc_naive(digit_count), calc_restacking(digit_count));
    }
}

#[test]
fn zero_digits() {
    assert_eq!(calc_naive(0), 1);
    assert_eq!(calc_restacking(0), 2);
}

#[test]
fn reusing_gives_each_length_of_the_range() {
    assert_eq!(calc_restacking_reusing(&(3..=6)), vec![5, 8, 13, 21]);
    assert_eq!(calc_restacking_reusing(&(0..=3)), vec![3, 5]);
    assert_eq!(calc_restacking_reusing(&(5..=4)), Vec::<usize>::new());
    assert_eq!(calc_restacking_reusing(&(10..=10)), vec![calc_restacking(10)]);
}

#[test]
fn largest_count_that_fits() {
    assert_eq!(calc_restacking(91), 12200160415121876738);
}

#[test]
fn approaches_are_named_in_any_case() {
    assert!(matches!("Naive".parse::<CalcApproach>(), Ok(CalcApproach::Single(SingleCalc::Naive))));
    assert!(matches!("RESTACK".parse::<CalcApproach>(), Ok(CalcApproach::Single(SingleCalc::Restacking))));
    assert!(matches!(
        "restacking with recycling".parse::<CalcApproach>(),
        Ok(CalcApproach::Multi(MultiCalc::RestackingAndReusing))
    ));
    assert!(matches!("naive-recycle".parse::<CalcApproach>(), Ok(CalcApproach::Single(SingleCalc::Naive))));
    assert_eq!("fast".parse::<CalcApproach>().unwrap_err(), "");
    assert!(CalcApproach::from_name("").is_none());
}

#[test]
fn range_arguments() {
    assert_eq!(parse_range("3..=6"), Some(3..=6));
    assert_eq!(parse_range("3..7"), Some(3..=6));
    assert_eq!(parse_range("+2..=+5"), Some(2..=5));
    assert_eq!(parse_range("0..1"), Some(0..=0));
    assert_eq!(parse_range("3..0"), None);
    assert_eq!(parse_range("a..3"), None);
    assert_eq!(parse_range("7"), None);
    assert_eq!(parse_range("1..=2..=3"), None);
    assert_eq!(parse_range("..=3"), None);
    assert_eq!(parse_range("18446744073709551616..=1"), None);
    assert_eq!(parse_range("18446744073709551615..=1"), Some(usize::MAX..=1));
    assert_eq!(to_inclusive(4..9), 4..=8);
}
