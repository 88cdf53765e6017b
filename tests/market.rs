use implied::{
    calculate_hold, devig_additive, devig_basic, kelly_criterion, AmericanOdds, DecimalOdds,
    Fraction, Probability, ProbabilityOdds, ToProbability,
};

fn probability_f64(p: &ProbabilityOdds) -> f64 {
    p.numerator() as f64 / p.denominator() as f64
}

fn fraction_f64(f: &Fraction) -> f64 {
    let v = f.numerator as f64 / f.denominator as f64;
    if f.negative {
        -v
    } else {
        v
    }
}

fn fraction_is(f: &Fraction, num: i128, den: i128) -> bool {
    let n = if f.negative { -(f.numerator as i128) } else { f.numerator as i128 };
    n * den == num * (f.denominator as i128)
}

#[test]
fn test_hold_no_hold() {
    let odds = vec![
        AmericanOdds::new(-102).unwrap(),
        AmericanOdds::new(102).unwrap(),
    ];

    assert_eq!(fraction_f64(&calculate_hold(&odds).unwrap()), 0.0);
}

#[test]
fn test_hold_standard_hold_american() {
    let odds = vec![
        AmericanOdds::new(-110).unwrap(),
        AmericanOdds::new(-110).unwrap(),
    ];

    let hold = calculate_hold(&odds).unwrap();
    // the exact hold is 1/21; 0.04761904761904767 is that value after f64 summation
    assert!(fraction_is(&hold, 1, 21));
    assert!((fraction_f64(&hold) - 0.04761904761904767).abs() < 1e-15);
}

#[test]
fn test_hold_standard_hold_decimal() {
    let odds = vec![
        DecimalOdds::new(1, 1).unwrap(),
        DecimalOdds::new(2, 1).unwrap(),
    ];

    assert_eq!(fraction_f64(&calculate_hold(&odds).unwrap()), 0.5);
}

#[test]
fn hold_of_empty_market_is_minus_one() {
    let odds: Vec<AmericanOdds> = vec![];
    assert!(fraction_is(&calculate_hold(&odds).unwrap(), -1, 1));
}

#[test]
fn hold_of_mirrored_lines_is_zero() {
    for x in [100, 150, 333, 1000, 2_000_000_000] {
        let odds = vec![AmericanOdds::new(-x).unwrap(), AmericanOdds::new(x).unwrap()];
        assert_eq!(calculate_hold(&odds).unwrap().numerator, 0);
    }
}

#[test]
fn hold_of_probabilities_can_be_negative() {
    let odds = vec![
        ProbabilityOdds::new(1, 4).unwrap(),
        ProbabilityOdds::new(1, 2).unwrap(),
    ];
    assert!(fraction_is(&calculate_hold(&odds).unwrap(), -1, 4));
}

#[test]
fn hold_of_oversized_market_overflows() {
    let odds: Vec<AmericanOdds> = (0..40).map(|i| AmericanOdds::new(-1_000_003 - i).unwrap()).collect();
    assert_eq!(calculate_hold(&odds).unwrap_err(), "Market too large to compute exactly");
    assert_eq!(devig_basic(&odds).unwrap_err(), "Market too large to compute exactly");
    assert_eq!(devig_additive(&odds).unwrap_err(), "Market too large to compute exactly");
}

#[test]
fn test_basic_devigger() {
    let odds = [
        AmericanOdds::new(-110).unwrap(),
        AmericanOdds::new(-110).unwrap(),
    ];

    let devigged_probs = devig_basic(&odds).unwrap();

    assert_eq!(probability_f64(&devigged_probs[0]), 0.5);
    assert_eq!(probability_f64(&devigged_probs[1]), 0.5);
}

#[test]
fn basic_devig_sums_to_one_and_keeps_ratios() {
    let odds = [
        AmericanOdds::new(-150).unwrap(),
        AmericanOdds::new(250).unwrap(),
        AmericanOdds::new(400).unwrap(),
    ];
    let fair = devig_basic(&odds).unwrap();
    assert_eq!(fair.len(), 3);
    // implied: 3/5, 2/7, 1/5, summing to 38/35
    assert_eq!(fair[0], Probability::new(21, 38).unwrap());
    assert_eq!(fair[1], Probability::new(10, 38).unwrap());
    assert_eq!(fair[2], Probability::new(7, 38).unwrap());
    let total: f64 = fair.iter().map(probability_f64).sum();
    assert!((total - 1.0).abs() < 1e-9);
}

#[test]
fn basic_devig_of_empty_market_is_empty() {
    let odds: Vec<DecimalOdds> = vec![];
    assert_eq!(devig_basic(&odds).unwrap(), Vec::<Probability>::new());
}

#[test]
fn basic_devig_of_zero_probabilities_fails() {
    let odds = [ProbabilityOdds::new(0, 3).unwrap(), ProbabilityOdds::new(0, 7).unwrap()];
    assert_eq!(devig_basic(&odds).unwrap_err(), "Probability odds must be between 0 and 1");
}

#[test]
fn test_additive_devigger_american() {
    let odds = [
        AmericanOdds::new(-110).unwrap(),
        AmericanOdds::new(-110).unwrap(),
    ];

    let devigged_probs = devig_additive(&odds).unwrap();

    assert_eq!(probability_f64(&devigged_probs[0]), 0.5);
    assert_eq!(probability_f64(&devigged_probs[1]), 0.5);
}

#[test]
#[should_panic(expected = "Probability odds must be between 0 and 1")]
fn test_negative_devig_results() {
    let odds = [
        DecimalOdds::new(187, 100).unwrap(),
        DecimalOdds::new(12, 10).unwrap(),
        DecimalOdds::new(11, 10).unwrap(),
        DecimalOdds::new(105, 100).unwrap(),
        DecimalOdds::new(102, 100).unwrap(),
        DecimalOdds::new(101, 100).unwrap(),
    ];

    devig_additive(&odds).unwrap();
}

#[test]
fn additive_devig_rejects_outcome_below_margin() {
    let odds = [
        DecimalOdds::new(187, 100).unwrap(),
        DecimalOdds::new(12, 10).unwrap(),
        DecimalOdds::new(11, 10).unwrap(),
        DecimalOdds::new(105, 100).unwrap(),
        DecimalOdds::new(102, 100).unwrap(),
        DecimalOdds::new(101, 100).unwrap(),
    ];
    assert_eq!(devig_additive(&odds), Err("Probability odds must be between 0 and 1"));
}

#[test]
fn test_empty_odds() {
    let odds: Vec<DecimalOdds> = vec!();

    assert_eq!(std::vec::Vec::<Probability>::new(), devig_additive(&odds).unwrap());
}

#[test]
fn additive_devig_shifts_by_equal_margin() {
    let odds = [
        ProbabilityOdds::new(3, 5).unwrap(),
        ProbabilityOdds::new(1, 2).unwrap(),
    ];
    // margin (11/10 - 1) / 2 = 1/20 off each
    let fair = devig_additive(&odds).unwrap();
    assert_eq!(fair[0], Probability::new(11, 20).unwrap());
    assert_eq!(fair[1], Probability::new(9, 20).unwrap());
}

#[test]
fn additive_devig_of_underround_market_raises_each() {
    let odds = [
        ProbabilityOdds::new(1, 4).unwrap(),
        ProbabilityOdds::new(1, 4).unwrap(),
    ];
    let fair = devig_additive(&odds).unwrap();
    assert_eq!(fair[0], Probability::new(1, 2).unwrap());
    assert_eq!(fair[1], Probability::new(1, 2).unwrap());
}

#[test]
fn test_kelly_criterion_zero() {
    let win_prob = Probability::new(1, 2).unwrap();
    let to_win = DecimalOdds::new(2, 1).unwrap();
    let amount_to_bet = kelly_criterion(win_prob, to_win).unwrap();

    assert_eq!(fraction_f64(&amount_to_bet), 0.0)
}

#[test]
fn kelly_criterion_with_edge() {
    // p = 0.6 at even money: (0.6 * 2 - 1) / (2 - 1) = 1/5
    let win_prob = Probability::new(3, 5).unwrap();
    let to_win = DecimalOdds::new(2, 1).unwrap();
    assert!(fraction_is(&kelly_criterion(win_prob, to_win).unwrap(), 1, 5));
}

#[test]
fn kelly_criterion_can_be_negative() {
    let win_prob = Probability::new(1, 5).unwrap();
    let to_win = DecimalOdds::new(3, 2).unwrap();
    // 1/5 - (4/5) / (3/2 - 1) = -7/5
    let stake = kelly_criterion(win_prob, to_win).unwrap();
    assert!(stake.negative);
    assert!(fraction_is(&stake, -7, 5));
}

#[test]
fn kelly_criterion_without_payout_fails() {
    let win_prob = Probability::new(1, 2).unwrap();
    let to_win = DecimalOdds::new(1, 1).unwrap();
    assert_eq!(
        kelly_criterion(win_prob, to_win).unwrap_err(),
        "Kelly stake needs decimal odds greater than 1"
    );
}

#[test]
fn devig_of_fine_grained_decimal_market() {
    let odds = [
        DecimalOdds::new(19090909, 10000000).unwrap(),
        DecimalOdds::new(19090909, 10000000).unwrap(),
    ];
    let half = Probability::new(1, 2).unwrap();
    let basic = devig_basic(&odds).unwrap();
    assert_eq!((basic[0].numerator(), basic[0].denominator()), (1, 2));
    assert_eq!(basic[1], half);
    let additive = devig_additive(&odds).unwrap();
    assert_eq!((additive[0].numerator(), additive[0].denominator()), (1, 2));
    assert_eq!(additive[1], half);
}

#[test]
fn devig_of_fair_market_changes_nothing() {
    let odds = [
        AmericanOdds::new(-110).unwrap(),
        AmericanOdds::new(-110).unwrap(),
    ];
    let once = devig_basic(&odds).unwrap();
    let twice = devig_basic(&once).unwrap();
    assert_eq!(once, twice);
    assert_eq!((twice[0].numerator(), twice[0].denominator()), (1, 2));
    let once = devig_additive(&odds).unwrap();
    let twice = devig_additive(&once).unwrap();
    assert_eq!(once, twice);
    assert_eq!((twice[1].numerator(), twice[1].denominator()), (1, 2));
}

#[test]
fn devig_of_eight_way_market() {
    let odds = vec![AmericanOdds::new(-110).unwrap(); 8];
    let eighth = Probability::new(1, 8).unwrap();
    let basic = devig_basic(&odds).unwrap();
    assert!(basic.iter().all(|p| *p == eighth));
    assert_eq!((basic[7].numerator(), basic[7].denominator()), (1, 8));
    let additive = devig_additive(&odds).unwrap();
    assert!(additive.iter().all(|p| *p == eighth));
}

#[test]
fn constructors_store_lowest_terms() {
    let p = Probability::new(4851000, 9702000).unwrap();
    assert_eq!((p.numerator(), p.denominator()), (1, 2));
    let d = DecimalOdds::new(210, 110).unwrap();
    assert_eq!((d.numerator(), d.denominator()), (21, 11));
    let q = AmericanOdds::new(-110).unwrap().to_probability().unwrap();
    assert_eq!((q.numerator(), q.denominator()), (11, 21));
}
