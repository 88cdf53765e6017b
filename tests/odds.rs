use implied::{
    AmericanOdds, DecimalOdds, OddsFormat, Probability, ProbabilityOdds, ToAmericanOdds,
    ToDecimalOdds, ToProbability,
};

fn probability_f64(p: &ProbabilityOdds) -> f64 {
    p.numerator() as f64 / p.denominator() as f64
}

fn decimal_f64(d: &DecimalOdds) -> f64 {
    d.numerator() as f64 / d.denominator() as f64
}

fn american_of<T: OddsFormat>(odds: &T) -> i32 {
    odds.to_american().unwrap().value
}

#[test]
fn test_american_odds_to_decimal() {
    let negative_even_odds = AmericanOdds::new(-100).unwrap();
    let positive_even_odds = AmericanOdds::new(100).unwrap();
    assert_eq!(
        negative_even_odds.to_decimal().unwrap(),
        positive_even_odds.to_decimal().unwrap()
    );

    let odds = AmericanOdds::new(-110).unwrap();
    let decimal = odds.to_decimal().unwrap();
    assert_eq!(decimal, DecimalOdds::new(21, 11).unwrap());
    assert_eq!(decimal_f64(&decimal), 1.9090909090909092);
}

#[test]
fn test_american_odds_to_probability() {
    let negative_even_odds = AmericanOdds::new(-100).unwrap();
    let positive_even_odds = AmericanOdds::new(100).unwrap();
    assert_eq!(
        negative_even_odds.to_probability().unwrap(),
        positive_even_odds.to_probability().unwrap()
    );

    let odds = AmericanOdds::new(-110).unwrap();
    let probability = odds.to_probability().unwrap();
    assert_eq!(probability, Probability::new(11, 21).unwrap());
    assert_eq!(probability_f64(&probability), 0.5238095238095238);
}

#[test]
fn test_invalid_american_odds() {
    let result = AmericanOdds::new(99);
    assert_eq!(result, Err("American odds must be < -100 and > 100"));

    let result = AmericanOdds::new(-99);
    assert_eq!(result, Err("American odds must be < -100 and > 100"));
}

#[test]
fn test_decimal_odds_to_american() {
    let odds_favorite = DecimalOdds::new(21, 11).unwrap();
    assert_eq!(decimal_f64(&odds_favorite), 1.9090909090909092);
    assert_eq!(
        odds_favorite.to_american().unwrap(),
        AmericanOdds::new(-110).unwrap()
    );

    let odds_underdog = DecimalOdds::new(32, 11).unwrap();
    assert_eq!(decimal_f64(&odds_underdog), 2.9090909090909092);
    assert_eq!(
        odds_underdog.to_american().unwrap(),
        AmericanOdds::new(191).unwrap()
    );
}

#[test]
fn test_decimal_odds_to_probability() {
    let odds = DecimalOdds::new(21, 11).unwrap();
    let probability = odds.to_probability().unwrap();
    assert_eq!(probability, Probability::new(11, 21).unwrap());
    assert_eq!(probability_f64(&probability), 0.5238095238095238);
}

#[test]
fn test_invalid_decimal_odds() {
    let result = DecimalOdds::new(99, 100);
    assert_eq!(result, Err("Decimal odds must be greater than 1"));

    let result = DecimalOdds::new(0, 1);
    assert_eq!(result, Err("Decimal odds must be greater than 1"));
}

#[test]
fn test_probability_odds_to_decimal() {
    let odds = ProbabilityOdds::new(3, 4).unwrap();
    let decimal = odds.to_decimal().unwrap();
    assert_eq!(decimal, DecimalOdds::new(4, 3).unwrap());
    assert_eq!(decimal_f64(&decimal), 1.3333333333333333);
}

#[test]
fn test_probability_odds_to_american() {
    let odds = ProbabilityOdds::new(3, 4).unwrap();
    assert_eq!(
        odds.to_american().unwrap(),
        AmericanOdds::new(-300).unwrap()
    );
}

#[test]
fn test_probability_odds_to_probability() {
    let odds = ProbabilityOdds::new(11, 21).unwrap();
    assert_eq!(probability_f64(&odds), 0.5238095238095238);
    assert_eq!(
        odds.to_probability().unwrap(),
        ProbabilityOdds::new(11, 21).unwrap()
    );
}

#[test]
fn test_invalid_probability_odds() {
    let result = ProbabilityOdds::new(101, 100);
    assert_eq!(result, Err("Probability odds must be between 0 and 1"));

    let result = ProbabilityOdds::new(1, 0);
    assert_eq!(result, Err("Probability odds must be between 0 and 1"));
}

#[test]
fn american_boundaries_are_valid_and_equal() {
    let low = AmericanOdds::new(-100).unwrap();
    let high = AmericanOdds::new(100).unwrap();
    assert_eq!(low, high);
    assert_ne!(AmericanOdds::new(-110).unwrap(), AmericanOdds::new(110).unwrap());
    assert!(AmericanOdds::new(99).is_err());
    assert!(AmericanOdds::new(-99).is_err());
    assert!(AmericanOdds::new(i32::MIN).is_ok());
}

#[test]
fn american_round_trip_through_decimal() {
    for v in [-100, 100, -110, 110, -101, 101, -250, 375, -10000, 123456, i32::MIN, i32::MAX] {
        let odds = AmericanOdds::new(v).unwrap();
        let decimal = odds.to_decimal().unwrap();
        let back = decimal.to_american().unwrap();
        let expected = if v == -100 { 100 } else { v };
        assert_eq!(back.value, expected);
        assert_eq!(back.to_decimal().unwrap(), decimal);
    }
}

#[test]
fn decimal_to_probability_is_reciprocal() {
    let odds = DecimalOdds::new(187, 100).unwrap();
    let p = odds.to_probability().unwrap();
    assert_eq!((p.numerator(), p.denominator()), (100, 187));
    let even = DecimalOdds::new(1, 1).unwrap();
    assert_eq!(even.to_probability().unwrap(), ProbabilityOdds::new(1, 1).unwrap());
}

#[test]
fn decimal_rounding_is_half_away_from_zero() {
    // 100 * (2.005 - 1) = 100.5 rounds to 101
    assert_eq!(american_of(&DecimalOdds::new(401, 200).unwrap()), 101);
    // -100 / (1.8 - 1) = -125 exactly
    assert_eq!(american_of(&DecimalOdds::new(9, 5).unwrap()), -125);
    // -100 / (401/201 - 1) = -100.5 rounds to -101
    assert_eq!(american_of(&DecimalOdds::new(401, 201).unwrap()), -101);
    // exactly two is even money: the positive line
    assert_eq!(american_of(&DecimalOdds::new(2, 1).unwrap()), 100);
}

#[test]
fn decimal_without_american_line_is_rejected() {
    let one = DecimalOdds::new(7, 7).unwrap();
    assert_eq!(one.to_american(), Err("American odds must be < -100 and > 100"));
    let huge = DecimalOdds::new(u64::MAX, 1).unwrap();
    assert_eq!(huge.to_american(), Err("American odds must be < -100 and > 100"));
}

#[test]
fn zero_probability_has_no_decimal_or_american_form() {
    let zero = ProbabilityOdds::new(0, 5).unwrap();
    assert_eq!(
        zero.to_decimal(),
        Err("Probability odds of 0 have no decimal or American form")
    );
    assert_eq!(
        zero.to_american(),
        Err("Probability odds of 0 have no decimal or American form")
    );
    let certain = ProbabilityOdds::new(5, 5).unwrap();
    assert_eq!(certain.to_american(), Err("American odds must be < -100 and > 100"));
}

#[test]
fn probability_underdog_to_american() {
    let odds = ProbabilityOdds::new(1, 4).unwrap();
    assert_eq!(american_of(&odds), 300);
    assert_eq!(odds.to_decimal().unwrap(), DecimalOdds::new(4, 1).unwrap());
}
