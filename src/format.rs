use vstd::prelude::*;
use crate::american::{AmericanOdds, ToAmericanOdds};
use crate::decimal::{DecimalOdds, ToDecimalOdds};
use crate::probability::{ProbabilityOdds, ToProbability};

verus! {

/// Odds in any format: each converts to decimal, American and probability form.
pub trait OddsFormat: ToDecimalOdds + ToAmericanOdds + ToProbability {

}

impl OddsFormat for AmericanOdds {

}

impl OddsFormat for DecimalOdds {

}

impl OddsFormat for ProbabilityOdds {

}

} // verus!
