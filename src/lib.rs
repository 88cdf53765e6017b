//! Sports betting odds in American, decimal and probability form, held as exact fractions:
//! conversions between the formats, the hold of a market, devigging and the Kelly stake.
pub mod american;
pub mod decimal;
pub mod devig;
pub mod format;
pub mod fraction;
pub mod kelly;
pub mod market;
pub mod probability;

pub use american::{AmericanOdds, ToAmericanOdds};
pub use decimal::{DecimalOdds, ToDecimalOdds};
pub use devig::{devig_additive, devig_basic};
pub use format::OddsFormat;
pub use fraction::Fraction;
pub use kelly::kelly_criterion;
pub use market::calculate_hold;
pub use probability::{Probability, ProbabilityOdds, ToProbability};
