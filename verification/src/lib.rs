//! Dice expressions: parsing, printing, rolling, bounds, distributions and
//! simplification, with their behaviour stated and proved in Verus.
pub mod expr;
pub mod stats;
