//! Dice-pool mechanics: a dice-notation parser, a roll engine with rerolls,
//! critical hits and glitches, and exact outcome distributions for pool totals
//! and hit counts.

pub mod text;
pub mod dice;
pub mod rng;
pub mod roll;
pub mod poly;
pub mod binomial;
pub mod probability;
pub mod flair;
