//! What holds of the library's operations: laws that relate results to inputs, and
//! results to one another.

pub mod aggregates;
pub mod bytes;
pub mod changes;
pub mod elements;
pub mod frames;
pub mod groups;
pub mod lists;
pub mod middles;
pub mod ordering;
pub mod picks;
pub mod roots;
pub mod rounding;
pub mod sampling;
pub mod series;
pub mod spelling;
pub mod totals;
pub mod windows;
