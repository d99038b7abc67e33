//! Streaming decode of tab-separated records with explicit missing values, and
//! exact aggregation (sum, min, max, mean, median, collapse) of a decoded column.

pub mod decimal;
pub mod operations;
pub mod tsv;
