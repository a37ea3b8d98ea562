//! Grade point averages from academic records: a fixed quality-point table,
//! two record normalisers (tab-separated result tables and comma-delimited
//! lines), retake resolution, and per-semester and cumulative aggregation.
//! GPAs are exact integers in hundredths of a grade point.

pub mod aggregate;
pub mod delimited;
pub mod qpt;
pub mod record;
pub mod tabular;
pub mod text;
