//! Variant discovery over procure-to-pay event logs: per case, the ordered and
//! de-duplicated sequence of activity codes, and how many cases share each one.
pub mod activities;
pub mod record;
pub mod table;
pub mod trace;
pub mod sequential;
pub mod parallel;
pub mod laws;
pub mod report;
pub mod sampling;
