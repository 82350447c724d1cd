//! Complex numbers over exact rationals, with exactness tracking.

pub mod complex;
pub mod division;
pub mod elementary;
pub mod error;
pub mod exact;
pub mod format;
pub mod function_laws;
pub mod laws;
pub mod order;
pub mod power;
pub mod rat;
pub mod realnum;
pub mod root;
pub mod serial;
