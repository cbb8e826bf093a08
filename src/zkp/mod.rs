//! Ordering and validation of receipts ahead of a summation proof.
pub mod iter;
pub mod receipt;
