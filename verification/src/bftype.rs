//! Architectures, errors and warnings.

pub mod bfcate;
pub mod bferror;
pub mod bfwarn;
