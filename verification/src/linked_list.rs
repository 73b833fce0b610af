//! The three lists, the error that their operations report, and the
//! vocabulary that their contracts share.

pub mod circular_ll;
pub mod doubly_ll;
pub mod error;
pub mod model;
pub mod singly_ll;
