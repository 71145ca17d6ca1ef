//! Ownership, shared ownership and run-time checked mutation, as small data
//! structures with verified contracts.
pub mod boxed;
pub mod cell;
pub mod counted;
pub mod shared;
pub mod interior;
pub mod combined;
