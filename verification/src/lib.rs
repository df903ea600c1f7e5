//! Runtime values for a stack machine: integers and booleans held by value,
//! and texts, lists and maps held in the cells of a shared store.

pub mod object;
pub mod store;
pub mod equality;
pub mod copying;
pub mod hashing;
pub mod containers;
pub mod laws;
