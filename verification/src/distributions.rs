//! The concrete probability distributions of the library.

pub mod uniform;
