//! Verified bitonic sorting network and the data types shared between the
//! host side and the compute kernels.

pub mod types;
pub mod compare;
pub mod keys;
pub mod kernel;
pub mod network;
pub mod bitfacts;
pub mod parallel;
pub mod zero_one;
pub mod sortedness;
pub mod sizes;
pub mod sort_spec;
pub mod runner;
pub mod majorana;
pub mod majorana_laws;
