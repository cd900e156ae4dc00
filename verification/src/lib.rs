use vstd::prelude::*;

pub mod board;
pub mod config;
pub mod construct;
pub mod exchange;
pub mod rng;
pub mod search;
pub mod solve;
pub mod timing;
pub mod trials;

pub use config::Config;
pub use timing::TimeKeeper;

verus! {

} // verus!
