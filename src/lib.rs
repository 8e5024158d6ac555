use vstd::prelude::*;

pub mod error;
pub mod models;
pub mod order;
pub mod database;
pub mod api;
pub mod laws;
pub mod sample;

verus! {

} // verus!
