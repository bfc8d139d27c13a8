use vstd::prelude::*;

pub mod decimal;
pub mod text;
pub mod resp;
pub mod store;
pub mod command;
pub mod server;
pub mod laws;

verus! {

} // verus!
