use vstd::prelude::*;

pub mod text;
pub mod version;
pub mod types;
pub mod analysis;
pub mod constants;
pub mod pipeline;
pub mod capture;
pub mod replay;
pub mod reference;
pub mod extract;
pub mod report;
pub mod observations;
pub mod discovery;
pub mod cli;
pub mod sync;
pub mod pixels;
pub mod decode;

verus! {

} // verus!
