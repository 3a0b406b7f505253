//! The core of Privatium: the append-only event log, the linter's readers, the template
//! compiler and the pairing helpers, each stated over a mathematical model and proved.

use vstd::prelude::*;

pub mod text;
pub mod json;
pub mod log;
pub mod lint;
pub mod lua;
pub mod pair;

verus! {

} // verus!
