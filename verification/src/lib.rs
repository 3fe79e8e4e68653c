//! Sapio core: the checked accounting, planning and decision logic behind
//! Bitcoin contract compilation, stated over plain values and proved with Verus.
pub mod actions;
pub mod artifact;
pub mod bind;
pub mod builder;
pub mod compose;
pub mod context;
pub mod encoding;
pub mod error;
pub mod execution;
pub mod expand;
pub mod extended_address;
pub mod feasibility;
pub mod interned;
pub mod lower;
pub mod ordinals;
pub mod plan;
pub mod policy;
pub mod preflight;
pub mod renamer;
pub mod reverse_path;
pub mod script;
pub mod template;
pub mod timelocks;

use vstd::prelude::*;

verus! {

} // verus!
