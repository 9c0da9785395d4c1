// A digital logic simulator's core: signals and gates, connectivity inferred from overlapping
// hitboxes (a uniform grid and union-find), evaluation of a circuit step by step, and a sweep
// that finds crossing wire segments.

use vstd::prelude::*;

pub mod structure;
pub mod logic_gates;
pub mod union_find;
pub mod connection_logic;
pub mod source;
pub mod led;
pub mod circuit;
pub mod sweep_line;

verus! {

} // verus!
