//! Verified core of a standard-cell netlist optimizer built on e-graphs.
use vstd::prelude::*;

pub mod active_instances;
pub mod aiger_records;
pub mod aiger_text;
pub mod analyzer;
pub mod circuit;
pub mod cli;
pub mod cone_enum;
pub mod delta_plan;
pub mod equivalence;
pub mod extract;
pub mod flow_args;
pub mod language;
pub mod liberty;
pub mod logic;
pub mod mapped_netlist;
pub mod materialize;
pub mod mining;
pub mod netlist;
pub mod paths;
pub mod phase_i;
pub mod physical_space;
pub mod portfolio;
pub mod realization;
pub mod text;
pub mod timing_state;
pub mod topology;

verus! {

} // verus!
