//! Discovery of labelled Petri nets from event logs projected to activity
//! indices: start/end framing, loop and skip repair with silent activities,
//! directly-follows filtering, place-candidate enumeration and pruning, and
//! net assembly.

pub mod ratio;
pub mod projection;
pub mod dfg;
pub mod repair;
pub mod candidates;
pub mod order;
pub mod pruning;
pub mod petri;
pub mod wiring;
pub mod discovery;
