//! Structural recognisers: shapes of expression trees that can be replaced by
//! something cheaper to run.

pub mod broadcast_laws;
pub mod broadcast_write;
pub mod dispatch_table;
pub mod loop_descriptor;
pub mod packed_broadcast_write;
pub mod packed_laws;
pub mod rep_applier;
