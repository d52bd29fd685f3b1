//! Verified core of a computational-CSS engine.

pub mod copies;
pub mod delta;
pub mod fields;
pub mod fx;
pub mod image_laws;
pub mod key_laws;
pub mod load;
pub mod memory_laws;
pub mod names;
pub mod number;
pub mod pattern;
pub mod poll_laws;
pub mod program;
pub mod pulse_laws;
pub mod screen;
pub mod screen_laws;
pub mod script;
pub mod script_eval;
pub mod script_laws;
pub mod script_spec;
pub mod snapshot;
pub mod state;
pub mod tables;
pub mod text;
pub mod types;
pub mod value_laws;
pub mod written_laws;
pub mod written_numbers;

pub use state::State;
