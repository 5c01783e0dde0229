//! Finite automata over a finite alphabet of printable ASCII symbols, with the
//! classical algorithms on them, specified and proved with Verus.

pub mod automate;
pub mod laws;
pub mod model;
mod vecset;

pub use automate::Automate;
