//! What the library promises, said in bytes and positions alone.
//!
//! The other modules define what each operation gives. The laws here say what
//! that has to be like, for every input, by relations between inputs and
//! results: literal characters, positions, and how the results of several
//! inputs hang together.
pub mod grammar;
pub mod naming;
pub mod paths;
pub mod payload;
pub mod prefetch;
pub mod streams;
pub mod values;
