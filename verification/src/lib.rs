//! A command matching engine.
//!
//! The heart of the crate is a trie of command path segments, [`Mapping`].
//! Command specifications are registered into the trie; each segment may
//! carry a *decider*, a pluggable parser that consumes a variable number of
//! the following tokens, and a complete path carries a *finalizer*, the
//! value handed back to the caller when a command resolves.  Lookup walks
//! the trie consuming tokens and either resolves to a finalizer together
//! with the values the deciders produced, or fails with a precise reason.
//! A partial lookup supports one-step-at-a-time autocompletion.
//!
//! Alongside the engine the crate carries two small verified utilities that
//! its host programs use: a sample-summing benchmarker and a pair of tile
//! helpers.

pub mod bench;
pub mod decision;
pub mod laws;
pub mod mapping;
pub mod tiles;

pub use bench::Benchmarker;
pub use bench::stopwatch;
pub use mapping::FinWithArgs;
pub use mapping::Finalizer;
pub use mapping::MapOrDesc;
pub use mapping::Mapping;
pub use mapping::SVec;
pub use mapping::Spec;

pub use decision::Decider;
pub use decision::Decision;
pub use decision::LookError;
pub use decision::RegError;
pub use tiles::Color;
pub use tiles::Tile;
pub use tiles::i32_to_usize;
pub use tiles::map_tile_value_via_color;
