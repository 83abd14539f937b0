//! Retuning of live 12-tone-equal-temperament note events into enharmonically
//! correct pitches of the 31-tone-equal-temperament lattice.
//!
//! The crate is organized in three layers:
//! - [`theory`]: the closed arithmetic over the 31 enharmonic pitch classes
//!   and over absolute pitches (class plus octave);
//! - [`tonal_space`]: the registry of currently sounding pitches with its
//!   clash-driven eviction policy, and the projection/assonance engine that
//!   ranks 31-EDO candidates for an incoming 12-EDO key;
//! - [`processor`]: the event-level step function that drives the space from
//!   a stream of already-parsed note events.

pub mod processor;
pub mod theory;
pub mod tonal_space;
