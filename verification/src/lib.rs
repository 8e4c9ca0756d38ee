//! A streaming pretty-printing engine in the style of Oppen's algorithm.
//!
//! A driver feeds the [`algorithm::Printer`] a stream of text,
//! break-opportunities and block delimiters. The printer decides for each
//! break whether it becomes blank space or a newline with indentation,
//! keeping lines within [`model::MARGIN`] columns where it can. It looks
//! ahead no further than one line.
//!
//! The behaviour of the printer is stated against the mathematical state
//! machine in [`model`]. What is true of every state that the machine can
//! reach is defined in [`wellformed`] and proved in [`sums`], [`draining`],
//! [`settling`] and [`scanning`]. What follows for every driver is proved in
//! [`laws`] (the running totals and the bound on what is buffered),
//! [`whitespace`] (no line ends in a space), [`blocks`] and [`fitting`] (how
//! the breaks of a block fall, and that a block that fits stays on its line)
//! and [`balance`] (all that goes in comes out once every block is closed).
//!
//! Around the engine stand the shorthands that drivers use most
//! ([`convenience`]), token streams that are written down first and played
//! later ([`script`]), the layout of paths ([`path`]), and errors with the
//! chain of their causes, as a driver reports them ([`error`], [`chain`],
//! [`context`], [`ensure`], [`report`]).

pub mod algorithm;
pub mod balance;
pub mod blocks;
pub mod chain;
pub mod context;
pub mod convenience;
pub mod draining;
pub mod ensure;
pub mod error;
pub mod fitting;
pub mod laws;
pub mod model;
pub mod path;
pub mod report;
pub mod ring;
pub mod scanning;
pub mod script;
pub mod settling;
pub mod sums;
pub mod token;
pub mod wellformed;
pub mod whitespace;

use vstd::prelude::*;

verus! {

/// The indentation that drivers give to the blocks they open.
pub const INDENT: isize = 4;

} // verus!
