//! Arbitrary-precision binary floating point with decimal and radix text I/O.
//!
//! Layers, leaves first: `magnitude` (unsigned bit strings of any length),
//! `rounding` (round-to-nearest-even of an exact ratio), `radix` (the grammar of
//! numeric text and the pieces of decimal output), `bigdecimal` (the value type,
//! its arithmetic, comparison, parsing and formatting), and `laws` (algebraic
//! facts about the operations, proved over the value model).

pub mod magnitude;
pub mod rounding;
pub mod bigdecimal;
pub mod radix;
pub mod laws;

