//! Range-based shared/exclusive claim tracking over one contiguous buffer.
//!
//! A tracker records, for every unit of a buffer, whether it is free, claimed
//! by some number of shared holders, or claimed exclusively. Claims are made
//! and released over half-open ranges `[start, end)`. Two trackers are
//! provided: [`vectracker::VecTracker`] keeps one state per unit, and
//! [`btreetracker::BTreeTracker`] keeps a step function over sparse
//! breakpoints. Both are verified against the same per-unit model.
pub mod borrowstate;
pub mod borrowtracker;
pub mod vectracker;
pub mod btreetracker;
pub mod equivalence;
pub mod generator;
