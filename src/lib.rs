//! Timeline windowing and incremental reconciliation for a scrolling,
//! string-instrument note timeline.
//!
//! - `tempo`: block duration from note onsets (median of octave-folded tempi).
//! - `chart`, `merge`: difficulty selection and the merged, deduplicated,
//!   sorted note stream of a time window.
//! - `feed`: the per-frame input (time, block duration, window, notes).
//! - `window`: the sliding window of blocks and its collapse animation.
//! - `reconcile`: desired primitives per block and row, and the diff that
//!   creates and destroys them.
//! - `fret`: active notes, fret range, fret markers and the zoom-in.
//! - `note`, `sort`: notes with their content keys; sorting lemmas.
//!
//! Times are integer microseconds; on-screen positions and fractions are
//! parts per million of the extent they refer to.
use vstd::prelude::*;

pub mod chart;
pub mod feed;
pub mod fret;
pub mod merge;
pub mod note;
pub mod reconcile;
pub mod sort;
pub mod tempo;
pub mod window;

verus! {

} // verus!
