//! Synchronized-lyrics engine: parses `"mm:ss"` durations and timestamped
//! lyric documents into a second-keyed index, resolves the lyric line active
//! at a playback position, detects track changes, and keeps the loop-owned
//! state that ties these together. I/O — player polling, document fetching,
//! display — lives outside this crate and hands in plain strings.

pub mod backend;
pub mod duration;
pub mod lyrics;
pub mod sync;
pub mod text;
pub mod track;

use vstd::prelude::*;

verus! {

} // verus!
