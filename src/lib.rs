//! The execution core of a live audio/video patching engine: the workspace
//! graph and its connection typechecker, the command mediator that turns
//! client operations into change events, the per-tick scheduler and buffer
//! routing, tick timing and the timing accountant, the saved workspace
//! layout, and the video crossfade.
use vstd::prelude::*;

pub mod ids;
pub mod workspace;
pub mod schedule;
pub mod engine;
pub mod clock;
pub mod laws;
pub mod timing;
pub mod persist;
pub mod video_mix;

verus! {

} // verus!
