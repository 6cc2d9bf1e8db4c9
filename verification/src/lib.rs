//! A single-user calendar: an in-memory event store with a monotonic id
//! allocator, a line-delimited text codec for saving and loading it, and a
//! chronological "upcoming events" query over string-shaped dates and times.

pub mod clock;
pub mod codec;
pub mod event;
pub mod laws;
pub mod numeric;
pub mod store;
pub mod strutil;

use vstd::prelude::*;

verus! {

} // verus!
