//! A map from keys to values that also keeps its keys ordered by a separate
//! order value (a timestamp, a sequence number), so that the entry with the
//! smallest or largest order can be found and evicted without a scan.
//!
//! Keys that share an order value are kept together in a bucket, in the order
//! in which they joined it. The buckets live in an [`store::OrderedStore`]: an
//! in-memory ordered map here, or a persistent store whose records are written
//! with the encodings of [`codec`].
use vstd::prelude::*;

pub mod bucket;
pub mod codec;
pub mod laws;
pub mod map;
pub mod store;

pub use map::OrderedHashMap;
pub use store::OrderedStore;

verus! {

} // verus!
