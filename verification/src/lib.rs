//! A request-batching loader.
//!
//! Many concurrent consumers ask for individual items by key; the loader
//! coalesces all keys requested during one wave of concurrent work into a
//! single bulk fetch, then fans the results back out to each waiting
//! consumer.  The per-key bookkeeping and the dispatch decisions are plain
//! data-structure logic and are verified here; an asynchronous shell drives
//! them from an event loop.

pub mod datamodel;
pub mod dataloader;
pub mod laws;
pub mod loaders;
pub mod model;
pub mod schema;
