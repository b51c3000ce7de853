//! Owned-buffer byte streams for the data plane, and the layout report of a
//! cluster.
//!
//! The data path hands bytes from layer to layer one chunk at a time. The
//! modules `stream`, `window`, `pump`, `raw` and `fill` hold the reader and
//! writer traits, their in-memory implementations, and the loops that move bytes
//! between them. What such a loop decides is also available step by step
//! (`Window`, `Transfer`, `Fill`), for callers that have to wait between two
//! steps. The modules `events`, `laws` and `bytewise` say what all of this
//! amounts to.
//!
//! The modules `nodes`, `liveness` and `topology` render the declared nodes of
//! a cluster as text, and the module `reading` says what a reader finds there.
pub mod buffer;
pub mod bytewise;
pub mod error;
pub mod events;
pub mod fill;
pub mod laws;
pub mod liveness;
pub mod nodes;
pub mod pump;
pub mod raw;
pub mod reading;
pub mod stream;
pub mod text;
pub mod topology;
pub mod window;
