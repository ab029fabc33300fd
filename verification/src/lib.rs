//! A hierarchical token bucket: a tree of rate-limited buckets that all
//! draw from a shared root, with strict priority between siblings.
pub mod model;
pub mod numeric;
pub mod tree;

pub use model::Error;
pub use tree::{BucketCfg, TimeSpan, HTB};
