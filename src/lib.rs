//! Shape-aware query results: a closed model of the four result shapes,
//! the transformations between them, a byte codec for caching, the cache
//! store decisions, the query parameters and answers, and an owning handle
//! that dispatches on the shape.

pub mod shape;
pub mod transform;
pub mod codec;
pub mod store;
pub mod handle;
pub mod query;
pub mod response;
