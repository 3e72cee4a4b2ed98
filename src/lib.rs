//! A small similarity-search store: records keyed by a caller-assigned
//! identifier, ranked against a query by scores that the caller computes.
pub mod rank;
pub mod score;
pub mod store;

pub use rank::top_k;
pub use score::order_key;
pub use store::{Id, InMemoryVectorStore, Record, SearchResult, Vector};
