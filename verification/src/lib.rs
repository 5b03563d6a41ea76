//! A bounded, per-identity status store.
//!
//! Each identity can publish a short text status. The store keeps the
//! identity's current status, a bounded rolling history of that identity's
//! past statuses, and a bounded rolling feed merging all identities' recent
//! statuses, with substring search over the feed.

pub mod store;
pub mod text;
