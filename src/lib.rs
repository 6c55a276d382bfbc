//! A version-control engine over a content-addressed store: immutable
//! commits, a common-ancestor search over the commit graph, and a
//! three-way structural merge of content trees.

pub mod types;
pub mod store;
pub mod merge;
pub mod ancestor;
pub mod commit;
pub mod documents;
