//! Change detection for a tracked collection of items (files in a tree).
//!
//! A [`TreeState`] records, for each tracked item identity, a captured
//! [`FileState`]: byte length, last-modified timestamp, and a content digest.
//! It can be serialized to bytes, restored, and queried for whether any
//! tracked item differs from a live observation of it. The cheap metadata
//! comparison settles most queries; the content digest decides the rest.

pub mod codec;
pub mod laws;
pub mod state;
pub mod tree;

pub use codec::DecodeError;
pub use state::Digest;
pub use state::FileMeta;
pub use state::FileState;
pub use state::Observation;
pub use state::State;
pub use state::Timestamp;
pub use state::Verdict;
pub use tree::TreeState;
