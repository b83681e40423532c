//! Content-addressed blobs over HTTP: content identifiers, magnet links,
//! integrity-checked fetching, peer trust and gossip decisions.
pub mod cid;
pub mod url;
pub mod form;
pub mod query;
pub mod magnet;
pub mod random;
pub mod peers;
pub mod util;
pub mod node;
pub mod rasl;
