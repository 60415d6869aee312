//! A content-addressable object store in the style of git: objects (blobs,
//! trees, commits) are identified by the SHA-1 digest of their uncompressed
//! framed bytes, serialized in a binary format, compressed as zlib streams,
//! and persisted under a two-level fan-out directory derived from the digest.

pub mod codec;
pub mod commands;
pub mod commit;
pub mod hashing;
pub mod store;
pub mod tree;
pub mod types;
pub mod util;
pub mod zlib;

pub use types::Blob;
pub use types::Commit;
pub use types::ObjError;
pub use types::Object;
pub use types::Tree;
pub use types::TreeEntry;
pub use types::TreeEntryMode;
