//! Storage core of a content-addressable version-control engine: content
//! identifiers, the object model and its canonical byte forms, the object
//! store, the tree builder, the binary staging index and the
//! lock-then-rename protocol.
pub mod bytes;
pub mod checksum;
pub mod commit;
pub mod db;
pub mod index;
pub mod index_laws;
pub mod lockfile;
pub mod object;
pub mod oid;
pub mod repo;
pub mod tree;

pub use checksum::{Checksum, ChecksumError};
pub use commit::{Author, Commit};
pub use db::{Db, ObjectWrite, StoreError};
pub use index::{decode, encode, FileStat, Index, IndexEntry, IndexError};
pub use lockfile::{LockError, Lockfile};
pub use object::{frame, Blob, Object, ObjectKind};
pub use oid::{Oid, OidError};
pub use tree::{Tree, TreeEntry, TreeNode};
pub use repo::{Config, ConfigUser, Refs, Workspace};
