//! Directory-tree patch bundles: a typed manifest of per-file changes with
//! payload blobs, a deterministic binary codec, trailer-framed packaging into
//! a self-applying executable image, and the verify-then-apply algorithm.

pub mod applier;
pub mod builder;
pub mod codec;
pub mod container;
pub mod delta;
pub mod hashing;
pub mod laws;
pub mod tree;
pub mod types;

pub use types::FileEntry;
pub use types::Manifest;
pub use types::PatchBundle;
pub use types::PatchData;
pub use types::PatchError;
pub use types::PatchKind;
