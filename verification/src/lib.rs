//! A content-addressed interning pool.
//!
//! Values are canonicalized by the digest of their canonical byte
//! encoding, so structurally identical values share one stored copy.
//! Each stored copy is tracked by a reference count of outstanding
//! handles and is evicted exactly when the last handle is released.

pub mod canon;
pub mod digest;
pub mod pool;

pub use canon::CanonicalSource;
pub use canon::CanonicalView;
pub use pool::Interned;
pub use pool::Interner;
