//! A minimal version-control engine: a content-addressed object store, the
//! blob / tree / commit codecs, the HEAD and branch model, tree building and
//! walking, the status and checkout-safety engine, and history traversal.
//!
//! All state is held in memory; loading it from disk and writing it back is
//! left to the caller.
pub mod builder;
pub mod bytes;
pub mod commit;
pub mod diff;
pub mod digest;
pub mod error;
pub mod hex;
pub mod history;
pub mod ignore;
pub mod layout;
pub mod logfmt;
pub mod object;
pub mod repo;
pub mod roundtrip;
pub mod sort;
pub mod store;
pub mod table;
pub mod text;
pub mod time;
pub mod walk;
pub mod worktree;
