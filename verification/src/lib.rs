//! Cross-binary symbol propagation: given the static-analysis snapshots of an
//! *input* binary (with named symbols) and an *output* binary (stripped), the
//! library deduces which output address corresponds to each named input
//! function and records the result in a bind database.

pub mod adapter;
pub mod analysis;
pub mod batch;
pub mod db;
pub mod find;
pub mod process;
pub mod util;

pub use batch::Batch;
pub use db::{Address, Bind, BindDB, Block, Branch, Dest, ExecDB, ExecPair, Function, StringRef, Vtable};
pub use process::Oracle;
