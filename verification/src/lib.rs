//! A tag-based view over a file tree: files are indexed by the tags they
//! carry, and a directory of the view holds the files that carry every tag
//! named on the path that leads to it.
//!
//! - [`store`] is the tag index: tags, tracked files, and assignments.
//! - [`names`] splits paths into segments and builds leaf names.
//! - [`resolver`] takes paths to tags and files, and lists directories.
//! - [`identity`] gives directories and files their inode numbers.
//! - [`engine`] holds the filesystem callbacks.
//! - [`migrator`] brings the schema of a store up to date.
//! - [`pool`] decides which thread holds which connection to the store.
//! - [`notify`] says what listeners are told, and how.
//! - [`mount`] is the lifecycle of one mount.
//! - [`errors`] is the error taxonomy.
//!
//! The library performs no input or output. Its callers read the store file,
//! talk to the kernel and to other processes, and hand plain values in and
//! out.

pub mod engine;
pub mod errors;
pub mod identity;
pub mod migrator;
pub mod mount;
pub mod names;
pub mod notify;
pub mod pool;
pub mod resolver;
pub mod store;
