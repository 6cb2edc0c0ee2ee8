//! An in-memory hierarchical filesystem: paths, a tree of directories and
//! files, and the resolution of a path against that tree.

pub mod machine;
pub mod path;
pub mod tree;

pub use machine::{DirEntry, EntryView, Machine};
pub use path::{Path, PathView};
pub use tree::{AlreadyExistsError, Directory, File};
