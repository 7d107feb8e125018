//! Path virtualization for a shim that is injected into a Windows host and
//! redirects a fixed set of directories to locations the user chose.
//!
//! The host asks the operating system for files under its own
//! installation. The shim stands in front of the file functions, and this
//! library decides for each call what is passed on: the caller's own path,
//! or the path under the directory that stands in for the one asked for.
//!
//! * `grammar`, `clean` and `join` say how a Windows path falls into
//!   components, how it is cleaned, and how one path is resolved against
//!   another.
//! * `normalized`, `splice` and `registry` hold the paths in normal form,
//!   the splice of a path from a source root onto a target root, and the
//!   ordered list of roots with its first-match rule.
//! * `wide`, `detour`, `ntname` and `enumeration` decide what each
//!   intercepted call forwards, from the wide strings it was given.
//! * `hooks` and `startup` decide in which order the hooks go in and how
//!   the shim starts.
//! * `laws` states what holds of all of this; `shape`, `rejoin`, `settle`
//!   and `tally` hold the lemmas it rests on.

pub mod clean;
pub mod detour;
pub mod enumeration;
pub mod grammar;
pub mod hooks;
pub mod join;
pub mod laws;
pub mod normalized;
pub mod ntname;
pub mod registry;
pub mod rejoin;
pub mod settle;
pub mod shape;
pub mod splice;
pub mod startup;
pub mod tally;
pub mod text;
pub mod wide;

pub use normalized::NormalizedPath;
pub use registry::{remap_path, PathMapping, PathRegistry};
pub use splice::{logical_splice, splice_path};
pub use wide::{path_to_widestring, pcwstr_to_path};
