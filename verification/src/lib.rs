//! State engine of a per-user package manager for command-line tools.
//!
//! The crate keeps the record of which versions of which packages are known,
//! where their downloads lie and which version is installed, and it works out
//! the shim files and the search-path changes that make an installed binary
//! reachable by its bare name. It touches neither files nor processes: what
//! is to be written, deleted or run comes back as plain values.
//!
//! - [`version`]: versions, their precedence, and requirements on them.
//! - [`history`]: what it means to keep versions in descending order.
//! - [`kernel`]: the state itself and the start of the program.
//! - [`shim`]: the files that make a binary a command.
//! - [`system`]: the search path and the commands to run.
//! - [`manifest`], [`blueprint`]: what a package declares, and the index of
//!   the files that declare it.
//! - [`path`], [`registry`], [`result`]: paths as text, maps keyed by name,
//!   and the error type.

pub mod blueprint;
pub mod history;
pub mod kernel;
pub mod manifest;
pub mod path;
pub mod registry;
pub mod result;
pub mod shim;
pub mod system;
pub mod version;
