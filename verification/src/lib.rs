//! Analysis of legacy project description files: dependency graphs, filtered
//! listings and generated solution files.
//!
//! The library works on plain values. Paths are sequences of components
//! ([`path_extensions`]); the contents of a file are bytes; whatever has to
//! be looked up on disk is looked up by the caller and handed in.
//!
//! - [`csproj`] reads off a project file what it says, and
//!   [`project_graph`] discovers the projects that a set of seeds leads to.
//! - [`list`] selects projects and lets the selection spread along their
//!   references.
//! - [`dependency_graph`] writes the graph of the projects as DOT text;
//!   [`longest_path`] tells which of its edges have a longer way around
//!   them.
//! - [`sln`] builds the folder tree of a solution, gives every node its
//!   identifier, and writes the solution.
//! - [`post_migration_cleanup`] and [`move_command`] hold the rules by which
//!   project files are edited.

pub mod csproj;
pub mod dependency_graph;
pub mod framework;
pub mod list;
pub mod longest_path;
pub mod move_command;
pub mod order;
pub mod path_extensions;
pub mod path_order;
pub mod post_migration_cleanup;
pub mod project_graph;
pub mod sln;
pub mod text;
pub mod utils;
pub mod xml;
pub mod xml_extensions;
