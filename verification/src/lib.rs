//! Build a directory tree from a YAML description, a Filefile, and write
//! the Filefile of an existing tree.
//!
//! The library decides; the caller reads and writes. The text of a Filefile
//! is read by serde_yaml into a [`yaml::YamlValue`] and made into
//! [`node::Node`]s by [`node::nodes_of_text`];
//! [`commands::ApplyCommand::plan`] lists the steps that apply them. A tree
//! on disk is read through a [`walk::TreeWalk`], which asks for one
//! directory listing at a time, and written out as text by
//! [`node::filefile_text`].
pub mod text;
pub mod paths;
pub mod operations;
pub mod yaml;
pub mod node;
pub mod filefile;
pub mod context;
pub mod commands;
pub mod walk;
pub mod dfs;
