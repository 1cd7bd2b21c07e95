//! What holds of the map of every project, over what is read and what is printed.
pub mod analysis;
pub mod extraction;
pub mod manifests;
pub mod platforms;
pub mod printed;
pub mod project_files;
pub mod relative_imports;
pub mod rust_paths;
pub mod syntax_trees;
pub mod texts;
