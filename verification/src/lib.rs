//! Tools for npm packages: manifests and lockfiles, the registry, installs,
//! advisories and bills of materials.

#![allow(unused_imports)]

pub mod audit;
pub mod cache;
pub mod cli;
pub mod download;
pub mod extract;
pub mod install;
pub mod integrity;
pub mod json;
pub mod laws;
pub mod package_json;
pub mod path_safety;
pub mod project;
pub mod registry;
pub mod sbom;
pub mod sort;
pub mod text;
pub mod tree;
pub mod version;
