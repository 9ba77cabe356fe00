//! What holds of the library as a whole, said of its inputs and results.

pub mod audit;
pub mod exports;
pub mod extract;
pub mod install;
pub mod json;
pub mod osv;
pub mod project;
pub mod sbom;
pub mod spec;
pub mod text;
pub mod tree;
