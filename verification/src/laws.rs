//! What holds of the library as a whole, said of rows, fields and texts alone: what
//! every operation owes for all that it may be given, and how two of them relate.

pub mod edges;
pub mod headcounts;
pub mod infer;
pub mod io;
pub mod lines;
pub mod model;
pub mod order;
pub mod paths;
pub mod people;
pub mod render;
pub mod search;
pub mod seniority;
pub mod sequences;
pub mod tables;
pub mod text;
pub mod tree;
pub mod walk;
