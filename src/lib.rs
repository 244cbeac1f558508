//! Selecting the files of a repository archive and laying them out as one
//! amalgamated text.

pub mod action;
pub mod archive;
pub mod order;
pub mod output;
pub mod render;
pub mod rows;
pub mod session;
pub mod tree;
pub mod url;
