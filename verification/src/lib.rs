//! A queue of shell commands kept one per line in a text file.
pub mod adapters;
pub mod domain;
pub mod features;
