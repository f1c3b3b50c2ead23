//! Unpacks and repacks Android ROM zips.
pub mod apart;
pub mod archive;
pub mod br;
pub mod build;
pub mod bytes;
pub mod cli;
pub mod dat;
pub mod error;
pub mod extract;
pub mod factory;
pub mod fs;
pub mod laws;
pub mod paths;
pub mod rom;
pub mod sdat;
pub mod text;
pub mod visits;
pub mod words;
