//! The three record codecs.
pub mod bin;
pub mod csv;
pub mod txt;
