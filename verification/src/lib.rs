//! Entropy-adaptive archiving: files whose bytes look dense are stored raw,
//! the others are gathered into one nested container that is compressed
//! as a unit.

pub mod accuracy;
pub mod archive;
pub mod config;
pub mod container;
pub mod entropy;
pub mod entry;
pub mod fixed;
pub mod gzip;
pub mod histogram;
pub mod laws;
pub mod pack;
pub mod path;
pub mod unpack;
