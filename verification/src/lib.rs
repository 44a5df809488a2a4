//! The engine of an archive reader: formats recognised, listed and unpacked.
pub mod archive;
pub mod bytes;
pub mod datetime;
pub mod decompress;
pub mod delivery;
pub mod detect;
pub mod encoding;
pub mod error;
pub mod extract;
pub mod format;
pub mod opener;
pub mod path_safety;
pub mod paths;
pub mod text;
