//! The process model and everything that reads through it.

pub mod error;
pub mod signature;
pub mod text;
pub mod endian;
pub mod uleb128;
pub mod wide;
pub mod process;
pub mod scan;
pub mod linux;
pub mod maps;
pub mod locate;
