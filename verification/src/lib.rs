//! Inspection of another process's memory: locating the process, listing its
//! mapped regions, scanning them for byte signatures and decoding typed values
//! at known addresses.

pub mod memory;
