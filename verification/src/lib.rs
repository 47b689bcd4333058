//! Decoder for the Multi-Stream File (MSF) container format used by PDB
//! debug-information files, together with the PDB Info stream that resolves
//! stream names to stream indices.

pub mod msf;
pub mod pdb;
pub mod util;
