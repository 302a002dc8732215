//! Planning and path logic for a batch game-archive unpacking workflow:
//! locating archive and script files by extension, rotating the output
//! directory with a single backup generation, mirroring extra files,
//! decrypting and unpacking archives through an external decryptor and a
//! zip container, sequencing the browser-and-input steps that submit each
//! script to a remote decompiler, and naming the result files.
//!
//! Everything that decides or computes lives here and carries a contract;
//! the surrounding program only performs the produced filesystem and
//! user-interface actions.

pub mod paths;
pub mod locate;
pub mod plan;
pub mod unpack;
pub mod automation;

