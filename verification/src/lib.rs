//! A password-encrypted key-value container held in a single file.
//!
//! The container is an append-only log of 16-byte blocks. The first block is
//! the salt of the key derivation, the second the encrypted integrity
//! constant, and every entry behind them is a pair of encoded sequences: the
//! identifier, then the payload. Everything behind the salt is encrypted
//! with a key derived from the password, and every sequence carries a
//! checksum that is tested when it is read.
//!
//! The library works on the image of the file in memory. Reading the image
//! from a file and writing it back is the caller's part.
//!
//! - `types`: the failures, and the traits for streams of blocks;
//! - `block`: blocks and their bytes;
//! - `memory`: streams held in memory, among them the image of the file;
//! - `cipher`: the block cipher and the derivation of its key;
//! - `codec`: what an encoded sequence is;
//! - `directory`: what a scan of the entries finds;
//! - `file`: the container and its operations;
//! - `laws`: what holds of a container across its operations.

pub mod block;
pub mod cipher;
pub mod codec;
pub mod directory;
pub mod file;
pub mod laws;
pub mod memory;
pub mod types;
