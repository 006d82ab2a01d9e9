//! A reversible byte-stream codec that carries 7-bit bytes, two at a time,
//! inside fixed-width units shaped like multi-byte UTF-8 sequences.
pub mod cipher;
pub mod laws;

pub use cipher::encrypt::{BytePairs, ByteSource, Encrypter, SliceSource};
pub use cipher::extended::Extended;
pub use cipher::{decrypt_size, encrypt_size, BytePair, Cipher, DecodingError, Simple};
