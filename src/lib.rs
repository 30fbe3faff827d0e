//! Hide byte messages in the pixel data of RGB images and recover them.

pub mod cli;
pub mod compress;
pub mod crypto;
pub mod disguise;
pub mod image;
pub mod image_api;
pub mod payload;
pub mod steganography;

use vstd::prelude::*;

verus! {

/// Errors of the steganographic codec.
#[derive(Debug, PartialEq, Eq)]
pub enum StegError {
    /// No terminator was found in the image's bit stream.
    EncodingNotFound,
    /// The decoded bit stream could not be turned into bytes.
    Decoding(String),
    /// The message does not fit in the cover image.
    MessageTooLong { length: usize, capacity: usize },
    /// Compressing or decompressing the payload failed.
    Compression(CompressionError),
    /// Encrypting or decrypting the payload failed.
    Crypto(CryptoError),
    /// No cover image of the pool can hold the payload.
    NoCoverFits { length: usize },
    /// The payload is not valid base64 text.
    InvalidBase64,
    /// The options are unusable.
    InvalidConfiguration(cli::ConfigError),
    /// Unknown error.
    Unknown,
}

/// Errors of compression and decompression.
#[derive(Debug, Clone, Copy, PartialEq, Eq)]
pub enum CompressionError {
    /// The compressor failed.
    Compression,
    /// The decompressor failed.
    Decompression,
    /// The input was empty.
    EmptyData,
}

/// Errors of encryption and decryption.
#[derive(Debug, Clone, Copy, PartialEq, Eq)]
pub enum CryptoError {
    /// No usable salt.
    Salt,
    /// Deriving the key from the password failed.
    PasswordHash,
    /// The ciphertext did not decrypt (bad padding).
    Decryption,
    /// The input is not a container: too short, or without the "Salted__" prefix.
    InvalidContainer,
    /// Unknown error.
    Unknown,
}

} // verus!
