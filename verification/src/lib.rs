//! A document-transformation engine that applies public-key cryptography to
//! nested JSON-like documents: selective encryption of designated fields,
//! recursive best-effort decryption of previously encrypted values, and
//! detached signing / verification of a document's canonical text.
//!
//! The unit of work is [`doc::Document`], a closed tagged-variant tree.  Its
//! canonical textual form (module `canon`) is both the plaintext that field
//! encryption protects and the byte string that signatures cover; module
//! `parse` is the exact inverse of that form.  The RSA, base64 and SHA-256
//! primitives live behind a small trusted layer in `keys`.

pub mod canon;
pub mod config;
pub mod decryptor;
pub mod doc;
pub mod encryptor;
pub mod keys;
pub mod parse;
pub mod signature;
