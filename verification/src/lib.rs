//! Password-based file encryption with AES-256-GCM and Argon2id.

pub mod bytes;
pub mod checks;
pub mod cipher;
pub mod container;
pub mod decrypt;
pub mod disk;
pub mod encrypt;
pub mod failure;
pub mod header;
pub mod job;
pub mod kdf;
pub mod secret;
pub mod shred;
pub mod tamper;
pub mod text;
