pub mod bytes;
pub mod crypto;
pub mod errors;
pub mod format;
pub mod kdf;
pub mod keystore;
pub mod lemmas;
pub(crate) mod reader;
