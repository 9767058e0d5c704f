//! Persistence of a small service configuration: a service URL and an access
//! token, stored as a UTF-8 JSON object with exactly the two string fields
//! `url` and `token` in a per-user configuration directory.
//!
//! The library holds everything that can be stated and proved: the
//! configuration type, the error taxonomy, the JSON encoder and decoder for
//! the stored format, and the outcome of each persistence step as a function
//! of plain values. Reading and writing the file itself, and resolving the
//! per-user directory, are left to the surrounding application.

pub mod chars;
pub mod config;
pub mod decode;
pub mod encode;
pub mod laws;
pub mod store;
