//! Update-resolution library: decides, from a directory listing of signed
//! release artifacts and a client's current version, whether a newer artifact
//! exists and what download descriptor to offer.

pub mod gate;
pub mod resolver;
pub mod response;
pub mod scanner;
pub mod service;
pub mod version;
