//! Resolution of a video host's hosting-page links into playable stream
//! manifest URLs: the host hides the address behind two chained script
//! obfuscation schemes, which this library reverses.

pub mod text;
pub mod error;
pub mod decimal;
pub mod cipher;
pub mod cipher_laws;
pub mod packer;
pub mod extract;
pub mod resolver;
pub mod session;
pub mod catalog;
