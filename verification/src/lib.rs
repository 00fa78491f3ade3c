//! A verified Base64 codec (RFC 4648 alphabet, `=` padding) together with a
//! small semantic-version type that can be parsed from text, compared, and
//! printed back.

mod ascii;

pub mod base64;
pub mod semantic_version;

pub use semantic_version::SemVer;
