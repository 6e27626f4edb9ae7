//! Codec for factory blueprint strings: envelope, content hash, binary
//! building stream, and identifier substitution over the parsed model.

pub mod blueprint;
pub mod bytes;
pub mod codec;
pub mod edit;
pub mod error;
pub mod frame;
pub mod hash;
pub mod items;
pub mod laws;
pub mod model;
pub mod replace;
pub mod text;
pub mod version;
