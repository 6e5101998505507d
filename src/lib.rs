//! Byte-exact codec for save files built from self-describing property lists.

pub mod error;
pub mod codec;
pub mod property;
pub mod package;
pub mod laws;
pub mod player;
pub mod archive;
