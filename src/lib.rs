//! Extraction of XP3 archives, the container format of the Kirikiri engine.
pub mod stream;
pub mod text;
pub mod archive;
pub mod inflate;
pub mod locate;
pub mod chunk;
pub mod index;
pub mod extract;
pub mod types;
pub mod formats;
pub mod laws;
pub mod relocation;
pub mod roundtrip;
