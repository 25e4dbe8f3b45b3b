//! Verified CSV transforms.

pub mod text;
pub mod csv;
pub mod roundtrip;
pub mod transforms;
pub mod markdown;
pub mod types;
pub mod columns;
pub mod model;
pub mod diagnostics;
pub mod stream;
pub mod stats;
pub mod editor;
pub mod cli;
pub mod release;
pub mod md_roundtrip;
