//! The editing core of a client-side photo editor.
//!
//! Every operation works on plain values: RGBA byte buffers, 8-bit masks and
//! small records. Contracts are stated over `Seq`, `int` and spec functions
//! of this crate.
pub mod blur;
pub mod clone;
pub mod curves;
pub mod editor;
pub mod export;
pub mod fill;
pub mod hash;
pub mod heal;
pub mod layers;
pub mod layout;
pub mod levels;
pub mod noise;
pub mod number;
pub mod ops;
pub mod pixels;
pub mod raw;
pub mod selection;
pub mod single;
pub mod state;
pub mod text;
pub mod wand;
