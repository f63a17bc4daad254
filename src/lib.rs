//! Displays a byte slice the way a hex editor does: an address column, the bytes
//! in hexadecimal, and the same bytes as characters, optionally colored by range.
use vstd::prelude::*;

pub mod byte_mapping;
pub mod color;
pub mod format;

pub use byte_mapping::{codepage_0850, codepage_1252, codepage_ascii};
pub use color::Rgb;
pub use format::{Colors, HexView, HexViewBuilder, RenderError};

verus! {

} // verus!
