//! Character-to-glyph resolution over the `cmap` table of an OpenType/TrueType font.
//!
//! The table is read through bounds-checked big-endian cursors; Format 4 (segment mapping
//! to delta values) and Format 12 (segmented coverage) subtables are supported.

use vstd::prelude::*;

pub mod error;
pub mod reader;
pub mod charmap;
pub mod model;
pub mod cmap;
pub mod laws;
pub mod truncation;




pub use charmap::{CodepointRange, GlyphMapping, GlyphRange, MappedGlyphRange};
pub use cmap::{CmapTable, FontTable};
pub use error::FontError;
