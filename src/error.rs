use vstd::prelude::*;

verus! {

/// Why a `cmap` query failed.
#[derive(Clone, Copy, Debug, PartialEq, Eq, Structural)]
pub enum FontError {
    /// A read went past the end of the table.
    UnexpectedEndOfData,
    /// The table's version word is not zero.
    UnsupportedCmapVersion,
    /// No encoding record names a Unicode encoding.
    UnsupportedCmapEncoding,
    /// The selected subtable is neither Format 4 nor Format 12.
    UnsupportedCmapFormat,
}

} // verus!
