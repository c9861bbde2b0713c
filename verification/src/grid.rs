//! The cells of the source grid and the writes to the destination grid.
use vstd::prelude::*;

verus! {

/// One position in the source grid. Rows and columns are counted from 0, and
/// row 0 is the header row.
#[derive(Clone, Copy, PartialEq, Eq, Structural, Debug)]
pub struct CellLocation {
    pub row: u32,
    pub column: u16,
}

/// What a cell of the source grid holds.
#[derive(Clone, PartialEq, Eq, Debug)]
pub enum CellValue {
    /// Nothing.
    Empty,
    /// A text.
    Text(String),
    /// A value of another type, which is final as it stands.
    Other,
}

/// A cell of the source grid.
#[derive(Clone, PartialEq, Eq, Debug)]
pub struct SourceCell {
    pub location: CellLocation,
    pub value: CellValue,
}

/// A text to be written at a location of the destination grid.
#[derive(Clone, PartialEq, Eq, Debug)]
pub struct CellWrite {
    pub location: CellLocation,
    pub text: String,
}

/// A write as a plain value: the location and the text.
pub type Written = (CellLocation, Seq<char>);

impl View for CellWrite {
    type V = Written;

    open spec fn view(&self) -> Written {
        (self.location, self.text@)
    }
}

/// The writes of a sequence, as plain values.
pub open spec fn write_views(writes: Seq<CellWrite>) -> Seq<Written> {
    Seq::new(writes.len(), |i: int| writes[i]@)
}

} // verus!
