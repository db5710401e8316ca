//! Writers that build script data documents one value at a time.
use vstd::prelude::*;

verus! {

/// A table being written, by number.
pub struct TableId(pub u64);

/// A key was written twice in one table.
pub struct DuplicateKey;

/// A table id that names no table being written.
pub struct DanglingTableId;

/// Writes a table where a value is expected: a new one, or one already
/// begun, again.
pub trait TableWriter: Sized {
    type Next;

    fn new_table(self, meta: Option<&str>) -> (TableId, Self::Next);

    fn resume_table(self, table: TableId) -> Result<(TableId, Self::Next), DanglingTableId>;
}

/// Finishes a document.
pub trait RootWriter: Sized {
    type Output;

    fn finish(self) -> Self::Output;
}

} // verus!
