//! The errors that the engine hands to its callers.
use vstd::prelude::*;
use crate::list::ListError;
use crate::record::{RecordError, Tag};
use crate::table::TableError;

verus! {

#[derive(Debug)]
pub enum EngineError {
    List(ListError),
    Table(TableError),
    /// The store failed.
    Store(sled::Error),
    /// A stored value is not a record.
    Record(RecordError),
    /// A name holds a container of another kind: expected, found.
    BadType(Tag, Tag),
}

} // verus!
