//! Rich data types (blobs, double-ended lists and keyed tables) layered on
//! one ordered byte-keyed store, with every value carried in a tagged record
//! and every container addressed by composite keys built from escaped names.
use vstd::prelude::*;

pub mod endian;
pub mod escaping;
pub mod keys;
pub mod record;
pub mod segment;
pub mod store;
pub mod conn;
pub mod blob;
pub mod error;
pub mod list;
pub mod table;

pub use conn::Conn;
pub use error::EngineError;
pub use keys::{bare, blob, decode_list_index, encode_list_index, list, list_meta, table, table_meta, ListIndex, INDEX_BYTES};
pub use record::{Record, RecordError, Tag};

verus! {

} // verus!
