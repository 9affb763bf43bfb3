//! Client-side layer of an embedded key-value storage engine: iteration over
//! wide-column result sets, and construction, serialization, and replay of
//! write batches (atomic groups of put/delete/entity mutations staged as a
//! binary log).

pub mod encoding;
pub mod error;
pub mod wide_columns;
pub mod write_batch;

pub use error::Error;
pub use wide_columns::{Iterable, PinnableWideColumns, PinnableWideColumnsIter, WideColumn, WideColumns,
    WideColumnsIter};
pub use write_batch::{BatchOp, ColumnFamily, WriteBatch, WriteBatchIterator};
pub use encoding::Op;
