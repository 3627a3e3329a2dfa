//! Persistence: the log, the snapshot and the text format of log records.

mod error;
pub mod format;
pub mod script;
pub mod snapshot;
pub mod wal;

pub use error::{law_errors_tell_where_and_why, PersistenceError, PersistenceErrorView};
pub use script::{DocumentRead, FileEvent, FileOperation, FileScript, FileStep};
pub use snapshot::{LoadedSnapshot, SnapshotFile, SnapshotMetadata, SnapshotRepository};
pub use wal::Wal;
