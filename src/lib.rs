//! Building and applying compact binary patches between two directory trees.
//!
//! The verified core: chunked dictionary deltas between file versions
//! (`delta`), their compression codec (`codec`), the classification of two
//! file sets (`tree`), the naming scheme of the patch artifact (`layout`),
//! the grouping of delta entries by file on application (`session`) and the
//! outcome of an application run (`report`).
pub mod codec;
pub mod delta;
pub mod layout;
pub mod report;
pub mod session;
pub mod tree;

pub use codec::{apply, create, fio_high_bit64, window_log, CodecError};
pub use delta::{diff_file, rebuild_file, ChunkDelta, ChunkOrderError, Rebuilt, CHUNK_SIZE};
pub use layout::{
    classify_entry, diff_entry_name, is_reserved_path, parse_diff_entry_name, parse_removal_list,
    removal_list, ArchiveEntry, DiffName, EntryKind, FormatError,
};
pub use report::{ApplyReport, RunOutcome};
pub use session::{push_delta, PendingFile};
pub use tree::{classify, Classification};
