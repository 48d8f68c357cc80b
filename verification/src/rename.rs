//! Renaming, in one place: what names say, what contents hash to, and plans.

pub use crate::digest::{hash_file, hash_file_chunks, verify_hash};
pub use crate::names::{
    already_suffixed,
    has_hash_suffix,
    is_system_file,
    is_video,
    passes_filters,
    target_for,
};
pub use crate::plan::{Action, RenameOperation, Report};
