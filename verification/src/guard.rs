//! Deletion guard: the policy deciding whether a processed source directory
//! may be removed.
//!
//! A source directory may go only when deletion is enabled for the run, every
//! file in it was copied and removed without error, and none of its
//! subdirectories is still awaiting processing. Children must disappear
//! before their parent: removing a directory while a child is still queued
//! would orphan that child's source path.

use vstd::prelude::*;

verus! {

/// The guard's decision: deletion enabled, every file removed cleanly, and no
/// subdirectory still pending.
pub open spec fn may_delete_spec(
    delete_enabled: bool,
    all_files_removed: bool,
    has_pending_subdirs: bool,
) -> bool {
    delete_enabled && all_files_removed && !has_pending_subdirs
}

/// Decide whether a drained source directory may be removed.
pub fn may_delete(delete_enabled: bool, all_files_removed: bool, has_pending_subdirs: bool) -> (r:
    bool)
    ensures
        r == may_delete_spec(delete_enabled, all_files_removed, has_pending_subdirs),
{
    delete_enabled && all_files_removed && !has_pending_subdirs
}

/// A directory in which some file operation failed is never authorized for
/// removal, and neither is one with a subdirectory still awaiting processing,
/// whatever the run's configuration.
pub proof fn lemma_guard_is_conservative(
    delete_enabled: bool,
    all_files_removed: bool,
    has_pending_subdirs: bool,
)
    ensures
        !all_files_removed ==> !may_delete_spec(
            delete_enabled,
            all_files_removed,
            has_pending_subdirs,
        ),
        has_pending_subdirs ==> !may_delete_spec(
            delete_enabled,
            all_files_removed,
            has_pending_subdirs,
        ),
        !delete_enabled ==> !may_delete_spec(
            delete_enabled,
            all_files_removed,
            has_pending_subdirs,
        ),
{
}

} // verus!
