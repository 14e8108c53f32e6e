//! Per-directory decisions: what the processor does with each entry found
//! when listing a source directory.
//!
//! Regular files are copied (and, on success, removed when the run deletes
//! its source); subdirectories are reported back to the scheduler rather
//! than recursed into; every other entry kind is skipped. The summary of the
//! per-file outcomes decides whether the directory counts as fully drained.

use vstd::prelude::*;

verus! {

/// The kind of a directory entry, as the listing reports it.
#[derive(Debug, Clone, Copy, PartialEq, Eq, Structural)]
pub enum EntryKind {
    File,
    Directory,
    Other,
}

/// One entry of a directory listing: its name and its kind.
pub struct DirEntry {
    pub name: String,
    pub kind: EntryKind,
}

/// What the processor decided for one directory: which names to copy as
/// files, which to hand back as subdirectories, and which to skip.
pub struct DirPlan {
    pub copies: Vec<String>,
    pub subdirs: Vec<String>,
    pub skipped: Vec<String>,
}

/// The names of the regular files among `s`, in listing order.
pub open spec fn file_names(s: Seq<DirEntry>) -> Seq<String>
    decreases s.len(),
{
    if s.len() == 0 {
        Seq::empty()
    } else if s.last().kind is File {
        file_names(s.drop_last()).push(s.last().name)
    } else {
        file_names(s.drop_last())
    }
}

/// The names of the subdirectories among `s`, in listing order.
pub open spec fn dir_names(s: Seq<DirEntry>) -> Seq<String>
    decreases s.len(),
{
    if s.len() == 0 {
        Seq::empty()
    } else if s.last().kind is Directory {
        dir_names(s.drop_last()).push(s.last().name)
    } else {
        dir_names(s.drop_last())
    }
}

/// The names of the entries of any other kind among `s`, in listing order.
pub open spec fn other_names(s: Seq<DirEntry>) -> Seq<String>
    decreases s.len(),
{
    if s.len() == 0 {
        Seq::empty()
    } else if s.last().kind is Other {
        other_names(s.drop_last()).push(s.last().name)
    } else {
        other_names(s.drop_last())
    }
}

/// Partition a directory listing into files to copy, subdirectories to
/// report, and entries to skip, keeping the listing order within each group.
pub fn plan_directory(entries: Vec<DirEntry>) -> (p: DirPlan)
    ensures
        p.copies@ == file_names(entries@),
        p.subdirs@ == dir_names(entries@),
        p.skipped@ == other_names(entries@),
{
    let mut copies: Vec<String> = Vec::new();
    let mut subdirs: Vec<String> = Vec::new();
    let mut skipped: Vec<String> = Vec::new();
    let ghost all = entries@;
    let mut rest = entries;
    while rest.len() > 0
        invariant
            rest@.len() <= all.len(),
            rest@ =~= all.skip(all.len() - rest@.len()),
            copies@ =~= file_names(all.take(all.len() - rest@.len())),
            subdirs@ =~= dir_names(all.take(all.len() - rest@.len())),
            skipped@ =~= other_names(all.take(all.len() - rest@.len())),
        decreases rest.len(),
    {
        let ghost k = all.len() - rest@.len();
        let e = rest.remove(0);
        proof {
            assert(0 <= k < all.len());
            assert(e == all[k]);
            assert(all.take(k + 1).drop_last() =~= all.take(k));
            assert(all.take(k + 1).last() == all[k]);
            assert(rest@ =~= all.skip(k + 1));
        }
        match e.kind {
            EntryKind::File => copies.push(e.name),
            EntryKind::Directory => subdirs.push(e.name),
            EntryKind::Other => skipped.push(e.name),
        }
    }
    proof {
        assert(all.take(all.len() as int) =~= all);
    }
    DirPlan { copies, subdirs, skipped }
}

/// The outcome of handling one regular file: whether its copy succeeded,
/// and whether the source file is gone afterwards.
#[derive(Debug, Clone, Copy, PartialEq, Eq, Structural)]
pub struct FileOutcome {
    pub copied: bool,
    pub removed: bool,
}

/// Every file of the directory was copied and its source removed.
pub open spec fn all_removed_spec(s: Seq<FileOutcome>) -> bool {
    forall|i: int| 0 <= i < s.len() ==> s[i].copied && s[i].removed
}

/// Aggregate the per-file outcomes of one directory: true exactly when every
/// file was copied and its source removed, so that the deletion guard may
/// consider the directory drained. Any copy or removal failure demotes the
/// whole directory.
pub fn all_files_removed(outcomes: &Vec<FileOutcome>) -> (r: bool)
    ensures
        r == all_removed_spec(outcomes@),
{
    let mut i: usize = 0;
    while i < outcomes.len()
        invariant
            i <= outcomes.len(),
            forall|j: int| 0 <= j < i ==> outcomes@[j].copied && outcomes@[j].removed,
        decreases outcomes.len() - i,
    {
        if !(outcomes[i].copied && outcomes[i].removed) {
            return false;
        }
        i += 1;
    }
    true
}

} // verus!
