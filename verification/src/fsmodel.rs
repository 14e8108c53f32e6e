//! An in-memory filesystem for the replication engine.
//!
//! A tree is a set of directory paths and a set of file nodes (path plus
//! content), with two lists of paths whose copy or removal is forced to
//! fail, so that partial-failure behaviour can be exercised. Every operation
//! carries an exact contract over the membership predicates below; the
//! engine is proved against these contracts and runs on this model, while
//! the surrounding binary performs the same steps on the real filesystem.

use vstd::prelude::*;
use crate::paths::clone_path;
use crate::paths::is_under;
use crate::paths::parent_of;
use crate::paths::path_eq;
use crate::paths::path_starts_with;
use crate::paths::prefix_path;
use crate::paths::strictly_under;

verus! {

/// A regular file: its path and its content.
pub struct FileNode {
    pub path: Vec<String>,
    pub data: Vec<u8>,
}

/// The model tree.
pub struct ModelFs {
    pub files: Vec<FileNode>,
    pub dirs: Vec<Vec<String>>,
    pub fail_copy: Vec<Vec<String>>,
    pub fail_remove: Vec<Vec<String>>,
}

impl ModelFs {
    /// A file exists at `p`.
    pub open spec fn has_file(self, p: Seq<Seq<char>>) -> bool {
        exists|i: int|
            0 <= i < self.files@.len() && #[trigger] self.files@[i].path.deep_view() == p
    }

    /// The index of the file node at `p`.
    pub open spec fn file_idx_of(self, p: Seq<Seq<char>>) -> int {
        choose|i: int|
            0 <= i < self.files@.len() && #[trigger] self.files@[i].path.deep_view() == p
    }

    /// The content of the file at `p`.
    pub open spec fn data_at(self, p: Seq<Seq<char>>) -> Seq<u8> {
        self.files@[self.file_idx_of(p)].data@
    }

    /// A directory exists at `p`.
    pub open spec fn has_dir(self, p: Seq<Seq<char>>) -> bool {
        exists|i: int| 0 <= i < self.dirs@.len() && #[trigger] self.dirs@[i].deep_view() == p
    }

    /// Copying the file at `p` is forced to fail.
    pub open spec fn copy_fails(self, p: Seq<Seq<char>>) -> bool {
        exists|i: int|
            0 <= i < self.fail_copy@.len() && #[trigger] self.fail_copy@[i].deep_view() == p
    }

    /// Removing the file at `p` is forced to fail.
    pub open spec fn remove_fails(self, p: Seq<Seq<char>>) -> bool {
        exists|i: int|
            0 <= i < self.fail_remove@.len() && #[trigger] self.fail_remove@[i].deep_view() == p
    }

    /// No operation anywhere is forced to fail: a healthy run.
    pub open spec fn no_forced_failures(self) -> bool {
        self.fail_copy@.len() == 0 && self.fail_remove@.len() == 0
    }

    /// Handling the file at `p` leaves no trace: neither its copy nor its
    /// removal is forced to fail.
    pub open spec fn file_clean(self, p: Seq<Seq<char>>) -> bool {
        !self.copy_fails(p) && !self.remove_fails(p)
    }

    /// Well-formedness: paths are listed once, are non-empty, every file
    /// lies directly in a directory, and directories are closed under
    /// non-empty ancestors.
    pub open spec fn wf(self) -> bool {
        &&& (forall|i: int, j: int|
            0 <= i < j < self.files@.len() ==> #[trigger] self.files@[i].path.deep_view()
                != #[trigger] self.files@[j].path.deep_view())
        &&& (forall|i: int, j: int|
            0 <= i < j < self.dirs@.len() ==> #[trigger] self.dirs@[i].deep_view()
                != #[trigger] self.dirs@[j].deep_view())
        &&& (forall|i: int|
            0 <= i < self.files@.len() ==> #[trigger] self.files@[i].path.deep_view().len() >= 1)
        &&& (forall|i: int|
            0 <= i < self.files@.len() && #[trigger] self.files@[i].path.deep_view().len() >= 2
                ==> self.has_dir(parent_of(self.files@[i].path.deep_view())))
        &&& (forall|i: int|
            0 <= i < self.dirs@.len() ==> #[trigger] self.dirs@[i].deep_view().len() >= 1)
        &&& (forall|i: int, k: int|
            0 <= i < self.dirs@.len() && 1 <= k < self.dirs@[i].deep_view().len()
                ==> self.has_dir(#[trigger] self.dirs@[i].deep_view().take(k)))
    }

    /// The directory at `p` may actually be removed: it exists and nothing
    /// at all lives below it.
    pub open spec fn dir_removable(self, p: Seq<Seq<char>>) -> bool {
        &&& self.has_dir(p)
        &&& (forall|q: Seq<Seq<char>>| #[trigger] self.has_file(q) ==> !strictly_under(p, q))
        &&& (forall|q: Seq<Seq<char>>| #[trigger] self.has_dir(q) ==> !strictly_under(p, q))
    }

    /// In a well-formed tree the node at a file path is unique.
    pub proof fn lemma_file_idx(self, p: Seq<Seq<char>>)
        requires
            self.wf(),
            self.has_file(p),
        ensures
            0 <= self.file_idx_of(p) < self.files@.len(),
            self.files@[self.file_idx_of(p)].path.deep_view() == p,
            forall|i: int|
                0 <= i < self.files@.len() && #[trigger] self.files@[i].path.deep_view() == p
                    ==> i == self.file_idx_of(p),
    {
        let w = self.file_idx_of(p);
        assert(0 <= w < self.files@.len() && self.files@[w].path.deep_view() == p);
        assert forall|i: int|
            0 <= i < self.files@.len() && #[trigger] self.files@[i].path.deep_view() == p
            implies i == w by {
            if i < w {
                assert(self.files@[i].path.deep_view() != self.files@[w].path.deep_view());
            } else if w < i {
                assert(self.files@[w].path.deep_view() != self.files@[i].path.deep_view());
            }
        }
    }

    /// Well-formedness only reads the files and the directories, so states
    /// that agree on those agree on it.
    pub proof fn lemma_wf_unchanged(a: ModelFs, b: ModelFs)
        requires
            a.wf(),
            b.files == a.files,
            b.dirs == a.dirs,
        ensures
            b.wf(),
    {
        assert forall|p: Seq<Seq<char>>| #[trigger] b.has_dir(p) == a.has_dir(p) by {
            if a.has_dir(p) {
                let i = choose|i: int|
                    0 <= i < a.dirs@.len() && #[trigger] a.dirs@[i].deep_view() == p;
                assert(b.dirs@[i].deep_view() == p);
            }
            if b.has_dir(p) {
                let i = choose|i: int|
                    0 <= i < b.dirs@.len() && #[trigger] b.dirs@[i].deep_view() == p;
                assert(a.dirs@[i].deep_view() == p);
            }
        }
        assert forall|i: int|
            0 <= i < b.files@.len() && #[trigger] b.files@[i].path.deep_view().len()
                >= 2 implies b.has_dir(parent_of(b.files@[i].path.deep_view())) by {
            assert(a.has_dir(parent_of(a.files@[i].path.deep_view())));
        }
        assert forall|i: int, k: int|
            0 <= i < b.dirs@.len() && 1 <= k < b.dirs@[i].deep_view().len() implies b.has_dir(
            #[trigger] b.dirs@[i].deep_view().take(k),
        ) by {
            assert(a.has_dir(a.dirs@[i].deep_view().take(k)));
        }
    }

    /// The empty tree.
    pub fn empty() -> (fs: ModelFs)
        ensures
            fs.wf(),
            forall|p: Seq<Seq<char>>| !fs.has_file(p),
            forall|p: Seq<Seq<char>>| !fs.has_dir(p),
            fs.no_forced_failures(),
    {
        ModelFs { files: Vec::new(), dirs: Vec::new(), fail_copy: Vec::new(), fail_remove: Vec::new() }
    }

    /// Force the copy of the file at `p` to fail.
    pub fn force_copy_failure(&mut self, p: &Vec<String>)
        ensures
            final(self).files == old(self).files,
            final(self).dirs == old(self).dirs,
            final(self).fail_remove == old(self).fail_remove,
            forall|q: Seq<Seq<char>>|
                final(self).copy_fails(q) <==> old(self).copy_fails(q) || q == p.deep_view(),
            old(self).wf() ==> final(self).wf(),
    {
        let ghost n = self.fail_copy@.len();
        self.fail_copy.push(clone_path(p));
        proof {
            assert(self.fail_copy@[n as int].deep_view() == p.deep_view());
            assert forall|q: Seq<Seq<char>>|
                self.copy_fails(q) <==> old(self).copy_fails(q) || q == p.deep_view() by {
                if self.copy_fails(q) {
                    let i = choose|i: int|
                        0 <= i < self.fail_copy@.len() && #[trigger] self.fail_copy@[i].deep_view()
                            == q;
                    if i < n {
                        assert(old(self).fail_copy@[i].deep_view() == q);
                    }
                }
                if old(self).copy_fails(q) {
                    let i = choose|i: int|
                        0 <= i < old(self).fail_copy@.len()
                            && #[trigger] old(self).fail_copy@[i].deep_view() == q;
                    assert(self.fail_copy@[i].deep_view() == q);
                }
            }
            if old(self).wf() {
                ModelFs::lemma_wf_unchanged(*old(self), *self);
            }
        }
    }

    /// Force the removal of the file at `p` to fail.
    pub fn force_remove_failure(&mut self, p: &Vec<String>)
        ensures
            final(self).files == old(self).files,
            final(self).dirs == old(self).dirs,
            final(self).fail_copy == old(self).fail_copy,
            forall|q: Seq<Seq<char>>|
                final(self).remove_fails(q) <==> old(self).remove_fails(q) || q == p.deep_view(),
            old(self).wf() ==> final(self).wf(),
    {
        let ghost n = self.fail_remove@.len();
        self.fail_remove.push(clone_path(p));
        proof {
            assert(self.fail_remove@[n as int].deep_view() == p.deep_view());
            assert forall|q: Seq<Seq<char>>|
                self.remove_fails(q) <==> old(self).remove_fails(q) || q == p.deep_view() by {
                if self.remove_fails(q) {
                    let i = choose|i: int|
                        0 <= i < self.fail_remove@.len()
                            && #[trigger] self.fail_remove@[i].deep_view() == q;
                    if i < n {
                        assert(old(self).fail_remove@[i].deep_view() == q);
                    }
                }
                if old(self).remove_fails(q) {
                    let i = choose|i: int|
                        0 <= i < old(self).fail_remove@.len()
                            && #[trigger] old(self).fail_remove@[i].deep_view() == q;
                    assert(self.fail_remove@[i].deep_view() == q);
                }
            }
            if old(self).wf() {
                ModelFs::lemma_wf_unchanged(*old(self), *self);
            }
        }
    }

    /// Whether a directory exists at `p`.
    pub fn dir_exists(&self, p: &Vec<String>) -> (r: bool)
        ensures
            r == self.has_dir(p.deep_view()),
    {
        find_path(&self.dirs, p).is_some()
    }

    /// Whether a file exists at `p`.
    pub fn file_exists(&self, p: &Vec<String>) -> (r: bool)
        ensures
            r == self.has_file(p.deep_view()),
    {
        self.find_file(p).is_some()
    }

    /// The content of the file at `p`.
    pub fn data_of(&self, p: &Vec<String>) -> (r: Vec<u8>)
        requires
            self.wf(),
            self.has_file(p.deep_view()),
        ensures
            r@ == self.data_at(p.deep_view()),
    {
        let i = self.find_file(p).unwrap();
        proof {
            self.lemma_file_idx(p.deep_view());
        }
        clone_data(&self.files[i].data)
    }

    /// Create the directory at `p` and every missing ancestor. Idempotent:
    /// directories that already exist are left alone.
    pub fn mkdir_all(&mut self, p: &Vec<String>)
        requires
            old(self).wf(),
            p.deep_view().len() >= 1,
        ensures
            final(self).wf(),
            final(self).files == old(self).files,
            final(self).fail_copy == old(self).fail_copy,
            final(self).fail_remove == old(self).fail_remove,
            forall|q: Seq<Seq<char>>|
                final(self).has_dir(q) <==> old(self).has_dir(q) || (exists|k: int|
                    1 <= k <= p.deep_view().len() && q == #[trigger] p.deep_view().take(k)),
            final(self).has_dir(p.deep_view()),
    {
        let mut c: usize = 0;
        while c < p.len()
            invariant
                0 <= c <= p@.len(),
                p.deep_view().len() == p@.len() >= 1,
                self.wf(),
                self.files == old(self).files,
                self.fail_copy == old(self).fail_copy,
                self.fail_remove == old(self).fail_remove,
                forall|q: Seq<Seq<char>>|
                    self.has_dir(q) <==> old(self).has_dir(q) || (exists|j: int|
                        1 <= j <= c && q == #[trigger] p.deep_view().take(j)),
            decreases p@.len() - c,
        {
            let k = c + 1;
            let pre = prefix_path(p, k);
            proof {
                assert forall|j: int|
                    1 <= j < pre.deep_view().len() implies self.has_dir(
                    pre.deep_view().take(j),
                ) by {
                    assert(pre.deep_view().take(j) =~= p.deep_view().take(j));
                }
            }
            self.ensure_dir(pre);
            proof {
                assert forall|q: Seq<Seq<char>>|
                    self.has_dir(q) <==> old(self).has_dir(q) || (exists|j: int|
                        1 <= j <= k && q == #[trigger] p.deep_view().take(j)) by {
                    if self.has_dir(q) && !old(self).has_dir(q) && q != p.deep_view().take(
                        k as int,
                    ) {
                        let j = choose|j: int|
                            1 <= j <= c && q == #[trigger] p.deep_view().take(j);
                        assert(1 <= j <= k && q == p.deep_view().take(j));
                    }
                }
            }
            c = k;
        }
        proof {
            assert(p.deep_view().take(p.deep_view().len() as int) =~= p.deep_view());
            assert(self.has_dir(p.deep_view()));
        }
    }

    /// Add one directory whose ancestors already exist.
    fn ensure_dir(&mut self, d: Vec<String>)
        requires
            old(self).wf(),
            d.deep_view().len() >= 1,
            forall|k: int|
                1 <= k < d.deep_view().len() ==> old(self).has_dir(
                    #[trigger] d.deep_view().take(k),
                ),
        ensures
            final(self).wf(),
            final(self).files == old(self).files,
            final(self).fail_copy == old(self).fail_copy,
            final(self).fail_remove == old(self).fail_remove,
            forall|q: Seq<Seq<char>>|
                final(self).has_dir(q) <==> old(self).has_dir(q) || q == d.deep_view(),
    {
        if find_path(&self.dirs, &d).is_none() {
            let ghost n = self.dirs@.len();
            let ghost dv = d.deep_view();
            self.dirs.push(d);
            proof {
                assert(self.dirs@[n as int].deep_view() == dv);
                assert forall|q: Seq<Seq<char>>|
                    self.has_dir(q) <==> old(self).has_dir(q) || q == dv by {
                    if self.has_dir(q) {
                        let i = choose|i: int|
                            0 <= i < self.dirs@.len() && #[trigger] self.dirs@[i].deep_view() == q;
                        if i < n {
                            assert(old(self).dirs@[i].deep_view() == q);
                        }
                    }
                    if old(self).has_dir(q) {
                        let i = choose|i: int|
                            0 <= i < old(self).dirs@.len()
                                && #[trigger] old(self).dirs@[i].deep_view() == q;
                        assert(self.dirs@[i].deep_view() == q);
                    }
                }
                assert forall|i: int, j: int|
                    0 <= i < j < self.dirs@.len() implies #[trigger] self.dirs@[i].deep_view()
                    != #[trigger] self.dirs@[j].deep_view() by {
                    if j == n {
                        assert(old(self).dirs@[i].deep_view() == self.dirs@[i].deep_view());
                    }
                }
                assert forall|i: int|
                    0 <= i < self.files@.len() && #[trigger] self.files@[i].path.deep_view().len()
                        >= 2 implies self.has_dir(
                    parent_of(self.files@[i].path.deep_view()),
                ) by {
                    assert(old(self).has_dir(parent_of(old(self).files@[i].path.deep_view())));
                }
                assert forall|i: int, k: int|
                    0 <= i < self.dirs@.len() && 1 <= k
                        < self.dirs@[i].deep_view().len() implies self.has_dir(
                    #[trigger] self.dirs@[i].deep_view().take(k),
                ) by {
                    if i < n {
                        assert(old(self).has_dir(old(self).dirs@[i].deep_view().take(k)));
                    } else {
                        assert(old(self).has_dir(dv.take(k)));
                    }
                }
            }
        }
    }

    /// Membership of a file only reads the file list.
    pub proof fn lemma_has_file_same(a: ModelFs, b: ModelFs)
        requires
            b.files == a.files,
        ensures
            forall|q: Seq<Seq<char>>| #[trigger] b.has_file(q) == a.has_file(q),
    {
        assert forall|q: Seq<Seq<char>>| #[trigger] b.has_file(q) == a.has_file(q) by {
            if a.has_file(q) {
                let i = choose|i: int|
                    0 <= i < a.files@.len() && #[trigger] a.files@[i].path.deep_view() == q;
                assert(b.files@[i].path.deep_view() == q);
            }
            if b.has_file(q) {
                let i = choose|i: int|
                    0 <= i < b.files@.len() && #[trigger] b.files@[i].path.deep_view() == q;
                assert(a.files@[i].path.deep_view() == q);
            }
        }
    }

    /// Membership of a directory only reads the directory list.
    pub proof fn lemma_has_dir_same(a: ModelFs, b: ModelFs)
        requires
            b.dirs == a.dirs,
        ensures
            forall|q: Seq<Seq<char>>| #[trigger] b.has_dir(q) == a.has_dir(q),
    {
        assert forall|q: Seq<Seq<char>>| #[trigger] b.has_dir(q) == a.has_dir(q) by {
            if a.has_dir(q) {
                let i = choose|i: int|
                    0 <= i < a.dirs@.len() && #[trigger] a.dirs@[i].deep_view() == q;
                assert(b.dirs@[i].deep_view() == q);
            }
            if b.has_dir(q) {
                let i = choose|i: int|
                    0 <= i < b.dirs@.len() && #[trigger] b.dirs@[i].deep_view() == q;
                assert(a.dirs@[i].deep_view() == q);
            }
        }
    }

    /// States with the same file list agree on files and their contents.
    pub proof fn lemma_files_same(a: ModelFs, b: ModelFs)
        requires
            a.wf(),
            b.files == a.files,
        ensures
            forall|q: Seq<Seq<char>>| #[trigger] b.has_file(q) == a.has_file(q),
            forall|q: Seq<Seq<char>>| #[trigger] a.has_file(q) ==> b.data_at(q) == a.data_at(q),
    {
        ModelFs::lemma_has_file_same(a, b);
        assert forall|q: Seq<Seq<char>>| #[trigger] a.has_file(q) implies b.data_at(q)
            == a.data_at(q) by {
            a.lemma_file_idx(q);
            let ib = b.file_idx_of(q);
            assert(0 <= ib < b.files@.len() && b.files@[ib].path.deep_view() == q);
            assert(a.files@[ib].path.deep_view() == q);
            assert(ib == a.file_idx_of(q));
        }
    }

    /// States with the same failure lists agree on which operations fail.
    pub proof fn lemma_marks_same(a: ModelFs, b: ModelFs)
        requires
            b.fail_copy == a.fail_copy,
            b.fail_remove == a.fail_remove,
        ensures
            forall|q: Seq<Seq<char>>| #[trigger] b.copy_fails(q) == a.copy_fails(q),
            forall|q: Seq<Seq<char>>| #[trigger] b.remove_fails(q) == a.remove_fails(q),
    {
        assert forall|q: Seq<Seq<char>>| #[trigger] b.copy_fails(q) == a.copy_fails(q) by {
            if a.copy_fails(q) {
                let i = choose|i: int|
                    0 <= i < a.fail_copy@.len() && #[trigger] a.fail_copy@[i].deep_view() == q;
                assert(b.fail_copy@[i].deep_view() == q);
            }
            if b.copy_fails(q) {
                let i = choose|i: int|
                    0 <= i < b.fail_copy@.len() && #[trigger] b.fail_copy@[i].deep_view() == q;
                assert(a.fail_copy@[i].deep_view() == q);
            }
        }
        assert forall|q: Seq<Seq<char>>| #[trigger] b.remove_fails(q) == a.remove_fails(q) by {
            if a.remove_fails(q) {
                let i = choose|i: int|
                    0 <= i < a.fail_remove@.len() && #[trigger] a.fail_remove@[i].deep_view() == q;
                assert(b.fail_remove@[i].deep_view() == q);
            }
            if b.remove_fails(q) {
                let i = choose|i: int|
                    0 <= i < b.fail_remove@.len() && #[trigger] b.fail_remove@[i].deep_view() == q;
                assert(a.fail_remove@[i].deep_view() == q);
            }
        }
    }

    /// Drop the file node at index `i`.
    fn remove_file_idx(&mut self, i: usize)
        requires
            old(self).wf(),
            i < old(self).files@.len(),
        ensures
            final(self).wf(),
            final(self).dirs == old(self).dirs,
            final(self).fail_copy == old(self).fail_copy,
            final(self).fail_remove == old(self).fail_remove,
            forall|q: Seq<Seq<char>>|
                final(self).has_file(q) <==> old(self).has_file(q) && q != old(
                    self,
                ).files@[i as int].path.deep_view(),
            forall|q: Seq<Seq<char>>|
                q != old(self).files@[i as int].path.deep_view() && old(self).has_file(q)
                    ==> final(self).data_at(q) == old(self).data_at(q),
    {
        let ghost r = i as int;
        let ghost pv = old(self).files@[r].path.deep_view();
        proof {
            old(self).files@.remove_ensures(r);
        }
        self.files.remove(i);
        proof {
            ModelFs::lemma_has_dir_same(*old(self), *self);
            let ghost oldf = old(self).files@;
            // each new slot holds an old node at a distinct old index != r
            assert forall|m: int|
                0 <= m < self.files@.len() implies self.files@[m] == oldf[(
                if m < r {
                    m
                } else {
                    m + 1
                })] by {}
            // membership, both directions
            assert forall|q: Seq<Seq<char>>|
                self.has_file(q) <==> old(self).has_file(q) && q != pv by {
                if self.has_file(q) {
                    let m = choose|m: int|
                        0 <= m < self.files@.len() && #[trigger] self.files@[m].path.deep_view()
                            == q;
                    let o = if m < r {
                        m
                    } else {
                        m + 1
                    };
                    assert(oldf[o].path.deep_view() == q);
                    if o < r {
                        assert(oldf[o].path.deep_view() != oldf[r].path.deep_view());
                    } else {
                        assert(oldf[r].path.deep_view() != oldf[o].path.deep_view());
                    }
                }
                if old(self).has_file(q) && q != pv {
                    let o = choose|o: int|
                        0 <= o < oldf.len() && #[trigger] oldf[o].path.deep_view() == q;
                    if o < r {
                        assert(self.files@[o].path.deep_view() == q);
                    } else {
                        assert(o > r);
                        assert(self.files@[o - 1].path.deep_view() == q);
                    }
                }
            }
            // distinct paths survive
            assert forall|m1: int, m2: int|
                0 <= m1 < m2 < self.files@.len() implies #[trigger] self.files@[m1].path.deep_view()
                != #[trigger] self.files@[m2].path.deep_view() by {
                let o1 = if m1 < r {
                    m1
                } else {
                    m1 + 1
                };
                let o2 = if m2 < r {
                    m2
                } else {
                    m2 + 1
                };
                assert(o1 < o2);
                assert(oldf[o1].path.deep_view() != oldf[o2].path.deep_view());
            }
            // every file still lies in a directory
            assert forall|m: int|
                0 <= m < self.files@.len() && #[trigger] self.files@[m].path.deep_view().len()
                    >= 2 implies self.has_dir(parent_of(self.files@[m].path.deep_view())) by {
                let o = if m < r {
                    m
                } else {
                    m + 1
                };
                assert(old(self).has_dir(parent_of(oldf[o].path.deep_view())));
            }
            // data preserved elsewhere
            assert forall|q: Seq<Seq<char>>|
                q != pv && old(self).has_file(q) implies self.data_at(q) == old(self).data_at(
                q,
            ) by {
                old(self).lemma_file_idx(q);
                let o = old(self).file_idx_of(q);
                let m = if o < r {
                    o
                } else {
                    o - 1
                };
                assert(self.files@[m] == oldf[o]);
                assert(self.files@[m].path.deep_view() == q);
                self.lemma_file_idx(q);
                assert(self.file_idx_of(q) == m);
            }
        }
    }

    /// Add a file node for a path that has none yet.
    fn push_file(&mut self, path: Vec<String>, data: Vec<u8>)
        requires
            old(self).wf(),
            !old(self).has_file(path.deep_view()),
            path.deep_view().len() >= 1,
            path.deep_view().len() >= 2 ==> old(self).has_dir(parent_of(path.deep_view())),
        ensures
            final(self).wf(),
            final(self).dirs == old(self).dirs,
            final(self).fail_copy == old(self).fail_copy,
            final(self).fail_remove == old(self).fail_remove,
            forall|q: Seq<Seq<char>>|
                final(self).has_file(q) <==> old(self).has_file(q) || q == path.deep_view(),
            final(self).data_at(path.deep_view()) == data@,
            forall|q: Seq<Seq<char>>|
                q != path.deep_view() && old(self).has_file(q) ==> final(self).data_at(q) == old(
                    self,
                ).data_at(q),
    {
        let ghost pv = path.deep_view();
        let ghost n = self.files@.len();
        self.files.push(FileNode { path, data });
        proof {
            ModelFs::lemma_has_dir_same(*old(self), *self);
            assert(self.files@[n as int].path.deep_view() == pv);
            assert forall|q: Seq<Seq<char>>|
                self.has_file(q) <==> old(self).has_file(q) || q == pv by {
                if self.has_file(q) && q != pv {
                    let m = choose|m: int|
                        0 <= m < self.files@.len() && #[trigger] self.files@[m].path.deep_view()
                            == q;
                    assert(m != n);
                    assert(old(self).files@[m].path.deep_view() == q);
                }
                if old(self).has_file(q) {
                    let o = choose|o: int|
                        0 <= o < old(self).files@.len() && #[trigger] old(
                            self,
                        ).files@[o].path.deep_view() == q;
                    assert(self.files@[o].path.deep_view() == q);
                }
            }
            assert forall|m1: int, m2: int|
                0 <= m1 < m2 < self.files@.len() implies #[trigger] self.files@[m1].path.deep_view()
                != #[trigger] self.files@[m2].path.deep_view() by {
                if m2 == n {
                    assert(old(self).files@[m1].path.deep_view()
                        == self.files@[m1].path.deep_view());
                    if self.files@[m1].path.deep_view() == pv {
                        assert(old(self).has_file(pv));
                    }
                }
            }
            assert forall|m: int|
                0 <= m < self.files@.len() && #[trigger] self.files@[m].path.deep_view().len()
                    >= 2 implies self.has_dir(parent_of(self.files@[m].path.deep_view())) by {
                if m < n {
                    assert(old(self).has_dir(parent_of(old(self).files@[m].path.deep_view())));
                } else {
                    assert(old(self).has_dir(parent_of(pv)));
                }
            }
            self.lemma_file_idx(pv);
            assert(self.file_idx_of(pv) == n);
            assert forall|q: Seq<Seq<char>>|
                q != pv && old(self).has_file(q) implies self.data_at(q) == old(self).data_at(
                q,
            ) by {
                old(self).lemma_file_idx(q);
                let o = old(self).file_idx_of(q);
                assert(self.files@[o].path.deep_view() == q);
                self.lemma_file_idx(q);
                assert(self.file_idx_of(q) == o);
            }
        }
    }

    /// Write `data` to the file at `p`, creating it or overwriting what was
    /// there.
    pub fn write_file(&mut self, p: &Vec<String>, data: Vec<u8>)
        requires
            old(self).wf(),
            p.deep_view().len() >= 1,
            p.deep_view().len() >= 2 ==> old(self).has_dir(parent_of(p.deep_view())),
        ensures
            final(self).wf(),
            final(self).dirs == old(self).dirs,
            final(self).fail_copy == old(self).fail_copy,
            final(self).fail_remove == old(self).fail_remove,
            forall|q: Seq<Seq<char>>|
                final(self).has_file(q) <==> old(self).has_file(q) || q == p.deep_view(),
            final(self).data_at(p.deep_view()) == data@,
            forall|q: Seq<Seq<char>>|
                q != p.deep_view() && old(self).has_file(q) ==> final(self).data_at(q) == old(
                    self,
                ).data_at(q),
    {
        let node_path = clone_path(p);
        match self.find_file(p) {
            Some(i) => {
                proof {
                    old(self).lemma_file_idx(p.deep_view());
                }
                self.remove_file_idx(i);
            },
            None => {},
        }
        proof {
            ModelFs::lemma_has_dir_same(*old(self), *self);
        }
        self.push_file(node_path, data);
    }

    /// Copy the file at `from` over the file at `to`, overwriting it.
    /// Returns false, changing nothing, when the copy is forced to fail;
    /// the source file is never touched.
    pub fn copy_file(&mut self, from: &Vec<String>, to: &Vec<String>) -> (ok: bool)
        requires
            old(self).wf(),
            old(self).has_file(from.deep_view()),
            to.deep_view().len() >= 1,
            to.deep_view().len() >= 2 ==> old(self).has_dir(parent_of(to.deep_view())),
        ensures
            ok == !old(self).copy_fails(from.deep_view()),
            !ok ==> *final(self) == *old(self),
            ok ==> final(self).wf(),
            ok ==> final(self).dirs == old(self).dirs,
            ok ==> final(self).fail_copy == old(self).fail_copy,
            ok ==> final(self).fail_remove == old(self).fail_remove,
            ok ==> (forall|q: Seq<Seq<char>>|
                final(self).has_file(q) <==> old(self).has_file(q) || q == to.deep_view()),
            ok ==> final(self).data_at(to.deep_view()) == old(self).data_at(from.deep_view()),
            ok ==> (forall|q: Seq<Seq<char>>|
                q != to.deep_view() && old(self).has_file(q) ==> final(self).data_at(q) == old(
                    self,
                ).data_at(q)),
    {
        if find_path(&self.fail_copy, from).is_some() {
            return false;
        }
        let data = self.data_of(from);
        self.write_file(to, data);
        true
    }

    /// Remove the file at `p`. Returns false, changing nothing, when the
    /// removal is forced to fail.
    pub fn remove_file(&mut self, p: &Vec<String>) -> (ok: bool)
        requires
            old(self).wf(),
            old(self).has_file(p.deep_view()),
        ensures
            ok == !old(self).remove_fails(p.deep_view()),
            !ok ==> *final(self) == *old(self),
            ok ==> final(self).wf(),
            ok ==> final(self).dirs == old(self).dirs,
            ok ==> final(self).fail_copy == old(self).fail_copy,
            ok ==> final(self).fail_remove == old(self).fail_remove,
            ok ==> (forall|q: Seq<Seq<char>>|
                final(self).has_file(q) <==> old(self).has_file(q) && q != p.deep_view()),
            ok ==> (forall|q: Seq<Seq<char>>|
                q != p.deep_view() && old(self).has_file(q) ==> final(self).data_at(q) == old(
                    self,
                ).data_at(q)),
    {
        if find_path(&self.fail_remove, p).is_some() {
            return false;
        }
        let i = self.find_file(p).unwrap();
        proof {
            old(self).lemma_file_idx(p.deep_view());
        }
        self.remove_file_idx(i);
        true
    }

    /// Whether any file lives strictly below `p`.
    pub fn any_file_strictly_under(&self, p: &Vec<String>) -> (r: bool)
        ensures
            r == (exists|q: Seq<Seq<char>>|
                #[trigger] self.has_file(q) && strictly_under(p.deep_view(), q)),
    {
        let mut i: usize = 0;
        while i < self.files.len()
            invariant
                i <= self.files@.len(),
                forall|j: int|
                    0 <= j < i ==> !strictly_under(
                        p.deep_view(),
                        #[trigger] self.files@[j].path.deep_view(),
                    ),
            decreases self.files@.len() - i,
        {
            if self.files[i].path.len() > p.len() && path_starts_with(&self.files[i].path, p) {
                proof {
                    assert(self.has_file(self.files@[i as int].path.deep_view()));
                }
                return true;
            }
            i += 1;
        }
        proof {
            if exists|q: Seq<Seq<char>>|
                #[trigger] self.has_file(q) && strictly_under(p.deep_view(), q) {
                let q = choose|q: Seq<Seq<char>>|
                    #[trigger] self.has_file(q) && strictly_under(p.deep_view(), q);
                let j = choose|j: int|
                    0 <= j < self.files@.len() && #[trigger] self.files@[j].path.deep_view() == q;
                assert(!strictly_under(p.deep_view(), self.files@[j].path.deep_view()));
            }
        }
        false
    }

    /// Whether any directory lives strictly below `p`.
    pub fn any_dir_strictly_under(&self, p: &Vec<String>) -> (r: bool)
        ensures
            r == (exists|q: Seq<Seq<char>>|
                #[trigger] self.has_dir(q) && strictly_under(p.deep_view(), q)),
    {
        let mut i: usize = 0;
        while i < self.dirs.len()
            invariant
                i <= self.dirs@.len(),
                forall|j: int|
                    0 <= j < i ==> !strictly_under(
                        p.deep_view(),
                        #[trigger] self.dirs@[j].deep_view(),
                    ),
            decreases self.dirs@.len() - i,
        {
            if self.dirs[i].len() > p.len() && path_starts_with(&self.dirs[i], p) {
                proof {
                    assert(self.has_dir(self.dirs@[i as int].deep_view()));
                }
                return true;
            }
            i += 1;
        }
        proof {
            if exists|q: Seq<Seq<char>>|
                #[trigger] self.has_dir(q) && strictly_under(p.deep_view(), q) {
                let q = choose|q: Seq<Seq<char>>|
                    #[trigger] self.has_dir(q) && strictly_under(p.deep_view(), q);
                let j = choose|j: int|
                    0 <= j < self.dirs@.len() && #[trigger] self.dirs@[j].deep_view() == q;
                assert(!strictly_under(p.deep_view(), self.dirs@[j].deep_view()));
            }
        }
        false
    }

    /// Remove the directory at `p`. Succeeds exactly when it exists and
    /// nothing lives below it; otherwise nothing changes.
    pub fn remove_dir(&mut self, p: &Vec<String>) -> (ok: bool)
        requires
            old(self).wf(),
        ensures
            ok == old(self).dir_removable(p.deep_view()),
            !ok ==> *final(self) == *old(self),
            ok ==> final(self).wf(),
            ok ==> final(self).files == old(self).files,
            ok ==> final(self).fail_copy == old(self).fail_copy,
            ok ==> final(self).fail_remove == old(self).fail_remove,
            ok ==> (forall|q: Seq<Seq<char>>|
                final(self).has_dir(q) <==> old(self).has_dir(q) && q != p.deep_view()),
    {
        let idx = match find_path(&self.dirs, p) {
            None => {
                return false;
            },
            Some(i) => i,
        };
        if self.any_file_strictly_under(p) {
            return false;
        }
        if self.any_dir_strictly_under(p) {
            return false;
        }
        let ghost r = idx as int;
        let ghost pv = p.deep_view();
        let ghost oldd = self.dirs@;
        proof {
            self.dirs@.remove_ensures(r);
        }
        self.dirs.remove(idx);
        proof {
            ModelFs::lemma_has_file_same(*old(self), *self);
            assert forall|m: int|
                0 <= m < self.dirs@.len() implies self.dirs@[m] == oldd[(
                if m < r {
                    m
                } else {
                    m + 1
                })] by {}
            assert forall|q: Seq<Seq<char>>|
                self.has_dir(q) <==> old(self).has_dir(q) && q != pv by {
                if self.has_dir(q) {
                    let m = choose|m: int|
                        0 <= m < self.dirs@.len() && #[trigger] self.dirs@[m].deep_view() == q;
                    let o = if m < r {
                        m
                    } else {
                        m + 1
                    };
                    assert(oldd[o].deep_view() == q);
                    if o < r {
                        assert(oldd[o].deep_view() != oldd[r].deep_view());
                    } else {
                        assert(oldd[r].deep_view() != oldd[o].deep_view());
                    }
                }
                if old(self).has_dir(q) && q != pv {
                    let o = choose|o: int| 0 <= o < oldd.len() && #[trigger] oldd[o].deep_view()
                        == q;
                    if o < r {
                        assert(self.dirs@[o].deep_view() == q);
                    } else {
                        assert(o > r);
                        assert(self.dirs@[o - 1].deep_view() == q);
                    }
                }
            }
            assert forall|m1: int, m2: int|
                0 <= m1 < m2 < self.dirs@.len() implies #[trigger] self.dirs@[m1].deep_view()
                != #[trigger] self.dirs@[m2].deep_view() by {
                let o1 = if m1 < r {
                    m1
                } else {
                    m1 + 1
                };
                let o2 = if m2 < r {
                    m2
                } else {
                    m2 + 1
                };
                assert(oldd[o1].deep_view() != oldd[o2].deep_view());
            }
            assert forall|m: int|
                0 <= m < self.files@.len() && #[trigger] self.files@[m].path.deep_view().len()
                    >= 2 implies self.has_dir(parent_of(self.files@[m].path.deep_view())) by {
                let fp = self.files@[m].path.deep_view();
                assert(old(self).has_dir(parent_of(fp)));
                if parent_of(fp) == pv {
                    assert(old(self).has_file(fp));
                    assert(strictly_under(pv, fp));
                }
            }
            assert forall|m: int, k: int|
                0 <= m < self.dirs@.len() && 1 <= k
                    < self.dirs@[m].deep_view().len() implies self.has_dir(
                #[trigger] self.dirs@[m].deep_view().take(k),
            ) by {
                let dv = self.dirs@[m].deep_view();
                assert(old(self).has_dir(dv.take(k)));
                if dv.take(k) == pv {
                    assert(old(self).has_dir(dv));
                    assert(is_under(pv, dv));
                    assert(strictly_under(pv, dv));
                }
            }
        }
        true
    }

    /// The names of the files lying directly inside `p`, each exactly once.
    pub fn list_child_files(&self, p: &Vec<String>) -> (r: Vec<String>)
        requires
            self.wf(),
        ensures
            forall|m: int|
                #![trigger r.deep_view()[m]]
                0 <= m < r.deep_view().len() ==> self.has_file(
                    p.deep_view().push(r.deep_view()[m]),
                ),
            forall|q: Seq<Seq<char>>|
                #[trigger] self.has_file(q) && q.len() == p.deep_view().len() + 1 && is_under(
                    p.deep_view(),
                    q,
                ) ==> (exists|m: int|
                    0 <= m < r.deep_view().len() && #[trigger] r.deep_view()[m] == q.last()),
            forall|m1: int, m2: int|
                0 <= m1 < m2 < r.deep_view().len() ==> #[trigger] r.deep_view()[m1]
                    != #[trigger] r.deep_view()[m2],
    {
        let mut out: Vec<String> = Vec::new();
        let mut i: usize = 0;
        while i < self.files.len()
            invariant
                self.wf(),
                i <= self.files@.len(),
                forall|m: int|
                    #![trigger out.deep_view()[m]]
                    0 <= m < out.deep_view().len() ==> (exists|j: int|
                        0 <= j < i && #[trigger] self.files@[j].path.deep_view()
                            == p.deep_view().push(out.deep_view()[m])),
                forall|j: int|
                    0 <= j < i && #[trigger] self.files@[j].path.deep_view().len()
                        == p.deep_view().len() + 1 && is_under(
                        p.deep_view(),
                        self.files@[j].path.deep_view(),
                    ) ==> (exists|m: int|
                        0 <= m < out.deep_view().len() && #[trigger] out.deep_view()[m]
                            == self.files@[j].path.deep_view().last()),
                forall|m1: int, m2: int|
                    0 <= m1 < m2 < out.deep_view().len() ==> #[trigger] out.deep_view()[m1]
                        != #[trigger] out.deep_view()[m2],
            decreases self.files@.len() - i,
        {
            let node = &self.files[i];
            let nlen = node.path.len();
            if nlen > 0 && nlen - 1 == p.len() && path_starts_with(&node.path, p) {
                let ghost fv = self.files@[i as int].path.deep_view();
                proof {
                    assert(fv =~= p.deep_view().push(fv.last()));
                }
                let name = node.path[nlen - 1].clone();
                let ghost prevout = out.deep_view();
                proof {
                    assert(name@ == fv.last());
                    if exists|m: int| 0 <= m < prevout.len() && #[trigger] prevout[m] == fv.last() {
                        let m = choose|m: int|
                            0 <= m < prevout.len() && #[trigger] prevout[m] == fv.last();
                        let j = choose|j: int|
                            0 <= j < i && #[trigger] self.files@[j].path.deep_view()
                                == p.deep_view().push(prevout[m]);
                        assert(self.files@[j].path.deep_view()
                            == self.files@[i as int].path.deep_view());
                        assert(false);
                    }
                }
                out.push(name);
                proof {
                    assert(out.deep_view() =~= prevout.push(fv.last()));
                    assert forall|m: int|
                        #![trigger out.deep_view()[m]]
                        0 <= m < out.deep_view().len() implies (exists|j: int|
                        0 <= j < i + 1 && #[trigger] self.files@[j].path.deep_view()
                            == p.deep_view().push(out.deep_view()[m])) by {
                        if m < prevout.len() {
                            assert(out.deep_view()[m] == prevout[m]);
                            let j = choose|j: int|
                                0 <= j < i && #[trigger] self.files@[j].path.deep_view()
                                    == p.deep_view().push(prevout[m]);
                            assert(self.files@[j].path.deep_view()
                                == p.deep_view().push(out.deep_view()[m]));
                        } else {
                            assert(out.deep_view()[m] == fv.last());
                            assert(self.files@[i as int].path.deep_view()
                                == p.deep_view().push(out.deep_view()[m]));
                        }
                    }
                    assert forall|j: int|
                        0 <= j < i + 1 && #[trigger] self.files@[j].path.deep_view().len()
                            == p.deep_view().len() + 1 && is_under(
                            p.deep_view(),
                            self.files@[j].path.deep_view(),
                        ) implies (exists|m: int|
                        0 <= m < out.deep_view().len() && #[trigger] out.deep_view()[m]
                            == self.files@[j].path.deep_view().last()) by {
                        if j == i {
                            assert(out.deep_view()[prevout.len() as int] == fv.last());
                        } else {
                            let m = choose|m: int|
                                0 <= m < prevout.len() && #[trigger] prevout[m]
                                    == self.files@[j].path.deep_view().last();
                            assert(out.deep_view()[m]
                                == self.files@[j].path.deep_view().last());
                        }
                    }
                }
            }
            i += 1;
        }
        proof {
            assert forall|q: Seq<Seq<char>>|
                #[trigger] self.has_file(q) && q.len() == p.deep_view().len() + 1 && is_under(
                    p.deep_view(),
                    q,
                ) implies (exists|m: int|
                0 <= m < out.deep_view().len() && #[trigger] out.deep_view()[m] == q.last()) by {
                let j = choose|j: int|
                    0 <= j < self.files@.len() && #[trigger] self.files@[j].path.deep_view() == q;
                assert(self.files@[j].path.deep_view().len() == p.deep_view().len() + 1);
            }
            assert forall|m: int|
                #![trigger out.deep_view()[m]]
                0 <= m < out.deep_view().len() implies self.has_file(
                p.deep_view().push(out.deep_view()[m]),
            ) by {
                let j = choose|j: int|
                    0 <= j < i && #[trigger] self.files@[j].path.deep_view() == p.deep_view().push(
                        out.deep_view()[m],
                    );
                assert(self.files@[j].path.deep_view() == p.deep_view().push(out.deep_view()[m]));
            }
        }
        out
    }

    /// The names of the directories lying directly inside `p`, each exactly
    /// once.
    pub fn list_child_dirs(&self, p: &Vec<String>) -> (r: Vec<String>)
        requires
            self.wf(),
        ensures
            forall|m: int|
                #![trigger r.deep_view()[m]]
                0 <= m < r.deep_view().len() ==> self.has_dir(
                    p.deep_view().push(r.deep_view()[m]),
                ),
            forall|q: Seq<Seq<char>>|
                #[trigger] self.has_dir(q) && q.len() == p.deep_view().len() + 1 && is_under(
                    p.deep_view(),
                    q,
                ) ==> (exists|m: int|
                    0 <= m < r.deep_view().len() && #[trigger] r.deep_view()[m] == q.last()),
            forall|m1: int, m2: int|
                0 <= m1 < m2 < r.deep_view().len() ==> #[trigger] r.deep_view()[m1]
                    != #[trigger] r.deep_view()[m2],
    {
        let mut out: Vec<String> = Vec::new();
        let mut i: usize = 0;
        while i < self.dirs.len()
            invariant
                self.wf(),
                i <= self.dirs@.len(),
                forall|m: int|
                    #![trigger out.deep_view()[m]]
                    0 <= m < out.deep_view().len() ==> (exists|j: int|
                        0 <= j < i && #[trigger] self.dirs@[j].deep_view() == p.deep_view().push(
                            out.deep_view()[m],
                        )),
                forall|j: int|
                    0 <= j < i && #[trigger] self.dirs@[j].deep_view().len() == p.deep_view().len()
                        + 1 && is_under(p.deep_view(), self.dirs@[j].deep_view()) ==> (exists|
                        m: int,
                    |
                        0 <= m < out.deep_view().len() && #[trigger] out.deep_view()[m]
                            == self.dirs@[j].deep_view().last()),
                forall|m1: int, m2: int|
                    0 <= m1 < m2 < out.deep_view().len() ==> #[trigger] out.deep_view()[m1]
                        != #[trigger] out.deep_view()[m2],
            decreases self.dirs@.len() - i,
        {
            let node = &self.dirs[i];
            let nlen = node.len();
            if nlen > 0 && nlen - 1 == p.len() && path_starts_with(node, p) {
                let ghost fv = self.dirs@[i as int].deep_view();
                proof {
                    assert(fv =~= p.deep_view().push(fv.last()));
                }
                let name = node[nlen - 1].clone();
                let ghost prevout = out.deep_view();
                proof {
                    assert(name@ == fv.last());
                    if exists|m: int| 0 <= m < prevout.len() && #[trigger] prevout[m] == fv.last() {
                        let m = choose|m: int|
                            0 <= m < prevout.len() && #[trigger] prevout[m] == fv.last();
                        let j = choose|j: int|
                            0 <= j < i && #[trigger] self.dirs@[j].deep_view() == p.deep_view(
                            ).push(prevout[m]);
                        assert(self.dirs@[j].deep_view() == self.dirs@[i as int].deep_view());
                        assert(false);
                    }
                }
                out.push(name);
                proof {
                    assert(out.deep_view() =~= prevout.push(fv.last()));
                    assert forall|m: int|
                        #![trigger out.deep_view()[m]]
                        0 <= m < out.deep_view().len() implies (exists|j: int|
                        0 <= j < i + 1 && #[trigger] self.dirs@[j].deep_view()
                            == p.deep_view().push(out.deep_view()[m])) by {
                        if m < prevout.len() {
                            assert(out.deep_view()[m] == prevout[m]);
                            let j = choose|j: int|
                                0 <= j < i && #[trigger] self.dirs@[j].deep_view()
                                    == p.deep_view().push(prevout[m]);
                            assert(self.dirs@[j].deep_view()
                                == p.deep_view().push(out.deep_view()[m]));
                        } else {
                            assert(out.deep_view()[m] == fv.last());
                            assert(self.dirs@[i as int].deep_view()
                                == p.deep_view().push(out.deep_view()[m]));
                        }
                    }
                    assert forall|j: int|
                        0 <= j < i + 1 && #[trigger] self.dirs@[j].deep_view().len()
                            == p.deep_view().len() + 1 && is_under(
                            p.deep_view(),
                            self.dirs@[j].deep_view(),
                        ) implies (exists|m: int|
                        0 <= m < out.deep_view().len() && #[trigger] out.deep_view()[m]
                            == self.dirs@[j].deep_view().last()) by {
                        if j == i {
                            assert(out.deep_view()[prevout.len() as int] == fv.last());
                        } else {
                            let m = choose|m: int|
                                0 <= m < prevout.len() && #[trigger] prevout[m]
                                    == self.dirs@[j].deep_view().last();
                            assert(out.deep_view()[m] == self.dirs@[j].deep_view().last());
                        }
                    }
                }
            }
            i += 1;
        }
        proof {
            assert forall|q: Seq<Seq<char>>|
                #[trigger] self.has_dir(q) && q.len() == p.deep_view().len() + 1 && is_under(
                    p.deep_view(),
                    q,
                ) implies (exists|m: int|
                0 <= m < out.deep_view().len() && #[trigger] out.deep_view()[m] == q.last()) by {
                let j = choose|j: int|
                    0 <= j < self.dirs@.len() && #[trigger] self.dirs@[j].deep_view() == q;
                assert(self.dirs@[j].deep_view().len() == p.deep_view().len() + 1);
            }
            assert forall|m: int|
                #![trigger out.deep_view()[m]]
                0 <= m < out.deep_view().len() implies self.has_dir(
                p.deep_view().push(out.deep_view()[m]),
            ) by {
                let j = choose|j: int|
                    0 <= j < i && #[trigger] self.dirs@[j].deep_view() == p.deep_view().push(
                        out.deep_view()[m],
                    );
                assert(self.dirs@[j].deep_view() == p.deep_view().push(out.deep_view()[m]));
            }
        }
        out
    }

    /// Index of the file node at `p`, if any.
    fn find_file(&self, p: &Vec<String>) -> (r: Option<usize>)
        ensures
            match r {
                Some(i) => 0 <= i < self.files@.len() && self.files@[i as int].path.deep_view()
                    == p.deep_view(),
                None => !self.has_file(p.deep_view()),
            },
    {
        let mut i: usize = 0;
        while i < self.files.len()
            invariant
                i <= self.files@.len(),
                forall|j: int|
                    0 <= j < i ==> #[trigger] self.files@[j].path.deep_view() != p.deep_view(),
            decreases self.files@.len() - i,
        {
            if path_eq(&self.files[i].path, p) {
                return Some(i);
            }
            i += 1;
        }
        None
    }
}

/// Index of `p` in a list of paths, if any.
fn find_path(list: &Vec<Vec<String>>, p: &Vec<String>) -> (r: Option<usize>)
    ensures
        match r {
            Some(i) => 0 <= i < list@.len() && list@[i as int].deep_view() == p.deep_view(),
            None => forall|j: int| 0 <= j < list@.len() ==> #[trigger] list@[j].deep_view()
                != p.deep_view(),
        },
{
    let mut i: usize = 0;
    while i < list.len()
        invariant
            i <= list@.len(),
            forall|j: int| 0 <= j < i ==> #[trigger] list@[j].deep_view() != p.deep_view(),
        decreases list@.len() - i,
    {
        if path_eq(&list[i], p) {
            return Some(i);
        }
        i += 1;
    }
    None
}

/// Clone a file's content, byte by byte.
fn clone_data(v: &Vec<u8>) -> (r: Vec<u8>)
    ensures
        r@ == v@,
{
    let mut out: Vec<u8> = Vec::new();
    let mut i: usize = 0;
    while i < v.len()
        invariant
            i <= v@.len(),
            out@ =~= v@.take(i as int),
        decreases v@.len() - i,
    {
        out.push(v[i]);
        i += 1;
    }
    proof {
        assert(out@ =~= v@);
    }
    out
}

} // verus!
