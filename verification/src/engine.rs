//! The replication engine, running on the model tree.
//!
//! `process_directory` is the per-directory contract: create the destination
//! directory, copy every file lying directly in the source directory to its
//! mapped destination, remove each source file after a successful copy when
//! the run deletes its source, and report the subdirectories found. The
//! orchestrator in this module drives it from a work queue.

use vstd::prelude::*;
use crate::fsmodel::ModelFs;
use crate::paths::child_path;
use crate::paths::clone_path;
use crate::paths::is_under;
use crate::paths::lemma_ancestors_comparable;
use crate::paths::lemma_under_take;
use crate::paths::lemma_under_trans;
use crate::paths::parent_of;
use crate::paths::map_spec;
use crate::paths::strictly_under;
use crate::sched::Config;
use crate::sched::DirectoryTask;
use crate::sched::Scheduler;
use crate::guard::may_delete;

verus! {

/// A file of `fs` lying directly inside the directory `d`.
pub open spec fn child_file_of(fs: ModelFs, d: Seq<Seq<char>>, q: Seq<Seq<char>>) -> bool {
    fs.has_file(q) && q.len() == d.len() + 1 && is_under(d, q)
}

/// `q` is one of the directories that creating `dst` brings into being:
/// a non-empty prefix of `dst`.
pub open spec fn dest_chain(dst: Seq<Seq<char>>, q: Seq<Seq<char>>) -> bool {
    exists|k: int| 1 <= k <= dst.len() && q == #[trigger] dst.take(k)
}

/// `names` reports exactly the subdirectories lying directly in `src0`,
/// each name exactly once.
pub open spec fn reports_children(
    base: ModelFs,
    src0: Seq<Seq<char>>,
    names: Seq<Seq<char>>,
) -> bool {
    &&& (forall|m: int|
        #![trigger names[m]]
        0 <= m < names.len() ==> base.has_dir(src0.push(names[m])))
    &&& (forall|q: Seq<Seq<char>>|
        #[trigger] base.has_dir(q) && q.len() == src0.len() + 1 && is_under(src0, q) ==> (
        exists|m: int| 0 <= m < names.len() && #[trigger] names[m] == q.last()))
    &&& (forall|m1: int, m2: int|
        0 <= m1 < m2 < names.len() ==> #[trigger] names[m1] != #[trigger] names[m2])
}

/// `q` is the mapped destination of some file lying directly in `src0`
/// whose copy is not forced to fail.
pub open spec fn copy_target_of(
    base: ModelFs,
    src0: Seq<Seq<char>>,
    dst0: Seq<Seq<char>>,
    q: Seq<Seq<char>>,
) -> bool {
    exists|f: Seq<Seq<char>>|
        #[trigger] child_file_of(base, src0, f) && !base.copy_fails(f) && q == dst0.push(f.last())
}

/// Every file lying directly in `src0` can be copied, and, when the run
/// deletes its source, also removed.
pub open spec fn dir_files_clean(
    base: ModelFs,
    src0: Seq<Seq<char>>,
    delete_source: bool,
) -> bool {
    forall|f: Seq<Seq<char>>|
        #[trigger] child_file_of(base, src0, f) ==> !base.copy_fails(f) && (delete_source
            ==> !base.remove_fails(f))
}

/// `q` is one of the first `upto` listed children of `root`.
pub open spec fn listed(
    root: Seq<Seq<char>>,
    names: Seq<Seq<char>>,
    upto: int,
    q: Seq<Seq<char>>,
) -> bool {
    exists|m: int| 0 <= m < upto && q == root.push(#[trigger] names[m])
}

/// `q` is the destination of one of the first `upto` listed children whose
/// copy succeeds.
pub open spec fn copied_listed(
    base: ModelFs,
    src0: Seq<Seq<char>>,
    dst0: Seq<Seq<char>>,
    names: Seq<Seq<char>>,
    upto: int,
    q: Seq<Seq<char>>,
) -> bool {
    exists|m: int|
        0 <= m < upto && !base.copy_fails(src0.push(#[trigger] names[m])) && q == dst0.push(
            names[m],
        )
}

/// The first `upto` listed children all copy, and, under deletion, all
/// remove.
pub open spec fn listed_clean(
    base: ModelFs,
    src0: Seq<Seq<char>>,
    names: Seq<Seq<char>>,
    upto: int,
    delete_source: bool,
) -> bool {
    forall|m: int|
        0 <= m < upto ==> !base.copy_fails(src0.push(#[trigger] names[m])) && (delete_source
            ==> !base.remove_fails(src0.push(names[m])))
}

/// A fatal error: the whole run is aborted.
#[derive(Debug, Clone, Copy, PartialEq, Eq, Structural)]
pub enum RunError {
    MissingSource,
}

/// What one finished directory left behind: its source path and whether its
/// files were fully drained.
pub struct DirRecord {
    pub path: Vec<String>,
    pub files_ok: bool,
}

/// `d` is a directory of `base` lying at or under the source root.
pub open spec fn src_dir(base: ModelFs, src0: Seq<Seq<char>>, d: Seq<Seq<char>>) -> bool {
    base.has_dir(d) && is_under(src0, d)
}

/// `f` is a file of `base` lying under the source root.
pub open spec fn src_file(base: ModelFs, src0: Seq<Seq<char>>, f: Seq<Seq<char>>) -> bool {
    base.has_file(f) && strictly_under(src0, f)
}

/// `q` is a directory that mirroring some source directory creates.
pub open spec fn created_dir(
    base: ModelFs,
    src0: Seq<Seq<char>>,
    dst0: Seq<Seq<char>>,
    q: Seq<Seq<char>>,
) -> bool {
    exists|d: Seq<Seq<char>>|
        #[trigger] src_dir(base, src0, d) && dest_chain(map_spec(src0, dst0, d), q)
}

/// `q` is the mapped destination of a source file whose copy succeeds.
pub open spec fn run_copy_target(
    base: ModelFs,
    src0: Seq<Seq<char>>,
    dst0: Seq<Seq<char>>,
    q: Seq<Seq<char>>,
) -> bool {
    exists|f: Seq<Seq<char>>|
        #[trigger] src_file(base, src0, f) && !base.copy_fails(f) && q == map_spec(src0, dst0, f)
}

/// No file anywhere under `d` is touched by a forced failure.
pub open spec fn subtree_clean(base: ModelFs, d: Seq<Seq<char>>) -> bool {
    forall|f: Seq<Seq<char>>|
        #[trigger] base.has_file(f) && strictly_under(d, f) ==> !base.copy_fails(f)
            && !base.remove_fails(f)
}

/// Everything a completed run guarantees, relating the final tree `post` to
/// the starting tree `base`. With deletion disabled the destination mirrors
/// the source and the source is untouched; with deletion enabled every
/// cleanly drained source file and every source directory with a clean
/// subtree is gone, and nothing else is.
pub open spec fn run_post(
    base: ModelFs,
    post: ModelFs,
    src0: Seq<Seq<char>>,
    dst0: Seq<Seq<char>>,
    delete: bool,
) -> bool {
    &&& post.wf()
    &&& post.fail_copy == base.fail_copy
    &&& post.fail_remove == base.fail_remove
    &&& (forall|q: Seq<Seq<char>>|
        #[trigger] post.has_file(q) <==> ((base.has_file(q) && !(delete && src_file(base, src0, q)
            && base.file_clean(q))) || run_copy_target(base, src0, dst0, q)))
    &&& (forall|f: Seq<Seq<char>>|
        #[trigger] src_file(base, src0, f) && !base.copy_fails(f) ==> post.has_file(
            map_spec(src0, dst0, f),
        ) && post.data_at(map_spec(src0, dst0, f)) == base.data_at(f))
    &&& (forall|q: Seq<Seq<char>>|
        #[trigger] post.has_file(q) && base.has_file(q) && !run_copy_target(base, src0, dst0, q)
            ==> post.data_at(q) == base.data_at(q))
    &&& (forall|q: Seq<Seq<char>>|
        #[trigger] post.has_dir(q) <==> ((base.has_dir(q) && !(delete && src_dir(base, src0, q)
            && subtree_clean(base, q))) || created_dir(base, src0, dst0, q)))
}

/// A directory of the destination side never lies at or under the source.
proof fn lemma_created_not_under_src(
    src0: Seq<Seq<char>>,
    dst0: Seq<Seq<char>>,
    d: Seq<Seq<char>>,
    q: Seq<Seq<char>>,
)
    requires
        !is_under(src0, dst0),
        !is_under(dst0, src0),
        is_under(src0, d),
        dest_chain(map_spec(src0, dst0, d), q),
    ensures
        !is_under(src0, q),
{
    let md = map_spec(src0, dst0, d);
    let k = choose|k: int| 1 <= k <= md.len() && q == #[trigger] md.take(k);
    if k <= dst0.len() {
        assert(q =~= dst0.take(k));
        if is_under(src0, q) {
            lemma_under_take(src0, dst0, k);
        }
    } else {
        assert(is_under(dst0, q)) by {
            assert(q.take(dst0.len() as int) =~= dst0);
        }
        if is_under(src0, q) {
            lemma_ancestors_comparable(src0, dst0, q);
        }
    }
}

/// The directory a source file lies in is itself a source directory.
proof fn lemma_parent_in_tree(base: ModelFs, src0: Seq<Seq<char>>, f: Seq<Seq<char>>)
    requires
        base.wf(),
        src0.len() >= 1,
        base.has_file(f),
        strictly_under(src0, f),
    ensures
        f.len() >= 2,
        base.has_dir(parent_of(f)),
        is_under(src0, parent_of(f)),
        src_dir(base, src0, parent_of(f)),
{
    let i = choose|i: int|
        0 <= i < base.files@.len() && #[trigger] base.files@[i].path.deep_view() == f;
    assert(base.files@[i].path.deep_view().len() >= 2);
    assert(base.has_dir(parent_of(f)));
    assert(is_under(src0, parent_of(f))) by {
        assert(src0 =~= parent_of(f).subrange(0, src0.len() as int));
    }
}

/// Build the tasks for the subdirectories one invocation discovered.
fn make_child_tasks(source: &Vec<String>, dest: &Vec<String>, names: &Vec<String>) -> (ts: Vec<
    DirectoryTask,
>)
    ensures
        ts@.len() == names.deep_view().len(),
        forall|m: int|
            #![trigger ts@[m]]
            0 <= m < ts@.len() ==> ts@[m].source.deep_view() == source.deep_view().push(
                names.deep_view()[m],
            ) && ts@[m].dest.deep_view() == dest.deep_view().push(names.deep_view()[m]),
{
    let mut ts: Vec<DirectoryTask> = Vec::new();
    let mut i: usize = 0;
    while i < names.len()
        invariant
            i <= names@.len(),
            ts@.len() == i,
            forall|m: int|
                #![trigger ts@[m]]
                0 <= m < i ==> ts@[m].source.deep_view() == source.deep_view().push(
                    names.deep_view()[m],
                ) && ts@[m].dest.deep_view() == dest.deep_view().push(names.deep_view()[m]),
        decreases names@.len() - i,
    {
        let s = child_path(source, names[i].clone());
        let d = child_path(dest, names[i].clone());
        ts.push(DirectoryTask { source: s, dest: d });
        i += 1;
    }
    ts
}

/// Process one directory pair: make sure `dest` exists, copy every file
/// lying directly in `source` to its name under `dest`, remove the source
/// file after a successful copy when `delete_source` holds, and return the
/// names of the subdirectories of `source` together with the flag saying
/// whether every file was fully drained. File failures never abort the
/// directory: they only demote the flag.
#[verifier::loop_isolation(false)]
pub fn process_directory(
    fs: &mut ModelFs,
    source: &Vec<String>,
    dest: &Vec<String>,
    delete_source: bool,
) -> (r: (Vec<String>, bool))
    requires
        old(fs).wf(),
        old(fs).has_dir(source.deep_view()),
        dest.deep_view().len() >= 1,
        !is_under(source.deep_view(), dest.deep_view()),
        !is_under(dest.deep_view(), source.deep_view()),
    ensures
        final(fs).wf(),
        final(fs).fail_copy == old(fs).fail_copy,
        final(fs).fail_remove == old(fs).fail_remove,
        forall|q: Seq<Seq<char>>|
            #[trigger] final(fs).has_dir(q) <==> old(fs).has_dir(q) || dest_chain(
                dest.deep_view(),
                q,
            ),
        reports_children(*old(fs), source.deep_view(), r.0.deep_view()),
        forall|q: Seq<Seq<char>>|
            #[trigger] final(fs).has_file(q) <==> ((old(fs).has_file(q) && !(delete_source
                && child_file_of(*old(fs), source.deep_view(), q) && old(fs).file_clean(q)))
                || copy_target_of(*old(fs), source.deep_view(), dest.deep_view(), q)),
        forall|f: Seq<Seq<char>>|
            #[trigger] child_file_of(*old(fs), source.deep_view(), f) && !old(fs).copy_fails(f)
                ==> final(fs).has_file(dest.deep_view().push(f.last())) && final(fs).data_at(
                dest.deep_view().push(f.last()),
            ) == old(fs).data_at(f),
        forall|q: Seq<Seq<char>>|
            #[trigger] final(fs).has_file(q) && old(fs).has_file(q) && !copy_target_of(
                *old(fs),
                source.deep_view(),
                dest.deep_view(),
                q,
            ) ==> final(fs).data_at(q) == old(fs).data_at(q),
        r.1 == dir_files_clean(*old(fs), source.deep_view(), delete_source),
{
    let ghost src0 = source.deep_view();
    let ghost dst0 = dest.deep_view();
    let ghost base = *old(fs);
    fs.mkdir_all(dest);
    proof {
        ModelFs::lemma_files_same(base, *fs);
        ModelFs::lemma_marks_same(base, *fs);
        // nothing in the destination chain lies at or under the source
        assert forall|q: Seq<Seq<char>>| dest_chain(dst0, q) implies !is_under(src0, q) by {
            if is_under(src0, q) {
                let k = choose|k: int| 1 <= k <= dst0.len() && q == #[trigger] dst0.take(k);
                lemma_under_take(src0, dst0, k);
            }
        }
    }
    let subdirs = fs.list_child_dirs(source);
    let names = fs.list_child_files(source);
    proof {
        // the subdirectory report speaks of the original state
        assert forall|m: int|
            #![trigger subdirs.deep_view()[m]]
            0 <= m < subdirs.deep_view().len() implies base.has_dir(
            src0.push(subdirs.deep_view()[m]),
        ) by {
            let q = src0.push(subdirs.deep_view()[m]);
            assert(fs.has_dir(q));
            if !base.has_dir(q) {
                assert(dest_chain(dst0, q));
                assert(is_under(src0, q)) by {
                    assert(q.take(src0.len() as int) =~= src0);
                }
            }
        }
        assert forall|q: Seq<Seq<char>>|
            #[trigger] base.has_dir(q) && q.len() == src0.len() + 1 && is_under(
                src0,
                q,
            ) implies (exists|m: int|
            0 <= m < subdirs.deep_view().len() && #[trigger] subdirs.deep_view()[m]
                == q.last()) by {
            assert(fs.has_dir(q));
        }
    }
    let ghost nv = names.deep_view();
    proof {
        // listed children are exactly the files lying directly in the source
        assert forall|m: int|
            #![trigger nv[m]]
            0 <= m < nv.len() implies child_file_of(base, src0, src0.push(nv[m]))
                && base.has_file(src0.push(nv[m])) by {
            assert(fs.has_file(src0.push(nv[m])));
            assert(is_under(src0, src0.push(nv[m]))) by {
                assert(src0.push(nv[m]).take(src0.len() as int) =~= src0);
            }
        }
        assert forall|f: Seq<Seq<char>>|
            #[trigger] child_file_of(base, src0, f) implies (exists|m: int|
            0 <= m < nv.len() && f == src0.push(#[trigger] nv[m])) by {
            assert(fs.has_file(f));
            let m = choose|m: int| 0 <= m < nv.len() && #[trigger] nv[m] == f.last();
            assert(f =~= src0.push(f.last()));
        }
    }
    let mut clean = true;
    let mut i: usize = 0;
    let ghost mid = *fs;
    while i < names.len()
        invariant
            fs.wf(),
            i <= names@.len(),
            nv.len() == names@.len(),
            nv == names.deep_view(),
            src0 == source.deep_view(),
            dst0 == dest.deep_view(),
            dst0.len() >= 1,
            !is_under(src0, dst0),
            !is_under(dst0, src0),
            base.wf(),
            fs.fail_copy == base.fail_copy,
            fs.fail_remove == base.fail_remove,
            forall|q: Seq<Seq<char>>| #[trigger] fs.copy_fails(q) == base.copy_fails(q),
            forall|q: Seq<Seq<char>>| #[trigger] fs.remove_fails(q) == base.remove_fails(q),
            forall|q: Seq<Seq<char>>|
                #[trigger] fs.has_dir(q) <==> base.has_dir(q) || dest_chain(dst0, q),
            fs.has_dir(dst0),
            forall|m: int|
                #![trigger nv[m]]
                0 <= m < nv.len() ==> child_file_of(base, src0, src0.push(nv[m])),
            forall|m1: int, m2: int|
                0 <= m1 < m2 < nv.len() ==> #[trigger] nv[m1] != #[trigger] nv[m2],
            forall|m: int|
                #![trigger nv[m]]
                i <= m < nv.len() ==> fs.has_file(src0.push(nv[m])) && fs.data_at(src0.push(nv[m]))
                    == base.data_at(src0.push(nv[m])),
            forall|q: Seq<Seq<char>>|
                #[trigger] fs.has_file(q) <==> ((base.has_file(q) && !(delete_source && listed(
                    src0,
                    nv,
                    i as int,
                    q,
                ) && base.file_clean(q))) || copied_listed(base, src0, dst0, nv, i as int, q)),
            forall|m: int|
                #![trigger nv[m]]
                0 <= m < i && !base.copy_fails(src0.push(nv[m])) ==> fs.has_file(dst0.push(nv[m]))
                    && fs.data_at(dst0.push(nv[m])) == base.data_at(src0.push(nv[m])),
            forall|q: Seq<Seq<char>>|
                #[trigger] fs.has_file(q) && base.has_file(q) && !copied_listed(
                    base,
                    src0,
                    dst0,
                    nv,
                    i as int,
                    q,
                ) ==> fs.data_at(q) == base.data_at(q),
            clean == listed_clean(base, src0, nv, i as int, delete_source),
        decreases names@.len() - i,
    {
        let name_from = names[i].clone();
        let name_to = names[i].clone();
        let from = child_path(source, name_from);
        let to = child_path(dest, name_to);
        let ghost fromv = src0.push(nv[i as int]);
        let ghost tov = dst0.push(nv[i as int]);
        proof {
            assert(from.deep_view() == fromv);
            assert(to.deep_view() == tov);
            assert(parent_of(tov) =~= dst0);
            assert(tov.len() >= 2);
            // the destination of a child never collides with the source side
            assert(!is_under(src0, tov)) by {
                if is_under(src0, tov) {
                    assert(is_under(dst0, tov)) by {
                        assert(tov.take(dst0.len() as int) =~= dst0);
                    }
                    lemma_ancestors_comparable(src0, dst0, tov);
                }
            }
        }
        let ghost pre = *fs;
        let copied = fs.copy_file(&from, &to);
        if copied {
            proof {
                ModelFs::lemma_marks_same(pre, *fs);
                ModelFs::lemma_has_dir_same(pre, *fs);
            }
            if delete_source {
                let ghost pre2 = *fs;
                let removed = fs.remove_file(&from);
                proof {
                    if removed {
                        ModelFs::lemma_marks_same(pre2, *fs);
                        ModelFs::lemma_has_dir_same(pre2, *fs);
                    }
                }
                if !removed {
                    clean = false;
                }
            }
        } else {
            clean = false;
        }
        proof {
            let iold = i as int;
            let inew = i as int + 1;
            let cf = base.copy_fails(fromv);
            let rf = base.remove_fails(fromv);
            // the iteration settles this child and its destination
            assert forall|q: Seq<Seq<char>>|
                #[trigger] fs.has_file(q) <==> ((base.has_file(q) && !(delete_source && listed(
                    src0,
                    nv,
                    inew,
                    q,
                ) && base.file_clean(q))) || copied_listed(base, src0, dst0, nv, inew, q)) by {
                if listed(src0, nv, inew, q) && !listed(src0, nv, iold, q) {
                    let m = choose|m: int| 0 <= m < inew && q == src0.push(#[trigger] nv[m]);
                    assert(q == fromv);
                }
                if copied_listed(base, src0, dst0, nv, inew, q) && !copied_listed(
                    base,
                    src0,
                    dst0,
                    nv,
                    iold,
                    q,
                ) {
                    let m = choose|m: int|
                        0 <= m < inew && !base.copy_fails(src0.push(#[trigger] nv[m])) && q
                            == dst0.push(nv[m]);
                    assert(q == tov && !cf);
                }
                if listed(src0, nv, iold, q) {
                    let m = choose|m: int| 0 <= m < iold && q == src0.push(#[trigger] nv[m]);
                    assert(listed(src0, nv, inew, q));
                }
                if copied_listed(base, src0, dst0, nv, iold, q) {
                    let m = choose|m: int|
                        0 <= m < iold && !base.copy_fails(src0.push(#[trigger] nv[m])) && q
                            == dst0.push(nv[m]);
                    assert(copied_listed(base, src0, dst0, nv, inew, q));
                }
                if q == fromv {
                    assert(listed(src0, nv, inew, q));
                    if !cf {
                        assert(copied_listed(base, src0, dst0, nv, inew, tov));
                    }
                    if q == tov {
                        lemma_ancestors_comparable(src0, dst0, tov);
                    }
                }
                if q == tov && !cf {
                    assert(copied_listed(base, src0, dst0, nv, inew, q));
                }
            }
            // data clauses
            assert forall|m: int|
                #![trigger nv[m]]
                0 <= m < inew && !base.copy_fails(src0.push(nv[m])) implies fs.has_file(
                dst0.push(nv[m]),
            ) && fs.data_at(dst0.push(nv[m])) == base.data_at(src0.push(nv[m])) by {
                if m < iold {
                    assert(dst0.push(nv[m]) != tov) by {
                        assert(dst0.push(nv[m]).last() == nv[m]);
                    }
                } else {
                    assert(nv[m] == nv[iold as int]);
                }
            }
            assert forall|m: int|
                #![trigger nv[m]]
                inew <= m < nv.len() implies fs.has_file(src0.push(nv[m])) && fs.data_at(
                src0.push(nv[m]),
            ) == base.data_at(src0.push(nv[m])) by {
                let q = src0.push(nv[m]);
                assert(q != fromv) by {
                    assert(q.last() == nv[m]);
                }
                assert(!copied_listed(base, src0, dst0, nv, inew, q)) by {
                    if copied_listed(base, src0, dst0, nv, inew, q) {
                        let mm = choose|mm: int|
                            0 <= mm < inew && !base.copy_fails(src0.push(#[trigger] nv[mm])) && q
                                == dst0.push(nv[mm]);
                        assert(is_under(src0, q)) by {
                            assert(q.take(src0.len() as int) =~= src0);
                        }
                        assert(is_under(dst0, q)) by {
                            assert(q.take(dst0.len() as int) =~= dst0);
                        }
                        lemma_ancestors_comparable(src0, dst0, q);
                    }
                }
                assert(listed(src0, nv, inew, q) ==> false) by {
                    if listed(src0, nv, inew, q) {
                        let mm = choose|mm: int| 0 <= mm < inew && q == src0.push(#[trigger] nv[mm]);
                        assert(nv[mm] == q.last());
                        assert(q.last() == nv[m]);
                    }
                }
            }
            assert forall|q: Seq<Seq<char>>|
                #[trigger] fs.has_file(q) && base.has_file(q) && !copied_listed(
                    base,
                    src0,
                    dst0,
                    nv,
                    inew,
                    q,
                ) implies fs.data_at(q) == base.data_at(q) by {
                assert(!copied_listed(base, src0, dst0, nv, iold, q)) by {
                    if copied_listed(base, src0, dst0, nv, iold, q) {
                        let mm = choose|mm: int|
                            0 <= mm < iold && !base.copy_fails(src0.push(#[trigger] nv[mm])) && q
                                == dst0.push(nv[mm]);
                        assert(copied_listed(base, src0, dst0, nv, inew, q));
                    }
                }
                if !cf {
                    assert(q != tov) by {
                        if q == tov {
                            assert(copied_listed(base, src0, dst0, nv, inew, tov));
                        }
                    }
                }
            }
            assert(clean == listed_clean(base, src0, nv, inew, delete_source)) by {
                if clean {
                    assert forall|m: int| 0 <= m < inew implies !base.copy_fails(
                        src0.push(#[trigger] nv[m]),
                    ) && (delete_source ==> !base.remove_fails(src0.push(nv[m]))) by {
                        if m == iold {
                            assert(!cf && (delete_source ==> !rf));
                        }
                    }
                } else {
                    if listed_clean(base, src0, nv, inew, delete_source) {
                        assert(!base.copy_fails(src0.push(nv[iold as int])));
                        assert(listed_clean(base, src0, nv, iold, delete_source)) by {
                            assert forall|m: int| 0 <= m < iold implies !base.copy_fails(
                                src0.push(#[trigger] nv[m]),
                            ) && (delete_source ==> !base.remove_fails(src0.push(nv[m]))) by {}
                        }
                        assert(false);
                    }
                }
            }
        }
        i += 1;
    }
    proof {
        // translate the listing-indexed summary into the per-file contract
        let n = nv.len() as int;
        assert forall|q: Seq<Seq<char>>|
            #[trigger] fs.has_file(q) <==> ((base.has_file(q) && !(delete_source && child_file_of(
                base,
                src0,
                q,
            ) && base.file_clean(q))) || copy_target_of(base, src0, dst0, q)) by {
            if listed(src0, nv, n, q) {
                let m = choose|m: int| 0 <= m < n && q == src0.push(#[trigger] nv[m]);
                assert(child_file_of(base, src0, q));
            }
            if child_file_of(base, src0, q) {
                let m = choose|m: int| 0 <= m < nv.len() && q == src0.push(#[trigger] nv[m]);
                assert(listed(src0, nv, n, q));
            }
            if copied_listed(base, src0, dst0, nv, n, q) {
                let m = choose|m: int|
                    0 <= m < n && !base.copy_fails(src0.push(#[trigger] nv[m])) && q == dst0.push(
                        nv[m],
                    );
                assert(child_file_of(base, src0, src0.push(nv[m])));
                assert(src0.push(nv[m]).last() == nv[m]);
                assert(copy_target_of(base, src0, dst0, q));
            }
            if copy_target_of(base, src0, dst0, q) {
                let f = choose|f: Seq<Seq<char>>|
                    #[trigger] child_file_of(base, src0, f) && !base.copy_fails(f) && q
                        == dst0.push(f.last());
                let m = choose|m: int| 0 <= m < nv.len() && f == src0.push(#[trigger] nv[m]);
                assert(f.last() == nv[m]);
                assert(copied_listed(base, src0, dst0, nv, n, q));
            }
        }
        assert forall|f: Seq<Seq<char>>|
            #[trigger] child_file_of(base, src0, f) && !base.copy_fails(f) implies fs.has_file(
            dst0.push(f.last()),
        ) && fs.data_at(dst0.push(f.last())) == base.data_at(f) by {
            let m = choose|m: int| 0 <= m < nv.len() && f == src0.push(#[trigger] nv[m]);
            assert(f.last() == nv[m]);
        }
        assert forall|q: Seq<Seq<char>>|
            #[trigger] fs.has_file(q) && base.has_file(q) && !copy_target_of(
                base,
                src0,
                dst0,
                q,
            ) implies fs.data_at(q) == base.data_at(q) by {
            assert(!copied_listed(base, src0, dst0, nv, n, q)) by {
                if copied_listed(base, src0, dst0, nv, n, q) {
                    let m = choose|m: int|
                        0 <= m < n && !base.copy_fails(src0.push(#[trigger] nv[m])) && q
                            == dst0.push(nv[m]);
                    assert(child_file_of(base, src0, src0.push(nv[m])));
                    assert(src0.push(nv[m]).last() == nv[m]);
                    assert(copy_target_of(base, src0, dst0, q));
                }
            }
        }
        assert(clean == dir_files_clean(base, src0, delete_source)) by {
            if clean {
                assert forall|f: Seq<Seq<char>>|
                    #[trigger] child_file_of(base, src0, f) implies !base.copy_fails(f) && (
                delete_source ==> !base.remove_fails(f)) by {
                    let m = choose|m: int| 0 <= m < nv.len() && f == src0.push(#[trigger] nv[m]);
                }
            } else {
                if dir_files_clean(base, src0, delete_source) {
                    assert(listed_clean(base, src0, nv, nv.len() as int, delete_source)) by {
                        assert forall|m: int| 0 <= m < nv.len() implies !base.copy_fails(
                            src0.push(#[trigger] nv[m]),
                        ) && (delete_source ==> !base.remove_fails(src0.push(nv[m]))) by {
                            assert(child_file_of(base, src0, src0.push(nv[m])));
                        }
                    }
                    assert(false);
                }
            }
        }
    }
    proof {
        assert(reports_children(base, src0, subdirs.deep_view()));
    }
    (subdirs, clean)
}

/// `q` is a recorded directory, visited by the sweep at index `m` or later,
/// whose whole subtree is clean, so the sweep removed it.
spec fn marks(records: Seq<DirRecord>, base: ModelFs, m: int, q: Seq<Seq<char>>) -> bool {
    exists|ri: int|
        m <= ri < records.len() && #[trigger] records[ri].path.deep_view() == q && subtree_clean(
            base,
            q,
        )
}

/// The deletion pass: walk the finished directories children before
/// parents, consult the guard for each, and remove those it authorizes.
/// A directory disappears exactly when its whole subtree was drained
/// cleanly; any forced failure below it keeps it, and all its ancestors,
/// in place.
#[verifier::loop_isolation(false)]
#[verifier::rlimit(100)]
fn sweep_records(
    fs: &mut ModelFs,
    records: &Vec<DirRecord>,
    Ghost(base): Ghost<ModelFs>,
    Ghost(src0): Ghost<Seq<Seq<char>>>,
    Ghost(dst0): Ghost<Seq<Seq<char>>>,
)
    requires
        old(fs).wf(),
        base.wf(),
        src0.len() >= 1,
        dst0.len() >= 1,
        !is_under(src0, dst0),
        !is_under(dst0, src0),
        old(fs).fail_copy == base.fail_copy,
        old(fs).fail_remove == base.fail_remove,
        forall|ri: int|
            #![trigger records@[ri]]
            0 <= ri < records@.len() ==> src_dir(base, src0, records@[ri].path.deep_view())
                && records@[ri].files_ok == dir_files_clean(
                base,
                records@[ri].path.deep_view(),
                true,
            ),
        forall|q: Seq<Seq<char>>|
            #[trigger] src_dir(base, src0, q) ==> (exists|ri: int|
                0 <= ri < records@.len() && #[trigger] records@[ri].path.deep_view() == q),
        forall|r1: int, r2: int|
            0 <= r1 < r2 < records@.len() ==> #[trigger] records@[r1].path.deep_view()
                != #[trigger] records@[r2].path.deep_view(),
        forall|r1: int, r2: int|
            0 <= r1 < records@.len() && 0 <= r2 < records@.len() && strictly_under(
                #[trigger] records@[r1].path.deep_view(),
                #[trigger] records@[r2].path.deep_view(),
            ) ==> r1 < r2,
        forall|q: Seq<Seq<char>>|
            #[trigger] old(fs).has_dir(q) <==> base.has_dir(q) || created_dir(
                base,
                src0,
                dst0,
                q,
            ),
        forall|q: Seq<Seq<char>>|
            #[trigger] old(fs).has_file(q) <==> ((base.has_file(q) && !(src_file(base, src0, q)
                && base.file_clean(q))) || run_copy_target(base, src0, dst0, q)),
    ensures
        final(fs).wf(),
        final(fs).files == old(fs).files,
        final(fs).fail_copy == old(fs).fail_copy,
        final(fs).fail_remove == old(fs).fail_remove,
        forall|q: Seq<Seq<char>>|
            #[trigger] final(fs).has_dir(q) <==> ((base.has_dir(q) && !(src_dir(base, src0, q)
                && subtree_clean(base, q))) || created_dir(base, src0, dst0, q)),
{
    let ghost p1 = *old(fs);
    let mut m = records.len();
    while m > 0
        invariant
            0 <= m <= records@.len(),
            fs.wf(),
            fs.files == p1.files,
            fs.fail_copy == base.fail_copy,
            fs.fail_remove == base.fail_remove,
            forall|q: Seq<Seq<char>>|
                #[trigger] fs.has_dir(q) <==> ((base.has_dir(q) || created_dir(
                    base,
                    src0,
                    dst0,
                    q,
                )) && !marks(records@, base, m as int, q)),
        decreases m,
    {
        m = m - 1;
        let ghost dv = records@[m as int].path.deep_view();
        let ghost bound = m as int + 1;
        proof {
            ModelFs::lemma_files_same(p1, *fs);
            assert(src_dir(base, src0, dv));
            assert(is_under(src0, dv));
        }
        let pending = fs.any_dir_strictly_under(&records[m].path);
        let allow = may_delete(true, records[m].files_ok, pending);
        if allow {
            proof {
                // the guard passed: the subtree below has been fully drained
                assert(subtree_clean(base, dv)) by {
                    assert forall|f: Seq<Seq<char>>|
                        #[trigger] base.has_file(f) && strictly_under(dv, f) implies !base.copy_fails(
                        f,
                    ) && !base.remove_fails(f) by {
                        assert(strictly_under(src0, f)) by {
                            lemma_under_trans(src0, dv, f);
                            if src0.len() == f.len() {
                                assert(src0 =~= f);
                            }
                        }
                        lemma_parent_in_tree(base, src0, f);
                        let pstar = parent_of(f);
                        assert(is_under(dv, pstar)) by {
                            assert(dv =~= pstar.subrange(0, dv.len() as int));
                        }
                        if pstar == dv {
                            assert(child_file_of(base, dv, f)) by {
                                assert(f =~= dv.push(f.last()));
                                assert(is_under(dv, f)) by {
                                    assert(dv =~= f.take(dv.len() as int));
                                }
                            }
                            assert(dir_files_clean(base, dv, true));
                        } else {
                            // a deeper directory still standing would have
                            // kept the guard from firing
                            assert(strictly_under(dv, pstar)) by {
                                if dv.len() == pstar.len() {
                                    assert(dv =~= pstar);
                                }
                            }
                            assert(base.has_dir(pstar));
                            assert(fs.has_dir(pstar) ==> false);
                            assert(marks(records@, base, bound, pstar));
                            assert(subtree_clean(base, pstar));
                            assert(strictly_under(pstar, f)) by {
                                assert(is_under(pstar, f)) by {
                                    assert(pstar =~= f.take(pstar.len() as int));
                                }
                            }
                        }
                    }
                }
            }
            let ghost sfs = *fs;
            let ok = fs.remove_dir(&records[m].path);
            proof {
                // removal must succeed: nothing lives below the directory
                assert(sfs.dir_removable(dv)) by {
                    assert(sfs.has_dir(dv)) by {
                        if marks(records@, base, bound, dv) {
                            let ri = choose|ri: int|
                                bound <= ri < records@.len()
                                    && #[trigger] records@[ri].path.deep_view() == dv
                                    && subtree_clean(base, dv);
                            assert(records@[m as int].path.deep_view()
                                == records@[ri].path.deep_view());
                        }
                    }
                    assert forall|q: Seq<Seq<char>>|
                        #[trigger] sfs.has_file(q) implies !strictly_under(dv, q) by {
                        if strictly_under(dv, q) {
                            assert(p1.has_file(q));
                            assert(strictly_under(src0, q)) by {
                                lemma_under_trans(src0, dv, q);
                                if src0.len() == q.len() {
                                    assert(src0 =~= q);
                                }
                            }
                            if run_copy_target(base, src0, dst0, q) {
                                let f = choose|f: Seq<Seq<char>>|
                                    #[trigger] src_file(base, src0, f) && !base.copy_fails(f) && q
                                        == map_spec(src0, dst0, f);
                                assert(is_under(dst0, q)) by {
                                    assert(dst0 =~= q.take(dst0.len() as int));
                                }
                                lemma_ancestors_comparable(src0, dst0, q);
                            }
                            assert(base.has_file(q) && src_file(base, src0, q));
                            assert(base.file_clean(q));
                        }
                    }
                }
                assert(ok);
                // the removal is exactly the new mark
                assert forall|q: Seq<Seq<char>>|
                    #[trigger] fs.has_dir(q) <==> ((base.has_dir(q) || created_dir(
                        base,
                        src0,
                        dst0,
                        q,
                    )) && !marks(records@, base, m as int, q)) by {
                    if marks(records@, base, m as int, q) && !marks(records@, base, bound, q) {
                        let ri = choose|ri: int|
                            m <= ri < records@.len() && #[trigger] records@[ri].path.deep_view()
                                == q && subtree_clean(base, q);
                        assert(ri == m);
                        assert(q == dv);
                    }
                    if marks(records@, base, bound, q) {
                        let ri = choose|ri: int|
                            bound <= ri < records@.len() && #[trigger] records@[ri].path.deep_view()
                                == q && subtree_clean(base, q);
                        assert(marks(records@, base, m as int, q));
                    }
                    if q == dv {
                        assert(marks(records@, base, m as int, q));
                    }
                }
            }
        } else {
            proof {
                // the guard refused: something below is not drained, and the
                // directory must stay; it carries no mark either
                assert forall|q: Seq<Seq<char>>|
                    #[trigger] fs.has_dir(q) <==> ((base.has_dir(q) || created_dir(
                        base,
                        src0,
                        dst0,
                        q,
                    )) && !marks(records@, base, m as int, q)) by {
                    if marks(records@, base, m as int, q) && !marks(records@, base, bound, q) {
                        let ri = choose|ri: int|
                            m <= ri < records@.len() && #[trigger] records@[ri].path.deep_view()
                                == q && subtree_clean(base, q);
                        assert(ri == m);
                        assert(q == dv);
                        assert(subtree_clean(base, dv));
                        // with a clean subtree the guard cannot have refused
                        assert(records@[m as int].files_ok) by {
                            assert forall|f: Seq<Seq<char>>|
                                #[trigger] child_file_of(base, dv, f) implies !base.copy_fails(f)
                                && !base.remove_fails(f) by {
                                assert(strictly_under(dv, f)) by {
                                    assert(f.len() == dv.len() + 1);
                                }
                            }
                        }
                        let qq = choose|qq: Seq<Seq<char>>|
                            #[trigger] fs.has_dir(qq) && strictly_under(dv, qq);
                        if !base.has_dir(qq) {
                            let d2 = choose|d2: Seq<Seq<char>>|
                                #[trigger] src_dir(base, src0, d2) && dest_chain(
                                    map_spec(src0, dst0, d2),
                                    qq,
                                );
                            lemma_created_not_under_src(src0, dst0, d2, qq);
                            assert(is_under(src0, qq)) by {
                                lemma_under_trans(src0, dv, qq);
                            }
                        }
                        assert(base.has_dir(qq) && is_under(src0, qq)) by {
                            lemma_under_trans(src0, dv, qq);
                        }
                        assert(src_dir(base, src0, qq));
                        let rq = choose|rq: int|
                            0 <= rq < records@.len() && #[trigger] records@[rq].path.deep_view()
                                == qq;
                        assert(m < rq) by {
                            assert(strictly_under(
                                records@[m as int].path.deep_view(),
                                records@[rq].path.deep_view(),
                            ));
                        }
                        assert(subtree_clean(base, qq)) by {
                            assert forall|f: Seq<Seq<char>>|
                                #[trigger] base.has_file(f) && strictly_under(
                                    qq,
                                    f,
                                ) implies !base.copy_fails(f) && !base.remove_fails(f) by {
                                assert(strictly_under(dv, f)) by {
                                    lemma_under_trans(dv, qq, f);
                                    if dv.len() == f.len() {
                                        assert(dv =~= f);
                                    }
                                }
                            }
                        }
                        assert(marks(records@, base, bound, qq));
                        assert(false);
                    }
                    if marks(records@, base, bound, q) {
                        assert(marks(records@, base, m as int, q));
                    }
                }
            }
        }
    }
    proof {
        ModelFs::lemma_files_same(p1, *fs);
        // a mark is exactly a clean source directory
        assert forall|q: Seq<Seq<char>>|
            #[trigger] fs.has_dir(q) <==> ((base.has_dir(q) && !(src_dir(base, src0, q)
                && subtree_clean(base, q))) || created_dir(base, src0, dst0, q)) by {
            if marks(records@, base, 0, q) {
                let ri = choose|ri: int|
                    0 <= ri < records@.len() && #[trigger] records@[ri].path.deep_view() == q
                        && subtree_clean(base, q);
                assert(src_dir(base, src0, q));
            }
            if src_dir(base, src0, q) && subtree_clean(base, q) {
                let ri = choose|ri: int|
                    0 <= ri < records@.len() && #[trigger] records@[ri].path.deep_view() == q;
                assert(marks(records@, base, 0, q));
            }
            if created_dir(base, src0, dst0, q) && marks(records@, base, 0, q) {
                let d = choose|d: Seq<Seq<char>>|
                    #[trigger] src_dir(base, src0, d) && dest_chain(map_spec(src0, dst0, d), q);
                lemma_created_not_under_src(src0, dst0, d, q);
                let ri = choose|ri: int|
                    0 <= ri < records@.len() && #[trigger] records@[ri].path.deep_view() == q
                        && subtree_clean(base, q);
                assert(is_under(src0, q));
            }
        }
    }
}

} // verus!
