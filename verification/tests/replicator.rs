use rs_copier::engine::process_directory;
use rs_copier::fsmodel::ModelFs;
use rs_copier::guard::may_delete;
use rs_copier::paths::map_path;
use rs_copier::paths::PathError;
use rs_copier::plan::plan_directory;
use rs_copier::plan::all_files_removed;
use rs_copier::plan::DirEntry;
use rs_copier::plan::EntryKind;
use rs_copier::plan::FileOutcome;
use rs_copier::sched::Config;
use rs_copier::sched::DirectoryTask;
use rs_copier::sched::Scheduler;

fn p(parts: &[&str]) -> Vec<String> {
    let mut v = Vec::new();
    for s in parts {
        v.push(s.to_string());
    }
    v
}

#[test]
fn empty_directory() {
    let mut fs = ModelFs::empty();
    let source = p(&["empty_directory", "source"]);
    let dest = p(&["empty_directory", "dest"]);
    fs.mkdir_all(&source);
    assert_eq!(fs.dir_exists(&dest), false);
    let (subs, _) = process_directory(&mut fs, &source, &dest, false);
    assert_eq!(fs.dir_exists(&source), true);
    assert_eq!(fs.dir_exists(&dest), true);
    assert_eq!(subs.len(), 0);
}

#[test]
fn only_files() {
    let mut fs = ModelFs::empty();
    let source = p(&["only_files", "source"]);
    let dest = p(&["only_files", "dest"]);
    fs.mkdir_all(&source);
    fs.write_file(&p(&["only_files", "source", "file1"]), b"text".to_vec());
    fs.write_file(&p(&["only_files", "source", "file2"]), b"text".to_vec());
    assert_eq!(fs.dir_exists(&dest), false);
    process_directory(&mut fs, &source, &dest, false);
    assert_eq!(fs.file_exists(&p(&["only_files", "source", "file1"])), true);
    assert_eq!(fs.file_exists(&p(&["only_files", "source", "file2"])), true);
    assert_eq!(fs.dir_exists(&dest), true);
    assert_eq!(fs.file_exists(&p(&["only_files", "dest", "file1"])), true);
    assert_eq!(fs.file_exists(&p(&["only_files", "dest", "file2"])), true);
    assert_eq!(fs.data_of(&p(&["only_files", "dest", "file1"])), b"text".to_vec());
    assert_eq!(fs.data_of(&p(&["only_files", "dest", "file2"])), b"text".to_vec());
}

#[test]
fn only_files_delete() {
    let mut fs = ModelFs::empty();
    let source = p(&["only_files_delete", "source"]);
    let dest = p(&["only_files_delete", "dest"]);
    fs.mkdir_all(&source);
    fs.write_file(&p(&["only_files_delete", "source", "file1"]), b"text".to_vec());
    fs.write_file(&p(&["only_files_delete", "source", "file2"]), b"text".to_vec());
    assert_eq!(fs.dir_exists(&dest), false);
    let (res, clean) = process_directory(&mut fs, &source, &dest, true);
    assert_eq!(fs.file_exists(&p(&["only_files_delete", "source", "file1"])), false);
    assert_eq!(fs.file_exists(&p(&["only_files_delete", "source", "file2"])), false);
    assert_eq!(fs.dir_exists(&dest), true);
    assert_eq!(fs.file_exists(&p(&["only_files_delete", "dest", "file1"])), true);
    assert_eq!(fs.file_exists(&p(&["only_files_delete", "dest", "file2"])), true);
    assert_eq!(res.len(), 0);
    assert!(clean);
}

#[test]
fn nested() {
    let mut fs = ModelFs::empty();
    let source = p(&["nested", "source"]);
    let dest = p(&["nested", "dest"]);
    fs.mkdir_all(&source);
    fs.write_file(&p(&["nested", "source", "file1"]), b"text".to_vec());
    fs.write_file(&p(&["nested", "source", "file2"]), b"text".to_vec());
    fs.mkdir_all(&p(&["nested", "source", "nested"]));
    fs.write_file(&p(&["nested", "source", "nested", "file3"]), b"text".to_vec());
    fs.write_file(&p(&["nested", "source", "nested", "file4"]), b"text".to_vec());
    assert_eq!(fs.dir_exists(&dest), false);
    let (res, _) = process_directory(&mut fs, &source, &dest, false);
    assert_eq!(fs.file_exists(&p(&["nested", "source", "file1"])), true);
    assert_eq!(fs.file_exists(&p(&["nested", "source", "file2"])), true);
    assert_eq!(fs.dir_exists(&dest), true);
    assert_eq!(fs.file_exists(&p(&["nested", "dest", "file1"])), true);
    assert_eq!(fs.file_exists(&p(&["nested", "dest", "file2"])), true);
    assert_eq!(res.len(), 1);
    assert_eq!(res[0], "nested".to_string());
    let nested_src = p(&["nested", "source", "nested"]);
    let nested_dest = p(&["nested", "dest", "nested"]);
    let (res, _) = process_directory(&mut fs, &nested_src, &nested_dest, false);
    assert_eq!(res.len(), 0);
    assert_eq!(fs.dir_exists(&nested_dest), true);
    assert_eq!(fs.file_exists(&p(&["nested", "dest", "nested", "file3"])), true);
    assert_eq!(fs.file_exists(&p(&["nested", "dest", "nested", "file4"])), true);
}

#[test]
fn forced_copy_failure_blocks_draining() {
    let mut fs = ModelFs::empty();
    let source = p(&["fail", "source"]);
    let dest = p(&["fail", "dest"]);
    fs.mkdir_all(&source);
    fs.write_file(&p(&["fail", "source", "file1"]), b"text".to_vec());
    fs.write_file(&p(&["fail", "source", "file2"]), b"text".to_vec());
    fs.force_copy_failure(&p(&["fail", "source", "file1"]));
    let (_, clean) = process_directory(&mut fs, &source, &dest, true);
    assert!(!clean);
    // the failing file is left untouched, in place, and never copied
    assert_eq!(fs.file_exists(&p(&["fail", "source", "file1"])), true);
    assert_eq!(fs.file_exists(&p(&["fail", "dest", "file1"])), false);
    // its sibling is moved normally
    assert_eq!(fs.file_exists(&p(&["fail", "source", "file2"])), false);
    assert_eq!(fs.file_exists(&p(&["fail", "dest", "file2"])), true);
    // the guard therefore refuses to remove the directory
    assert_eq!(may_delete(true, clean, false), false);
}

#[test]
fn forced_remove_failure_blocks_draining() {
    let mut fs = ModelFs::empty();
    let source = p(&["failrm", "source"]);
    let dest = p(&["failrm", "dest"]);
    fs.mkdir_all(&source);
    fs.write_file(&p(&["failrm", "source", "file1"]), b"text".to_vec());
    fs.force_remove_failure(&p(&["failrm", "source", "file1"]));
    let (_, clean) = process_directory(&mut fs, &source, &dest, true);
    assert!(!clean);
    // the copy went through but the source could not be removed
    assert_eq!(fs.file_exists(&p(&["failrm", "source", "file1"])), true);
    assert_eq!(fs.file_exists(&p(&["failrm", "dest", "file1"])), true);
}

#[test]
fn copy_twice_is_idempotent() {
    let mut fs = ModelFs::empty();
    let source = p(&["twice", "source"]);
    let dest = p(&["twice", "dest"]);
    fs.mkdir_all(&source);
    fs.write_file(&p(&["twice", "source", "file1"]), b"text".to_vec());
    process_directory(&mut fs, &source, &dest, false);
    process_directory(&mut fs, &source, &dest, false);
    assert_eq!(fs.file_exists(&p(&["twice", "source", "file1"])), true);
    assert_eq!(fs.file_exists(&p(&["twice", "dest", "file1"])), true);
    assert_eq!(fs.data_of(&p(&["twice", "dest", "file1"])), b"text".to_vec());
}

#[test]
fn mapper_reroots_descendants() {
    let base = p(&["src"]);
    let target = p(&["dst"]);
    let inside = p(&["src", "nested", "file3"]);
    assert_eq!(map_path(&base, &target, &inside), Ok(p(&["dst", "nested", "file3"])));
    let outside = p(&["elsewhere", "file"]);
    assert_eq!(map_path(&base, &target, &outside), Err(PathError::NotDescendant));
}

#[test]
fn guard_truth_table() {
    assert_eq!(may_delete(true, true, false), true);
    assert_eq!(may_delete(true, true, true), false);
    assert_eq!(may_delete(true, false, false), false);
    assert_eq!(may_delete(false, true, false), false);
}

#[test]
fn plan_partitions_entries() {
    let entries = vec![
        DirEntry { name: "a".to_string(), kind: EntryKind::File },
        DirEntry { name: "b".to_string(), kind: EntryKind::Directory },
        DirEntry { name: "c".to_string(), kind: EntryKind::Other },
        DirEntry { name: "d".to_string(), kind: EntryKind::File },
    ];
    let plan = plan_directory(entries);
    assert_eq!(plan.copies, vec!["a".to_string(), "d".to_string()]);
    assert_eq!(plan.subdirs, vec!["b".to_string()]);
    assert_eq!(plan.skipped, vec!["c".to_string()]);
}

#[test]
fn outcome_summary() {
    let ok = vec![FileOutcome { copied: true, removed: true }];
    assert_eq!(all_files_removed(&ok), true);
    let bad = vec![
        FileOutcome { copied: true, removed: true },
        FileOutcome { copied: true, removed: false },
    ];
    assert_eq!(all_files_removed(&bad), false);
    let none: Vec<FileOutcome> = Vec::new();
    assert_eq!(all_files_removed(&none), true);
}

#[test]
fn scheduler_bounds_in_flight() {
    let cfg = Config::new(false, 2);
    let mut s = Scheduler::new(cfg.concurrency);
    s.enqueue(DirectoryTask { source: p(&["src", "a"]), dest: p(&["dst", "a"]) });
    s.enqueue(DirectoryTask { source: p(&["src", "b"]), dest: p(&["dst", "b"]) });
    s.enqueue(DirectoryTask { source: p(&["src", "c"]), dest: p(&["dst", "c"]) });
    assert!(s.can_dispatch());
    let t1 = s.dispatch();
    assert_eq!(t1.source, p(&["src", "c"]));
    assert!(s.can_dispatch());
    let _t2 = s.dispatch();
    // both slots taken: the limit stops further dispatching
    assert!(!s.can_dispatch());
    assert!(s.in_flight <= s.limit);
    s.complete(vec![DirectoryTask { source: p(&["src", "c", "d"]), dest: p(&["dst", "c", "d"]) }]);
    assert!(s.can_dispatch());
    assert!(!s.done());
}
