use rs_ync::{
    execute_file_movement_plan, get_struct_map, paths_to_blobs, plan_file_movements,
    struct_to_hashmap, Args, Blob, FakeFileSystem, FileOp, FsError, ProgressSink,
};

fn two_sided_fs() -> FakeFileSystem {
    let mut fs = FakeFileSystem::new();
    fs.insert_file(String::from("dir/file_1.txt"), String::from("hey"));
    fs.insert_file(String::from("dir/file_2.txt"), String::from("hello"));
    fs.insert_file(String::from("dir/file_3.txt"), String::from("world"));
    fs.insert_file(
        String::from("dir/some_file.rs"),
        String::from("let mut thing = Vec::new()"),
    );
    fs.insert_file(String::from("other_dir/file4.rs"), String::from("let x = 4;"));
    fs.insert_file(String::from("other_dir/file_5.txt"), String::from("hello"));
    fs.insert_file(String::from("other_dir/file_7.txt"), String::from("hello"));
    fs.insert_file(String::from("other_dir/file_2.txt"), String::from("hello"));
    fs
}

#[test]
fn test_planned_ops_scenario() {
    let mut fs = two_sided_fs();
    let src = get_struct_map("dir", &mut fs).unwrap();
    let dst = get_struct_map("other_dir", &mut fs).unwrap();

    let plan = plan_file_movements("other_dir", &src, &dst);
    assert_eq!(plan.len(), 6);

    let expected_copies = vec![
        ("dir/file_1.txt", "other_dir/file_1.txt"),
        ("dir/file_3.txt", "other_dir/file_3.txt"),
        ("dir/some_file.rs", "other_dir/some_file.rs"),
    ];
    for (i, (from, to)) in expected_copies.iter().enumerate() {
        match &plan[i] {
            FileOp::CopyFile { src_path, dst_path } => {
                assert_eq!(src_path, from);
                assert_eq!(dst_path, to);
            }
            other => panic!("expected a copy, got {:?}", other),
        }
    }
    let expected_deletes = vec![
        "other_dir/file4.rs",
        "other_dir/file_5.txt",
        "other_dir/file_7.txt",
    ];
    for (i, gone) in expected_deletes.iter().enumerate() {
        match &plan[3 + i] {
            FileOp::DeleteFile { path } => assert_eq!(path, gone),
            other => panic!("expected a delete, got {:?}", other),
        }
    }
}

#[test]
fn test_matching_fingerprint_plans_no_op() {
    let mut fs = FakeFileSystem::new();
    fs.insert_file(String::from("a/same.txt"), String::from("alike"));
    fs.insert_file(String::from("b/same.txt"), String::from("alike"));
    let src = get_struct_map("a", &mut fs).unwrap();
    let dst = get_struct_map("b", &mut fs).unwrap();
    let plan = plan_file_movements("b", &src, &dst);
    assert_eq!(plan.len(), 0);
}

#[test]
fn test_blob_root_path_is_malformed() {
    let fs = FakeFileSystem::new();
    assert_eq!(Blob::new("/", &fs).unwrap_err(), FsError::PathMalformed);
}

#[test]
fn test_blob_bare_name_is_malformed() {
    let mut fs = FakeFileSystem::new();
    fs.insert_file(String::from("lonely.txt"), String::from("x"));
    assert_eq!(Blob::new("lonely.txt", &fs).unwrap_err(), FsError::PathMalformed);
}

#[test]
fn test_blob_fingerprint_format() {
    let mut fs = FakeFileSystem::new();
    fs.insert_file(String::from("dir/file_1.txt"), String::from("hey"));
    let blob = Blob::new("dir/file_1.txt", &fs).unwrap();
    assert_eq!(blob.path, "dir/file_1.txt");
    assert_eq!(blob.basename, "file_1.txt");
    assert_eq!(blob.dir, "dir");
    assert_eq!(
        blob.hash,
        "fa690b82061edfd2852629aeba8a8977b57e40fcb77d1a7a28b26cba62591204"
    );
    assert_eq!(blob.size, 3);
    assert_eq!(
        blob.id,
        "file_1.txt-fa690b82061edfd2852629aeba8a8977b57e40fcb77d1a7a28b26cba62591204-3"
    );
}

#[test]
fn test_vanished_file_fails_whole_batch() {
    let mut fs = FakeFileSystem::new();
    fs.insert_file(String::from("dir/here.txt"), String::from("hi"));
    // A path that was listed but no longer exists when it is hashed.
    let paths = vec![String::from("dir/here.txt"), String::from("dir/gone.txt")];
    let err = paths_to_blobs(&paths, &fs).unwrap_err();
    assert_eq!(err, FsError::IoFailure);
}

#[test]
fn test_struct_to_hashmap_last_one_wins() {
    let mut fs = FakeFileSystem::new();
    fs.insert_file(String::from("a/x.txt"), String::from("one"));
    fs.insert_file(String::from("b/x.txt"), String::from("one"));
    let b1 = Blob::new("a/x.txt", &fs).unwrap();
    let b2 = Blob::new("b/x.txt", &fs).unwrap();
    assert_eq!(b1.id, b2.id);
    let map = struct_to_hashmap(vec![b1, b2.clone()]);
    assert_eq!(map.len(), 1);
    assert_eq!(map.get(&b2.id).unwrap().path, "b/x.txt");
}

struct CountingSink {
    done: usize,
    finished: usize,
}

impl ProgressSink for CountingSink {
    fn op_done(&mut self, completed: usize) {
        self.done = completed;
    }

    fn finished(&mut self) {
        self.finished += 1;
    }
}

#[test]
fn test_executor_reports_progress_and_stops_on_failure() {
    let mut fs = FakeFileSystem::new();
    fs.insert_file(String::from("dir/a.txt"), String::from("a"));
    let plan = vec![
        FileOp::CopyFile {
            src_path: String::from("dir/a.txt"),
            dst_path: String::from("other/a.txt"),
        },
        FileOp::DeleteFile {
            path: String::from("other/missing.txt"),
        },
        FileOp::CopyFile {
            src_path: String::from("dir/a.txt"),
            dst_path: String::from("other/never.txt"),
        },
    ];
    let mut sink = CountingSink { done: 0, finished: 0 };
    let err = execute_file_movement_plan(&mut fs, plan, &mut sink).unwrap_err();
    assert_eq!(err, FsError::NotFound);
    // The first operation ran, the failing one stopped the run.
    assert_eq!(sink.done, 1);
    assert_eq!(sink.finished, 0);
    assert_eq!(fs.content_of("other/a.txt"), Some(&String::from("a")));
    assert_eq!(fs.content_of("other/never.txt"), None);
}

#[test]
fn test_executor_runs_whole_plan() {
    let mut fs = FakeFileSystem::new();
    fs.insert_file(String::from("dir/a.txt"), String::from("a"));
    fs.insert_file(String::from("other/old.txt"), String::from("old"));
    let plan = vec![
        FileOp::CopyFile {
            src_path: String::from("dir/a.txt"),
            dst_path: String::from("other/a.txt"),
        },
        FileOp::DeleteFile {
            path: String::from("other/old.txt"),
        },
    ];
    let mut sink = CountingSink { done: 0, finished: 0 };
    execute_file_movement_plan(&mut fs, plan, &mut sink).unwrap();
    assert_eq!(sink.done, 2);
    assert_eq!(sink.finished, 1);
    assert_eq!(fs.content_of("other/old.txt"), None);
    assert_eq!(fs.content_of("other/a.txt"), Some(&String::from("a")));
}

#[test]
fn test_snapshot_build_fails_on_malformed_listing() {
    let mut fs = FakeFileSystem::new();
    // The root itself is a file: its own name has no parent component.
    fs.insert_file(String::from("dir"), String::from("not a directory"));
    let err = match get_struct_map("dir", &mut fs) {
        Err(e) => e,
        Ok(_) => panic!("expected the build to fail"),
    };
    assert_eq!(err, FsError::PathMalformed);
}

#[test]
fn test_execute_rsync_empty_source_clears_destination() {
    let mut fs = FakeFileSystem::new();
    fs.insert_file(String::from("other_dir/left.txt"), String::from("over"));
    let args = Args {
        src_dir: String::from("dir"),
        dst_dir: String::from("other_dir"),
    };
    rs_ync::execute_rsync(args, &mut fs).unwrap();
    assert_eq!(fs.file_count(), 0);
}

#[test]
fn test_nested_source_file_copies_to_destination_root() {
    let mut fs = FakeFileSystem::new();
    fs.insert_file(String::from("dir/sub/deep.txt"), String::from("below"));
    let args = Args {
        src_dir: String::from("dir"),
        dst_dir: String::from("other_dir"),
    };
    rs_ync::execute_rsync(args, &mut fs).unwrap();
    // A copy lands at the destination root joined with the basename.
    assert_eq!(fs.content_of("other_dir/deep.txt"), Some(&String::from("below")));
}

#[test]
fn test_same_name_different_content_loses_the_slot() {
    // The name-sensitive identity treats these as unrelated files, and the
    // plan orders every copy before every delete. The copy lands on the
    // superseded file's own path, so the later delete removes the fresh
    // copy again. The reconciliation laws exclude this input: the copy's
    // target path already exists in the destination.
    let mut fs = FakeFileSystem::new();
    fs.insert_file(String::from("a/x.txt"), String::from("new"));
    fs.insert_file(String::from("b/x.txt"), String::from("old"));
    let args = Args {
        src_dir: String::from("a"),
        dst_dir: String::from("b"),
    };
    rs_ync::execute_rsync(args, &mut fs).unwrap();
    assert_eq!(fs.content_of("b/x.txt"), None);
    assert_eq!(fs.file_count(), 1);
}
