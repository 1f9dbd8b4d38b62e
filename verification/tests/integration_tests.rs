use rs_ync::{execute_rsync, Args, FakeFileSystem};

fn setup_fake_fs() -> FakeFileSystem {
    let mut file_sys = FakeFileSystem::new();

    let values = vec![
        ("dir/file_1.txt", "hey"),
        ("dir/file_2.txt", "hello"),
        ("dir/file_3.txt", "world"),
        ("dir/some_file.rs", "let mut thing = Vec::new()"),
        ("other_dir/file4.rs", "let x = 4;"),
        ("other_dir/file_5.txt", "hello"),
        ("other_dir/file_7.txt", "hello"),
        ("other_dir/file_2.txt", "hello"),
    ];

    for (name, content) in values {
        file_sys.insert_file(String::from(name), String::from(content));
    }
    file_sys
}

#[test]
fn test_edge_to_edge() {
    let mut file_sys = setup_fake_fs();

    let args = Args {
        src_dir: String::from("dir"),
        dst_dir: String::from("other_dir"),
    };
    let _ = execute_rsync(args, &mut file_sys);

    let expected_result = vec![
        ("other_dir/file_1.txt", "hey"),
        ("dir/file_3.txt", "world"),
        ("dir/some_file.rs", "let mut thing = Vec::new()"),
        ("other_dir/file_3.txt", "world"),
        ("dir/file_2.txt", "hello"),
        ("other_dir/some_file.rs", "let mut thing = Vec::new()"),
        ("dir/file_1.txt", "hey"),
        ("other_dir/file_2.txt", "hello"),
    ];

    assert_eq!(file_sys.file_count(), expected_result.len());
    for (path, content) in expected_result {
        assert_eq!(file_sys.content_of(path), Some(&String::from(content)));
    }

    let expected_ops = vec![
        "list: `dir`",
        "list: `other_dir`",
        "copy: `dir/file_1.txt` -> `other_dir/file_1.txt`",
        "copy: `dir/file_3.txt` -> `other_dir/file_3.txt`",
        "copy: `dir/some_file.rs` -> `other_dir/some_file.rs`",
        "delete: `other_dir/file4.rs`",
        "delete: `other_dir/file_5.txt`",
        "delete: `other_dir/file_7.txt`",
    ];

    assert_eq!(file_sys.operations(), &expected_ops);
}

#[test]
fn test_second_run_plans_nothing() {
    let mut file_sys = setup_fake_fs();

    let args = Args {
        src_dir: String::from("dir"),
        dst_dir: String::from("other_dir"),
    };
    execute_rsync(args, &mut file_sys).unwrap();
    let ops_after_first = file_sys.operations().len();

    let args_again = Args {
        src_dir: String::from("dir"),
        dst_dir: String::from("other_dir"),
    };
    execute_rsync(args_again, &mut file_sys).unwrap();

    // The second run only lists the two directories: no copy, no delete.
    let ops = file_sys.operations();
    assert_eq!(ops.len(), ops_after_first + 2);
    assert_eq!(ops[ops_after_first], "list: `dir`");
    assert_eq!(ops[ops_after_first + 1], "list: `other_dir`");
}

#[test]
fn test_fingerprint_sets_match_after_run() {
    let mut file_sys = setup_fake_fs();

    let args = Args {
        src_dir: String::from("dir"),
        dst_dir: String::from("other_dir"),
    };
    execute_rsync(args, &mut file_sys).unwrap();

    let src_snap = rs_ync::get_struct_map("dir", &mut file_sys).unwrap();
    let dst_snap = rs_ync::get_struct_map("other_dir", &mut file_sys).unwrap();

    assert_eq!(src_snap.len(), 4);
    assert_eq!(src_snap.len(), dst_snap.len());
    for i in 0..src_snap.len() {
        assert_eq!(src_snap.key_at(i), dst_snap.key_at(i));
    }
}
