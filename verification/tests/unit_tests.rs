use rs_ync::{bytes_to_hex, join_path, path_under, split_path, u64_to_dec, FakeFileSystem, FileSystem, FsError, OrdMap};

#[test]
fn test_u64_to_dec_renders_decimal() {
    assert_eq!(u64_to_dec(0), "0");
    assert_eq!(u64_to_dec(7), "7");
    assert_eq!(u64_to_dec(10), "10");
    assert_eq!(u64_to_dec(1234567890), "1234567890");
    assert_eq!(u64_to_dec(u64::MAX), "18446744073709551615");
}

#[test]
fn test_bytes_to_hex_two_digits_per_byte() {
    assert_eq!(bytes_to_hex(&vec![]), "");
    assert_eq!(bytes_to_hex(&vec![0x00, 0xff, 0x1a]), "00ff1a");
    assert_eq!(bytes_to_hex(&vec![0x09]), "09");
}

#[test]
fn test_split_path_dir_and_basename() {
    assert_eq!(
        split_path("a/b/c.txt"),
        Some((String::from("a/b"), String::from("c.txt")))
    );
    assert_eq!(
        split_path("dir/file_1.txt"),
        Some((String::from("dir"), String::from("file_1.txt")))
    );
}

#[test]
fn test_split_path_rejects_malformed() {
    assert_eq!(split_path("/"), None);
    assert_eq!(split_path(""), None);
    assert_eq!(split_path("bare.txt"), None);
    assert_eq!(split_path("/rooted.txt"), None);
    assert_eq!(split_path("dir/"), None);
}

#[test]
fn test_path_under_component_prefix() {
    assert!(path_under("dir", "dir/f.txt"));
    assert!(path_under("dir", "dir/sub/f.txt"));
    assert!(path_under("dir", "dir"));
    assert!(!path_under("dir", "dirx/f.txt"));
    assert!(!path_under("dir", "di"));
    assert!(!path_under("dir", "other/f.txt"));
}

#[test]
fn test_join_path_inserts_separator() {
    assert_eq!(join_path("dir", "f.txt"), "dir/f.txt");
}

#[test]
fn test_ordmap_sorted_unique_keys() {
    let mut map: OrdMap<u64> = OrdMap::new();
    map.insert(String::from("pear"), 1);
    map.insert(String::from("apple"), 2);
    map.insert(String::from("orange"), 3);
    map.insert(String::from("apple"), 4);
    assert_eq!(map.len(), 3);
    assert_eq!(map.key_at(0), "apple");
    assert_eq!(map.key_at(1), "orange");
    assert_eq!(map.key_at(2), "pear");
    assert_eq!(map.get("apple"), Some(&4));
    assert_eq!(map.get("plum"), None);
    assert_eq!(map.remove("orange"), Some(3));
    assert_eq!(map.remove("orange"), None);
    assert_eq!(map.len(), 2);
}

#[test]
fn test_fake_fs_move_and_delete_log_and_errors() {
    let mut fs = FakeFileSystem::new();
    fs.insert_file(String::from("a/x.txt"), String::from("body"));
    fs.move_file("a/x.txt", "a/y.txt").unwrap();
    assert_eq!(fs.content_of("a/x.txt"), None);
    assert_eq!(fs.content_of("a/y.txt"), Some(&String::from("body")));
    assert_eq!(fs.move_file("a/x.txt", "a/z.txt").unwrap_err(), FsError::NotFound);
    assert_eq!(fs.delete_file("a/missing.txt").unwrap_err(), FsError::NotFound);
    fs.copy_file("a/y.txt", "a/x.txt").unwrap();
    fs.delete_file("a/y.txt").unwrap();
    let expected = vec![
        "move: `a/x.txt` -> `a/y.txt`",
        "copy: `a/y.txt` -> `a/x.txt`",
        "delete: `a/y.txt`",
    ];
    assert_eq!(fs.operations(), &expected);
}

#[test]
fn test_fake_fs_hash_missing_is_io_failure() {
    let fs = FakeFileSystem::new();
    assert_eq!(fs.hash_file("nowhere/f.txt").unwrap_err(), FsError::IoFailure);
    assert_eq!(fs.size("nowhere/f.txt").unwrap_err(), FsError::IoFailure);
}

#[test]
fn test_fake_fs_list_is_sorted_and_scoped() {
    let mut fs = FakeFileSystem::new();
    fs.insert_file(String::from("dir/b.txt"), String::from("2"));
    fs.insert_file(String::from("dir/a.txt"), String::from("1"));
    fs.insert_file(String::from("dirx/c.txt"), String::from("3"));
    fs.insert_file(String::from("other/d.txt"), String::from("4"));
    let listed = fs.list_files("dir");
    assert_eq!(listed, vec!["dir/a.txt", "dir/b.txt"]);
}

#[test]
fn test_fake_fs_size_is_byte_length() {
    let mut fs = FakeFileSystem::new();
    fs.insert_file(String::from("dir/a.txt"), String::from("hello"));
    assert_eq!(fs.size("dir/a.txt").unwrap(), 5);
}
