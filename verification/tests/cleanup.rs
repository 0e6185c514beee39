//! Firmware cleanup: files, links, directories and sizes, on a file system in
//! memory.
use image_janitor::cleanup::{
    cleanup_firmware, directories_to_check, is_dangling, is_removable, judge_file, CleanupPass,
    FileVerdict, SizeTally, UnusedScan,
};
use image_janitor::error::JanitorError;
use image_janitor::firmware::WalkEntry;
use image_janitor::path_set::PathSet;
use std::collections::{BTreeMap, BTreeSet};

fn set_of(paths: &[&str]) -> PathSet {
    let mut set = PathSet::new();
    for path in paths {
        set.insert(path);
    }
    set
}

/// Goes through the files, and removes those that are to go.
fn remove_unused_files(
    files: &mut BTreeMap<String, u64>,
    fw_dir: &str,
    required: PathSet,
    delete: bool,
) -> u64 {
    let mut scan = UnusedScan::new(fw_dir, required, delete);
    for (path, size) in files.clone() {
        if scan.visit(&path, true, Ok(size)).unwrap() == FileVerdict::Remove {
            files.remove(&path);
        }
    }
    scan.savings().bytes()
}

#[test]
fn test_remove_unused_files() {
    let mut files = BTreeMap::new();
    files.insert("/f/required.bin".to_string(), "required_data".len() as u64);
    files.insert("/f/unused.bin".to_string(), "unused_data".len() as u64);

    // Test without deleting
    let unused_size = remove_unused_files(&mut files, "/f", set_of(&["required.bin"]), false);
    assert_eq!(unused_size, 11); // "unused_data".len()
    assert!(files.contains_key("/f/unused.bin"));
    assert!(files.contains_key("/f/required.bin"));

    // Test with deleting
    let unused_size_del = remove_unused_files(&mut files, "/f", set_of(&["required.bin"]), true);
    assert_eq!(unused_size_del, 11);
    assert!(!files.contains_key("/f/unused.bin"));
    assert!(files.contains_key("/f/required.bin"));
}

#[test]
fn test_remove_dangling_symlinks() {
    let mut disk: BTreeMap<&str, Option<&str>> = BTreeMap::new();
    disk.insert("/f/target.bin", None);
    disk.insert("/f/valid_link", Some("/f/target.bin"));
    disk.insert("/f/dangling_link", Some("/f/non_existent_file"));

    for (path, target) in disk.clone() {
        let leads_somewhere = match target {
            Some(target) => disk.contains_key(target),
            None => true,
        };
        if is_dangling(target.is_some(), leads_somewhere) {
            disk.remove(path);
        }
    }

    assert!(disk.contains_key("/f/target.bin"));
    assert!(disk.contains_key("/f/valid_link"));
    assert!(!disk.contains_key("/f/dangling_link"));
}

fn directory(path: &str) -> WalkEntry {
    WalkEntry { path: path.to_string(), is_file: false, is_dir: true, is_symlink: false }
}

fn plain_file(path: &str) -> WalkEntry {
    WalkEntry { path: path.to_string(), is_file: true, is_dir: false, is_symlink: false }
}

/// Removes the empty directories, in one pass.
fn remove_empty_directories(disk: &mut BTreeMap<String, bool>, fw_dir: &str) {
    let entries: Vec<WalkEntry> = disk
        .iter()
        .map(|(path, is_dir)| if *is_dir { directory(path) } else { plain_file(path) })
        .collect();
    for at in directories_to_check(&entries) {
        let path = &entries[at].path;
        let inside = format!("{}/", path);
        let holds_nothing = !disk.keys().any(|other| other.starts_with(&inside));
        if is_removable(path, fw_dir, holds_nothing) {
            disk.remove(path);
        }
    }
}

#[test]
fn test_remove_empty_directories() {
    let mut disk = BTreeMap::new();
    for dir in ["/f", "/f/a", "/f/a/b", "/f/a/c", "/f/d"] {
        disk.insert(dir.to_string(), true);
    }
    disk.insert("/f/a/c/file.txt".to_string(), false);

    assert!(disk.contains_key("/f/a/b"));
    assert!(disk.contains_key("/f/d"));

    remove_empty_directories(&mut disk, "/f");

    // Assert empty directories are removed
    assert!(!disk.contains_key("/f/a/b"));
    assert!(!disk.contains_key("/f/d"));

    // Assert non-empty directories (and the root) remain
    assert!(disk.contains_key("/f/a"));
    assert!(disk.contains_key("/f/a/c"));
    assert!(disk.contains_key("/f"));

    // Run again to ensure it handles the case where 'a' is now empty
    disk.remove("/f/a/c/file.txt");
    disk.remove("/f/a/c");
    remove_empty_directories(&mut disk, "/f");
    assert!(!disk.contains_key("/f/a"));
}

#[test]
fn nested_empty_directories_go_in_one_pass() {
    let mut disk = BTreeMap::new();
    for dir in ["/f", "/f/a", "/f/a/b", "/f/a/b/c", "/f/x", "/f/x/y", "/f/x/z"] {
        disk.insert(dir.to_string(), true);
    }
    disk.insert("/f/x/z/1".to_string(), false);
    remove_empty_directories(&mut disk, "/f");
    let left: BTreeSet<&str> = disk.keys().map(|k| k.as_str()).collect();
    assert_eq!(left, BTreeSet::from(["/f", "/f/x", "/f/x/z", "/f/x/z/1"]));
}

#[test]
fn firmware_directory_itself_stays() {
    assert!(!is_removable("/f", "/f/", true));
    assert!(is_removable("/f/a", "/f/", true));
    assert!(!is_removable("/f/a", "/f/", false));
}

#[test]
fn directories_are_checked_from_the_deepest_up() {
    let mut entries = vec![
        directory("/f"),
        directory("/f/a"),
        directory("/f/a/b"),
        plain_file("/f/a/b/file"),
        directory("/f/c"),
        directory("/f/c//d/"),
        directory("/f/link"),
    ];
    entries[6].is_symlink = true;
    assert_eq!(directories_to_check(&entries), vec![2, 5, 1, 4, 0]);
    assert!(directories_to_check(&vec![]).is_empty());
}

#[test]
fn links_count_as_dangling_only_where_they_lead_nowhere() {
    assert!(is_dangling(true, false));
    assert!(!is_dangling(true, true));
    assert!(!is_dangling(false, false));
    assert!(!is_dangling(false, true));
}

#[test]
fn passes_of_the_cleanup() {
    let required = set_of(&["/f/a/b.bin"]);
    assert_eq!(cleanup_firmware(&required, "/f", false).passes, vec![CleanupPass::UnusedFiles]);
    assert_eq!(
        cleanup_firmware(&required, "/f", true).passes,
        vec![
            CleanupPass::UnusedFiles,
            CleanupPass::DanglingSymlinks,
            CleanupPass::EmptyDirectories,
            CleanupPass::DanglingSymlinks,
        ]
    );
}

#[test]
fn required_firmware_stays() {
    let required = set_of(&["/f/a/b.bin", "/f//c.xz"]);
    let mut scan = cleanup_firmware(&required, "/f/", true).scan;
    assert_eq!(scan.visit("/f/a/b.bin", true, Ok(1)).unwrap(), FileVerdict::Leave);
    assert_eq!(scan.visit("/f/c.xz", true, Ok(2)).unwrap(), FileVerdict::Leave);
    assert_eq!(scan.visit("/f/b.bin", true, Ok(4)).unwrap(), FileVerdict::Remove);
    assert_eq!(scan.savings().bytes(), 4);
    let mut scan = cleanup_firmware(&required, "/f/", false).scan;
    assert_eq!(scan.visit("/f/b.bin", true, Ok(4)).unwrap(), FileVerdict::Count);
}

#[test]
fn firmware_directory_keeps_its_spelling() {
    let required = set_of(&["/x/../f/a.bin"]);
    let mut scan = cleanup_firmware(&required, "/x/../f", true).scan;
    assert_eq!(scan.visit("/x/../f/a.bin", true, Ok(1)).unwrap(), FileVerdict::Leave);
    assert_eq!(scan.visit("/x/../f/b.bin", true, Ok(2)).unwrap(), FileVerdict::Remove);
    assert_eq!(scan.savings().bytes(), 2);
}

#[test]
fn verdicts_on_files() {
    let required = set_of(&["a/b.bin"]);
    let judge = |path: &str, is_file: bool, delete: bool| {
        judge_file(path, is_file, "/f", &required, delete)
    };
    assert_eq!(judge("/f//a/./b.bin", true, true), FileVerdict::Leave);
    assert_eq!(judge("/f/b.bin", true, true), FileVerdict::Remove);
    assert_eq!(judge("/f/b.bin", true, false), FileVerdict::Count);
    assert_eq!(judge("/f/b.bin", false, true), FileVerdict::Leave);
}

#[test]
fn size_of_an_unused_file_must_be_had() {
    let failed = || Err(std::io::Error::new(std::io::ErrorKind::NotFound, "gone"));
    let mut scan = UnusedScan::new("/f", set_of(&["a"]), true);
    assert_eq!(scan.visit("/f/a", true, failed()).unwrap(), FileVerdict::Leave);
    assert_eq!(scan.visit("/f/d", false, failed()).unwrap(), FileVerdict::Leave);
    assert!(matches!(scan.visit("/f/b", true, failed()), Err(JanitorError::Io(_))));
    assert_eq!(scan.visit("/f/c", true, Ok(3)).unwrap(), FileVerdict::Remove);
    assert_eq!(scan.visit("/f/a", true, Ok(100)).unwrap(), FileVerdict::Leave);
    assert_eq!(scan.savings().bytes(), 3);
}

#[test]
fn savings_are_the_same_whether_or_not_files_are_removed() {
    for delete in [false, true] {
        let mut scan = UnusedScan::new("/f", set_of(&["x"]), delete);
        for (path, size) in [("/f/a", 5), ("/f/x", 7), ("/f/b/c", 11)] {
            scan.visit(path, true, Ok(size)).unwrap();
        }
        assert_eq!(scan.savings().bytes(), 16);
    }
}

#[test]
fn sizes_add_up() {
    let mut tally = SizeTally::new();
    assert_eq!(tally.bytes(), 0);
    tally.count(1048575);
    assert_eq!(tally.mebibytes(), 0);
    tally.count(1);
    assert_eq!(tally.bytes(), 1048576);
    assert_eq!(tally.mebibytes(), 1);
    tally.count(u64::MAX - 1048576);
    assert_eq!(tally.mebibytes(), u64::MAX >> 20);
}
