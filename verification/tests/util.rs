//! The kernel directory, the walk through a directory, and the order of paths.
use image_janitor::error::JanitorError;
use image_janitor::firmware::WalkEntry;
use image_janitor::order::{path_precedes, text_precedes};
use image_janitor::util::{find_kernel_dir, walk_dir, DirListing, ListStep};
use std::path::Path;

fn dir(path: &str) -> ListStep {
    Ok(WalkEntry { path: path.to_string(), is_file: false, is_dir: true, is_symlink: false })
}

fn plain(path: &str) -> ListStep {
    Ok(WalkEntry { path: path.to_string(), is_file: true, is_dir: false, is_symlink: false })
}

fn failed(text: &str) -> ListStep {
    Err(std::io::Error::new(std::io::ErrorKind::Other, text.to_string()))
}

#[test]
fn test_find_kernel_dir_success() {
    let listing = DirListing::Entries(vec![dir("/m/6.1.0-test")]);
    let found_dir = find_kernel_dir("/m", listing).unwrap();
    assert_eq!(found_dir, "/m/6.1.0-test");
}

#[test]
fn test_find_kernel_dir_no_subdirectories() {
    let result = find_kernel_dir("/m", DirListing::Entries(vec![]));
    assert!(matches!(result, Err(JanitorError::NoKernelDir(_))));
}

#[test]
fn test_find_kernel_dir_non_existent_path() {
    let result = find_kernel_dir("/m/non_existent", DirListing::Missing);
    assert!(matches!(result, Err(JanitorError::NoKernelDir(_))));
}

#[test]
fn test_find_kernel_dir_prefers_last_entry() {
    let listing = DirListing::Entries(vec![dir("/m/6.0.0-test"), dir("/m/6.1.0-test")]);
    let found = find_kernel_dir("/m", listing).unwrap();
    assert!(Path::new(&found).ends_with("6.1.0-test"));
    let listing = DirListing::Entries(vec![dir("/m/6.1.0-test"), dir("/m/6.0.0-test")]);
    let found = find_kernel_dir("/m", listing).unwrap();
    assert!(Path::new(&found).ends_with("6.1.0-test"));
}

#[test]
fn kernel_dir_is_no_file_and_no_failed_entry() {
    let steps = vec![failed("x"), dir("/m/5"), plain("/m/9"), failed("y")];
    assert_eq!(find_kernel_dir("/m", DirListing::Entries(steps)).unwrap(), "/m/5");
    match find_kernel_dir("/m", DirListing::Entries(vec![plain("/m/9"), failed("y")])) {
        Err(JanitorError::NoKernelDir(path)) => assert_eq!(path, "/m"),
        other => panic!("{:?}", other),
    }
}

#[test]
fn unreadable_module_dir_is_an_input_error() {
    let cause = std::io::Error::new(std::io::ErrorKind::PermissionDenied, "no");
    match find_kernel_dir("/m", DirListing::Unreadable(cause)) {
        Err(JanitorError::Io(e)) => assert_eq!(e.kind(), std::io::ErrorKind::PermissionDenied),
        other => panic!("{:?}", other),
    }
}

#[test]
fn order_of_paths_is_that_of_std() {
    let paths = [
        "", "/", ".", "..", "a", "a/b", "a.b", "a/", "/a", "a//b", "./a", "../a", "A", "ab", "\u{e9}",
        "\u{1f600}", "\u{ff5e}", "6.10.0", "6.9.0", "a/./b", "a/..", "a-b/c", "a/c",
    ];
    for a in paths {
        for b in paths {
            assert_eq!(path_precedes(a, b), Path::new(a) < Path::new(b), "{:?} {:?}", a, b);
            assert_eq!(text_precedes(a, b), a < b, "{:?} {:?}", a, b);
        }
    }
}

#[test]
fn walk_lists_all_files_in_order() {
    let mut walk = walk_dir("/t", true);
    assert_eq!(walk.next_directory().unwrap(), Some("/t".to_string()));
    walk.listed(vec![plain("/t/1"), dir("/t/d"), plain("/t/2"), dir("/t/e")]);
    assert_eq!(walk.next_directory().unwrap(), Some("/t/d".to_string()));
    walk.listed(vec![plain("/t/d/x"), dir("/t/d/y")]);
    assert_eq!(walk.next_directory().unwrap(), Some("/t/d/y".to_string()));
    walk.listed(vec![]);
    assert_eq!(walk.next_directory().unwrap(), Some("/t/e".to_string()));
    walk.listed(vec![plain("/t/e/z")]);
    assert_eq!(walk.next_directory().unwrap(), None);
    assert_eq!(walk.into_files(), vec!["/t/1", "/t/d/x", "/t/2", "/t/e/z"]);
}

#[test]
fn walk_through_no_directory_lists_nothing() {
    let mut walk = walk_dir("/t/file", false);
    assert_eq!(walk.next_directory().unwrap(), None);
    assert!(walk.into_files().is_empty());
}

#[test]
fn walk_ends_with_the_first_failure() {
    let mut walk = walk_dir("/t", true);
    assert!(walk.next_directory().unwrap().is_some());
    walk.listed(vec![dir("/t/d"), failed("late")]);
    assert_eq!(walk.next_directory().unwrap(), Some("/t/d".to_string()));
    walk.listed(vec![plain("/t/d/1"), failed("early")]);
    match walk.next_directory() {
        Err(JanitorError::Io(e)) => assert_eq!(e.to_string(), "early"),
        other => panic!("{:?}", other),
    }
}
