//! Paths and sets of paths, held against those of the standard library.
use image_janitor::path::{
    below, depth, file_name, join, normal_text, parent, path_components, relative_to, render,
    same_path,
};
use image_janitor::path_set::PathSet;
use std::path::{Path, PathBuf};

const SAMPLES: [&str; 26] = [
    "", "/", "//", ".", "..", "./", "../", "a", "a/", "a//", "a/b", "a//b", "a/./b", "./a/b",
    "a/b/.", "a/b/..", "/a", "/a/b/", "/./a", "/../a", "a/../b", "../..", "/a/./b/../c", "ab/c",
    "/lib/firmware", "caf\u{e9}/x",
];

fn std_components(path: &str) -> Vec<String> {
    Path::new(path).components().map(|c| c.as_os_str().to_str().unwrap().to_string()).collect()
}

#[test]
fn components_are_those_of_std() {
    for path in SAMPLES {
        assert_eq!(path_components(path), std_components(path), "{:?}", path);
        assert_eq!(depth(path), Path::new(path).components().count(), "{:?}", path);
    }
}

#[test]
fn joining_is_that_of_std() {
    for base in SAMPLES {
        for path in SAMPLES {
            let expected = Path::new(base).join(path);
            assert_eq!(join(base, path), expected.to_str().unwrap(), "{:?} {:?}", base, path);
        }
    }
}

#[test]
fn names_and_parents_are_those_of_std() {
    for path in SAMPLES {
        let name = Path::new(path).file_name().map(|n| n.to_str().unwrap().to_string());
        assert_eq!(file_name(path), name, "{:?}", path);
        let expected = Path::new(path).parent().map(|p| std_components(p.to_str().unwrap()));
        assert_eq!(parent(path).map(|p| std_components(&p)), expected, "{:?}", path);
    }
}

#[test]
fn being_below_is_that_of_std() {
    for path in SAMPLES {
        for base in SAMPLES {
            let expected = Path::new(path).starts_with(base);
            assert_eq!(below(path, base), expected, "{:?} {:?}", path, base);
            assert_eq!(same_path(path, base), Path::new(path) == Path::new(base));
            if expected {
                let rest = Path::new(path).strip_prefix(base).unwrap();
                assert_eq!(PathBuf::from(relative_to(path, base)), rest, "{:?} {:?}", path, base);
            }
        }
    }
}

#[test]
fn rendering_gives_the_components_back() {
    for path in SAMPLES {
        let parts = path_components(path);
        let text = render(&parts, 0, parts.len());
        assert_eq!(path_components(&text), parts, "{:?}", path);
        assert_eq!(normal_text(path), text, "{:?}", path);
        let collected: PathBuf = parts.iter().collect();
        assert_eq!(text, collected.to_str().unwrap());
    }
    assert_eq!(normal_text("//a/./b//c/"), "/a/b/c");
}

#[test]
fn set_knows_paths_by_their_components() {
    let mut set = PathSet::new();
    assert!(set.insert("/f//a"));
    assert!(!set.insert("/f/a/"));
    assert!(set.insert("/f/a/.."));
    assert!(set.insert("f/a"));
    assert_eq!(set.len(), 3);
    assert!(set.contains("/f/./a"));
    assert!(!set.contains("/f"));
    assert_eq!(set.paths()[0], "/f//a");
}

#[test]
fn set_seen_from_a_directory() {
    let mut set = PathSet::new();
    set.extend(&vec!["/f/a".to_string(), "/f//b/c".to_string(), "/f/a".to_string()]);
    assert!(set.lies_below("/f/"));
    assert!(!set.lies_below("/f/a"));
    let relative = set.relative("/f/");
    assert_eq!(relative.len(), 2);
    assert!(relative.contains("a") && relative.contains("b/c"));
    assert!(!relative.contains("/f/a"));
}
