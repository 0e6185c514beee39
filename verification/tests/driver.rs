//! Drivers, their dependencies, and which of them go.
use image_janitor::command::CommandRunner;
use image_janitor::config::{read_config, ConfigFile};
use image_janitor::driver::{
    cleanup_drivers, config_mark, scan_drivers, ConfigMark, Driver, DriverMap,
};
use image_janitor::error::JanitorError;
use image_janitor::firmware::{find_kernel_modules, WalkEntry};
use image_janitor::util::{find_kernel_dir, DirListing};
use image_janitor::work::split_work;
use std::collections::HashMap;

struct MockCommandRunner {
    responses: HashMap<String, String>,
}

impl CommandRunner for MockCommandRunner {
    fn run(&self, command: &str, args: &[&str]) -> Result<String, JanitorError> {
        let key = if args.is_empty() {
            command.to_string()
        } else {
            format!("{} {}", command, args.join(" "))
        };
        self.responses
            .get(&key)
            .cloned()
            .ok_or(JanitorError::Command(format!("Not mocked: {}", key)))
    }
}

fn runner(depends: &[(&str, &str)]) -> MockCommandRunner {
    let mut responses = HashMap::new();
    for (path, deps) in depends {
        responses.insert(format!("/usr/sbin/modinfo -F depends {}", path), deps.to_string());
    }
    responses.insert("arch".to_string(), "x86_64".to_string());
    MockCommandRunner { responses }
}

fn config(content: &str) -> Vec<ConfigFile> {
    vec![ConfigFile { path: "test.conf".to_string(), content: Ok(content.to_string()) }]
}

fn strings(list: &[&str]) -> Vec<String> {
    list.iter().map(|s| s.to_string()).collect()
}

/// The paths of the drivers that go, sorted, and the files to remove, sorted.
fn plan(map: &DriverMap, lines: &str, delete: bool) -> (Vec<String>, Vec<String>) {
    let (to_keep, to_delete) = read_config(config(lines), &runner(&[])).unwrap();
    let plan = cleanup_drivers(map, "/m/k", &to_keep, &to_delete, delete);
    let mut unneeded: Vec<String> = plan.unneeded.iter().map(|d| d.path.clone()).collect();
    let mut removals = plan.removals;
    unneeded.sort();
    removals.sort();
    (unneeded, removals)
}

fn map_of(drivers: &[(&str, &str)]) -> DriverMap {
    let paths: Vec<String> = drivers.iter().map(|d| d.0.to_string()).collect();
    scan_drivers(&paths, &runner(drivers)).unwrap()
}

#[test]
fn test_cleanup_drivers() {
    let runner = runner(&[
        ("/t/6.1.0-test/a.ko", "b"),
        ("/t/6.1.0-test/b.ko", "c"),
        ("/t/6.1.0-test/c.ko", ""),
        ("/t/6.1.0-test/d.ko", ""),
    ]);
    let entry = |path: &str, is_dir: bool| {
        Ok(WalkEntry { path: path.to_string(), is_file: !is_dir, is_dir, is_symlink: false })
    };
    let listing =
        DirListing::Entries(vec![entry("/t/6.1.0-test", true), entry("/t/test.conf", false)]);
    let kernel_dir = find_kernel_dir("/t", listing).unwrap();
    let modules = find_kernel_modules(vec![
        entry("/t/6.1.0-test", true),
        entry("/t/6.1.0-test/a.ko", false),
        entry("/t/6.1.0-test/b.ko", false),
        entry("/t/6.1.0-test/c.ko", false),
        entry("/t/6.1.0-test/d.ko", false),
    ])
    .unwrap();
    let (to_keep, to_delete) = read_config(config("a.ko"), &runner).unwrap();
    let map = scan_drivers(&modules, &runner).unwrap();

    // Test dry run
    let plan = cleanup_drivers(&map, &kernel_dir, &to_keep, &to_delete, false);
    assert!(plan.removals.is_empty());

    // Test delete
    let plan = cleanup_drivers(&map, &kernel_dir, &to_keep, &to_delete, true);
    assert!(!plan.removals.contains(&"/t/6.1.0-test/a.ko".to_string()));
    assert!(!plan.removals.contains(&"/t/6.1.0-test/b.ko".to_string()));
    assert!(!plan.removals.contains(&"/t/6.1.0-test/c.ko".to_string()));
    assert!(plan.removals.contains(&"/t/6.1.0-test/d.ko".to_string()));
    assert_eq!(plan.removals.len(), 1);
    assert_eq!(plan.unneeded.len(), 1);
    assert_eq!(plan.unneeded[0].name, "d");
}

#[test]
fn driver_is_named_up_to_the_first_dot() {
    let reply = Ok(" x,,y z, \n".to_string());
    let driver = Driver::from_reply("/m/k/net/e1000e.v2.ko.xz", reply);
    assert_eq!(driver.name, "e1000e");
    assert_eq!(driver.path, "/m/k/net/e1000e.v2.ko.xz");
    assert_eq!(driver.deps, vec!["x", "y z"]);
}

#[test]
fn failed_modinfo_means_no_dependencies() {
    let driver = Driver::from_reply("a.ko", Err(JanitorError::Command("no".to_string())));
    assert!(driver.deps.is_empty());
    let driver = Driver::from_file("/m/k/a.ko", &runner(&[])).unwrap();
    assert_eq!(driver.name, "a");
    assert!(driver.deps.is_empty());
    let driver = Driver::from_file("/m/k/a.ko", &runner(&[("/m/k/a.ko", "b,c")])).unwrap();
    assert_eq!(driver.deps, vec!["b", "c"]);
}

#[test]
fn configuration_marks() {
    assert!(config_mark(true, true) == ConfigMark::Delete);
    assert!(config_mark(true, false) == ConfigMark::Delete);
    assert!(config_mark(false, true) == ConfigMark::Keep);
    assert!(config_mark(false, false) == ConfigMark::Unmarked);
}

#[test]
fn pattern_for_deletion_prevails() {
    let map = map_of(&[("/m/k/net/a.ko", ""), ("/m/k/net/b.ko", ""), ("/m/k/usb/c.ko", "")]);
    let (unneeded, removals) = plan(&map, "net/.*\n-net/b", true);
    assert_eq!(unneeded, vec!["/m/k/net/b.ko", "/m/k/usb/c.ko"]);
    assert_eq!(removals, unneeded);
}

#[test]
fn needed_dependency_stays_though_marked_for_deletion() {
    let map = map_of(&[("/m/k/a.ko", "b"), ("/m/k/b.ko", "c"), ("/m/k/c.ko", ""), ("/m/k/d.ko", "b")]);
    let (unneeded, _) = plan(&map, "^a\n-^[bc]", true);
    assert_eq!(unneeded, vec!["/m/k/d.ko"]);
}

#[test]
fn dependencies_may_go_round_or_lead_nowhere() {
    let map = map_of(&[("/m/k/a.ko", "b,gone"), ("/m/k/b.ko", "a,b"), ("/m/k/c.ko", "a")]);
    assert_eq!(plan(&map, "^b", true).0, vec!["/m/k/c.ko"]);
    assert!(plan(&map, "^c", true).0.is_empty());
}

#[test]
fn without_patterns_all_drivers_go() {
    let map = map_of(&[("/m/k/a.ko", "b"), ("/m/k/b.ko", "")]);
    assert_eq!(plan(&map, "", true).1, vec!["/m/k/a.ko", "/m/k/b.ko"]);
    assert!(plan(&DriverMap::new(), "a", true).0.is_empty());
}

#[test]
fn dry_run_removes_nothing() {
    let map = map_of(&[("/m/k/a.ko", ""), ("/m/k/b.ko", "")]);
    let (unneeded, removals) = plan(&map, "a", false);
    assert_eq!(unneeded, vec!["/m/k/b.ko"]);
    assert!(removals.is_empty());
}

#[test]
fn patterns_see_the_path_below_the_kernel_directory() {
    let map = map_of(&[("/m/k/a.ko", ""), ("/m//k/./m/b.ko", "")]);
    assert_eq!(plan(&map, "^m/b.ko$", true).0, vec!["/m/k/a.ko"]);
}

#[test]
fn files_of_one_name_are_judged_each() {
    let map = map_of(&[("/m/k/kernel/x.ko", ""), ("/m/k/updates/x.ko", "")]);
    assert_eq!(map.drivers().len(), 2);
    let both = vec!["/m/k/kernel/x.ko", "/m/k/updates/x.ko"];
    assert_eq!(plan(&map, "nomatch", true).1, both);
    assert_eq!(plan(&map, "updates", true).1, vec!["/m/k/kernel/x.ko"]);
    assert_eq!(plan(&map, "kernel", true).1, vec!["/m/k/updates/x.ko"]);
}

#[test]
fn dependencies_of_every_kept_file_stay() {
    let map = map_of(&[
        ("/m/k/kernel/a.ko", "b"),
        ("/m/k/b.ko", ""),
        ("/m/k/updates/a.ko", "c"),
        ("/m/k/c.ko", ""),
    ]);
    assert_eq!(plan(&map, "kernel", true).0, vec!["/m/k/c.ko", "/m/k/updates/a.ko"]);
    assert_eq!(plan(&map, "updates", true).0, vec!["/m/k/b.ko", "/m/k/kernel/a.ko"]);
    assert!(plan(&map, "/a", true).0.is_empty());
}

#[test]
fn every_file_of_a_needed_name_stays() {
    let map = map_of(&[("/m/k/1/b.ko", "c"), ("/m/k/a.ko", "b"), ("/m/k/2/b.ko", ""), ("/m/k/c.ko", "")]);
    assert!(plan(&map, "^a", true).0.is_empty());
    let kept = map.keep_with_dependencies(&vec![false, false, true, false]);
    assert_eq!(kept, vec![false, false, true, false]);
    let kept = map.keep_with_dependencies(&vec![false, true, false, false]);
    assert_eq!(kept, vec![true; 4]);
}

#[test]
fn more_patterns_keep_more() {
    let map = map_of(&[("/m/k/a.ko", "b"), ("/m/k/b.ko", ""), ("/m/k/c.ko", "")]);
    assert_eq!(plan(&map, "^a", true).0, vec!["/m/k/c.ko"]);
    assert!(plan(&map, "^a\n^c", true).0.is_empty());
}

#[test]
fn chunks_merge_to_the_whole() {
    let drivers = [
        ("/m/k/1/a.ko", "b"), ("/m/k/b.ko", "d"), ("/m/k/c.ko", ""), ("/m/k/2/a.ko", "c"),
        ("/m/k/d.ko", ""),
    ];
    let paths = strings(&["/m/k/1/a.ko", "/m/k/b.ko", "/m/k/c.ko", "/m/k/2/a.ko", "/m/k/d.ko"]);
    let whole = plan(&map_of(&drivers), "2/a", true).0;
    assert_eq!(whole, vec!["/m/k/1/a.ko", "/m/k/b.ko", "/m/k/d.ko"]);
    for workers in 1..7 {
        let mut merged = DriverMap::new();
        for chunk in split_work(&paths, workers) {
            merged.absorb(scan_drivers(&chunk, &runner(&drivers)).unwrap());
        }
        assert_eq!(plan(&merged, "2/a", true).0, whole);
    }
}

#[test]
fn second_driver_cleanup_removes_nothing() {
    let drivers = [
        ("/m/k/a.ko", "b,c"),
        ("/m/k/b.ko", "d"),
        ("/m/k/x/d.ko.xz", ""),
        ("/m/k/y/d.ko.zst", "a"),
        ("/m/k/e.ko", "a"),
        ("/m/k/f.ko", "g"),
        ("/m/k/g.ko", "f"),
    ];
    for lines in ["^a", "d\\.ko\n-/x/", "f", "", ".\n-e", "none"] {
        let (_, gone) = plan(&map_of(&drivers), lines, true);
        let left: Vec<(&str, &str)> =
            drivers.into_iter().filter(|d| !gone.contains(&d.0.to_string())).collect();
        let (unneeded, removals) = plan(&map_of(&left), lines, true);
        assert!(unneeded.is_empty() && removals.is_empty(), "{:?}", lines);
    }
    let (_, gone) = plan(&map_of(&drivers), "a\\.ko", true);
    assert_eq!(gone, vec!["/m/k/e.ko", "/m/k/f.ko", "/m/k/g.ko"]);
}
