//! Firmware: the modules, the files they may ask for, and their links, on a
//! file system in memory.
use image_janitor::command::CommandRunner;
use image_janitor::error::JanitorError;
use image_janitor::firmware::{
    find_firmware_files, find_kernel_modules, firmware_names, firmware_search,
    get_firmware_deps_for_module, module_path_form, SearchReply, WalkEntry,
};
use image_janitor::cleanup::{
    cleanup_firmware, directories_to_check, is_dangling, is_removable, CleanupPass, FileVerdict,
};
use image_janitor::path::{file_name, join, parent, path_components};
use image_janitor::path_set::PathSet;
use image_janitor::required::{RequiredScan, ScanReply, ScanRequest};
use image_janitor::symlink::{follow_link, LinkRequest, SymlinkWalk, MAX_HOPS};
use image_janitor::trace::{Place, Trace, MAX_LINKS};
use image_janitor::work::split_work;
use std::collections::{BTreeMap, HashMap};

#[derive(Clone)]
enum Node {
    File,
    Dir,
    Link(String),
}

/// A file system: what is at which path.
#[derive(Clone, Default)]
struct Disk {
    nodes: BTreeMap<String, Node>,
}

impl Disk {
    fn file(mut self, path: &str) -> Disk {
        self.nodes.insert(path.to_string(), Node::File);
        self
    }

    fn dir(mut self, path: &str) -> Disk {
        self.nodes.insert(path.to_string(), Node::Dir);
        self
    }

    fn link(mut self, target: &str, path: &str) -> Disk {
        self.nodes.insert(path.to_string(), Node::Link(target.to_string()));
        self
    }

    fn target(&self, path: &str) -> Result<Option<String>, std::io::Error> {
        match self.nodes.get(path) {
            Some(Node::Link(target)) => Ok(Some(target.clone())),
            Some(_) => Ok(None),
            None => Err(std::io::Error::new(std::io::ErrorKind::NotFound, "gone")),
        }
    }

    /// As `target`, with the links among the directories followed.
    fn look(&self, path: &str) -> Result<Option<String>, std::io::Error> {
        self.target(&self.locate(path).unwrap().path)
    }

    /// Whether something is at the end of all links at a path.
    fn holds(&self, path: &str) -> bool {
        let mut at = path.to_string();
        for _ in 0..40 {
            match self.nodes.get(&at) {
                Some(Node::Link(target)) => at = follow_link(&at, target),
                Some(_) => return true,
                None => return false,
            }
        }
        false
    }

    /// The path of a directory once all its links are followed.
    fn real_dir(&self, dir: &str) -> String {
        let mut at = String::new();
        for part in path_components(dir) {
            if part == ".." {
                at = parent(&at).unwrap_or(at);
            } else if part != "." {
                at = join(&at, &part);
                if let Some(Node::Link(target)) = self.nodes.get(&at) {
                    at = self.real_dir(&join(&parent(&at).unwrap_or_default(), target));
                }
            }
        }
        at
    }

    /// Where what a path names stands.
    fn locate(&self, path: &str) -> Option<Place> {
        let path = match file_name(path) {
            Some(name) => join(&self.real_dir(&parent(path).unwrap_or_default()), &name),
            None => self.real_dir(path),
        };
        let target = match self.nodes.get(&path) {
            Some(Node::Link(target)) => Some(target.clone()),
            _ => None,
        };
        Some(Place { path, target })
    }

    /// Whether something is at a path, links among its directories followed.
    fn reaches(&self, path: &str) -> bool {
        let mut trace = Trace::new(path);
        loop {
            let place = self.locate(&trace.current());
            let at = place.as_ref().unwrap().path.clone();
            match trace.advance(&place) {
                Some(next) => trace = next,
                None => return matches!(self.nodes.get(&at), Some(Node::File) | Some(Node::Dir)),
            }
        }
    }

    fn matched(&self, pattern: &str) -> Vec<String> {
        let pattern = glob::Pattern::new(pattern).unwrap();
        let options = glob::MatchOptions {
            case_sensitive: true,
            require_literal_separator: true,
            require_literal_leading_dot: false,
        };
        self.nodes.keys().filter(|p| pattern.matches_with(p, options)).cloned().collect()
    }

    fn answer(&self, wildcard: bool, paths: &[String]) -> SearchReply {
        if wildcard {
            SearchReply::Matches(paths.iter().map(|p| self.matched(p)).collect())
        } else {
            SearchReply::Exists(paths.iter().map(|p| self.reaches(p)).collect())
        }
    }
}

struct MockCommandRunner {
    responses: HashMap<String, String>,
}

impl CommandRunner for MockCommandRunner {
    fn run(&self, command: &str, args: &[&str]) -> Result<String, JanitorError> {
        let key = if args.is_empty() {
            command.to_string()
        } else {
            format!("{} {}", command, args.join(" "))
        };
        self.responses
            .get(&key)
            .cloned()
            .ok_or(JanitorError::Command(format!("Not mocked: {}", key)))
    }
}

fn runner(names: &[(&str, &str)]) -> MockCommandRunner {
    let mut responses = HashMap::new();
    for (path, reply) in names {
        responses.insert(format!("/usr/sbin/modinfo -F firmware {}", path), reply.to_string());
    }
    MockCommandRunner { responses }
}

fn resolve_symlinks(disk: &Disk, path: &str, base: &str) -> Result<Vec<String>, std::io::Error> {
    let mut walk = SymlinkWalk::new(path, base);
    loop {
        match walk.request() {
            LinkRequest::Inspect(at) => walk.inspected(disk.target(&at)?),
            LinkRequest::CheckExists(at) => walk.checked(disk.holds(&at)),
            LinkRequest::Finished => return Ok(walk.kept().clone()),
        }
    }
}

fn get_required_firmware(
    disk: &Disk,
    modules: &Vec<String>,
    fw_dir: &str,
    runner: &MockCommandRunner,
) -> Result<PathSet, JanitorError> {
    let mut scan = RequiredScan::new(modules, fw_dir, &disk.real_dir(fw_dir));
    loop {
        let reply = match scan.request() {
            ScanRequest::Names(module) => {
                ScanReply::Names(get_firmware_deps_for_module(&module, runner))
            }
            ScanRequest::Search(search) => {
                ScanReply::Search(disk.answer(search.wildcard, &search.paths))
            }
            ScanRequest::Inspect(path) => ScanReply::Inspect(disk.look(&path)),
            ScanRequest::CheckExists(path) => ScanReply::CheckExists(disk.reaches(&path)),
            ScanRequest::Locate(path) => ScanReply::Locate(disk.locate(&path)),
            ScanRequest::Finished => return Ok(scan.into_required()),
        };
        scan.handle(reply)?;
    }
}

fn find_firmware_files_from_name(disk: &Disk, name: &str, fw_dir: &str) -> Vec<String> {
    let search = firmware_search(name, fw_dir);
    let reply = disk.answer(search.wildcard, &search.paths);
    let mut found = find_firmware_files(&search, reply);
    found.sort();
    found
}

fn strings(list: &[&str]) -> Vec<String> {
    list.iter().map(|s| s.to_string()).collect()
}

fn sorted(set: PathSet) -> Vec<String> {
    let mut list = set.into_paths();
    list.sort();
    list
}

#[test]
fn test_get_required_firmware() {
    let mod1_path = "/t/lib/modules/6.1.0-test/mod1.ko";
    let disk = Disk::default().file(mod1_path).file("/t/lib/firmware/fw1.bin");
    let runner = runner(&[(mod1_path, "fw1.bin")]);

    let modules = strings(&[mod1_path]);
    let required_fw = get_required_firmware(&disk, &modules, "/t/lib/firmware", &runner).unwrap();
    assert_eq!(required_fw.len(), 1);
    assert!(required_fw.contains("/t/lib/firmware/fw1.bin"));
}

#[test]
fn test_get_required_firmware_with_wildcard() {
    let mod1_path = "/t/lib/modules/6.1.0-test/mod1.ko";
    let fw_file1 = "/t/lib/firmware/brcm/brcmfmac43430-sdio.bin";
    let fw_file2 = "/t/lib/firmware/brcm/brcmfmac43430-sdio.txt";
    let disk = Disk::default()
        .file(mod1_path)
        .dir("/t/lib/firmware/brcm")
        .file(fw_file1)
        .file(fw_file2);
    let runner = runner(&[(mod1_path, "brcm/brcmfmac*-sdio.bin")]);

    let modules = strings(&[mod1_path]);
    let required_fw = get_required_firmware(&disk, &modules, "/t/lib/firmware", &runner).unwrap();
    assert_eq!(required_fw.len(), 1);
    assert!(required_fw.contains(fw_file1));
    assert!(!required_fw.contains(fw_file2));
}

#[test]
fn test_get_required_firmware_with_wildcard_and_compression() {
    let mod1_path = "/t/lib/modules/6.1.0-test/mod1.ko";
    let fw_file1 = "/t/lib/firmware/brcm/brcmfmac43430-sdio.bin.xz";
    let fw_file2 = "/t/lib/firmware/brcm/brcmfmac43430-sdio.txt";
    let disk = Disk::default()
        .file(mod1_path)
        .dir("/t/lib/firmware/brcm")
        .file(fw_file1)
        .file(fw_file2);
    let runner = runner(&[(mod1_path, "brcm/brcmfmac*-sdio.bin")]);

    let modules = strings(&[mod1_path]);
    let required_fw = get_required_firmware(&disk, &modules, "/t/lib/firmware", &runner).unwrap();
    assert_eq!(required_fw.len(), 1);
    assert!(required_fw.contains(fw_file1));
    assert!(!required_fw.contains(fw_file2));
}

#[test]
fn test_resolve_symlinks_single_file() {
    let disk = Disk::default().file("/t/file.bin");
    let resolved = resolve_symlinks(&disk, "/t/file.bin", "/t").unwrap();
    assert_eq!(resolved, vec!["/t/file.bin"]);
}

#[test]
fn test_resolve_symlinks_linear_chain() {
    let disk = Disk::default()
        .file("/t/file.bin")
        .link("/t/file.bin", "/t/link1")
        .link("/t/link1", "/t/link2")
        .link("/t/link2", "/t/link3");

    let resolved = resolve_symlinks(&disk, "/t/link3", "/t").unwrap();

    assert_eq!(resolved.len(), 4);
    assert!(resolved.contains(&"/t/file.bin".to_string()));
    assert!(resolved.contains(&"/t/link1".to_string()));
    assert!(resolved.contains(&"/t/link2".to_string()));
    assert!(resolved.contains(&"/t/link3".to_string()));
}

#[test]
fn test_resolve_symlinks_broken_link() {
    let disk = Disk::default().link("non_existent_file", "/t/link");
    let resolved = resolve_symlinks(&disk, "/t/link", "/t").unwrap();
    assert_eq!(resolved, vec!["/t/link"]);
}

#[test]
fn test_resolve_symlinks_cycle() {
    let disk = Disk::default().link("/t/link2", "/t/link1").link("/t/link1", "/t/link2");
    let resolved = resolve_symlinks(&disk, "/t/link1", "/t").unwrap();
    assert_eq!(resolved.len(), 1);
    assert!(resolved.contains(&"/t/link1".to_string()));
}

#[test]
fn test_resolve_symlinks_relative() {
    let disk = Disk::default()
        .dir("/t/dir1")
        .dir("/t/dir1/dir2")
        .file("/t/file.bin")
        .link("../../file.bin", "/t/dir1/dir2/link");

    let resolved = resolve_symlinks(&disk, "/t/dir1/dir2/link", "/t").unwrap();

    assert_eq!(resolved.len(), 2);
    assert!(resolved.contains(&"/t/file.bin".to_string()));
    assert!(resolved.contains(&"/t/dir1/dir2/link".to_string()));
}

#[test]
fn test_find_kernel_modules() {
    let entry = |path: &str, is_file: bool| {
        Ok(WalkEntry { path: path.to_string(), is_file, is_dir: !is_file, is_symlink: false })
    };
    let mut found = find_kernel_modules(vec![
        entry("/t", false),
        entry("/t/module1.ko", true),
        entry("/t/module2.ko.xz", true),
        entry("/t/module3.ko.zst", true),
        entry("/t/not_a_module.txt", true),
        entry("/t/nested", false),
        entry("/t/nested/nested.ko", true),
    ])
    .unwrap();
    found.sort();

    let mut expected =
        strings(&["/t/module1.ko", "/t/module2.ko.xz", "/t/module3.ko.zst", "/t/nested/nested.ko"]);
    expected.sort();

    assert_eq!(found, expected);
}

#[test]
fn test_find_firmware_files_from_name() {
    let fw1 = "/t/iwlwifi-1.bin";
    let fw2_xz = "/t/iwlwifi-2.bin.xz";
    let fw3_zst = "/t/iwlwifi-3.bin.zst";
    let disk = Disk::default().file(fw1).file(fw2_xz).file(fw3_zst).file("/t/other.txt");

    // Exact names, with the compressed variants.
    let found1 = find_firmware_files_from_name(&disk, "iwlwifi-1.bin", "/t");
    assert_eq!(found1, vec![fw1]);

    let found2 = find_firmware_files_from_name(&disk, "iwlwifi-2.bin", "/t");
    assert_eq!(found2, vec![fw2_xz]);

    // A wildcard.
    let found_glob = find_firmware_files_from_name(&disk, "iwlwifi-*", "/t");
    let mut expected_glob = strings(&[fw1, fw2_xz, fw3_zst]);
    expected_glob.sort();
    assert_eq!(found_glob, expected_glob);
}

#[test]
fn names_of_kernel_modules() {
    for yes in ["a.ko", "/x/a.b.ko", "a.ko.xz", "a.ko.zst", "/x/.ko.xz", "a.ko/", "..ko"] {
        assert!(module_path_form(yes), "{}", yes);
        assert!(file_name(yes).is_some(), "{}", yes);
    }
    for no in ["", ".ko", "/x/.ko", "ko", "a.ko.gz", "a.KO", "a.ko/..", "a.ko.xz/", "a_ko.xz"] {
        assert!(!module_path_form(no), "{}", no);
    }
}

#[test]
fn extension_rule_is_that_of_std() {
    for path in ["a.ko", ".ko", "..ko", "a.ko/", "a.ko/.", "a.b.ko", "a.koo", "a", "/", "x/.a.ko"] {
        let expected = std::path::Path::new(path).extension().is_some_and(|e| e == "ko");
        assert_eq!(module_path_form(path), expected, "{}", path);
    }
}

#[test]
fn first_failed_step_of_the_walk_is_an_error() {
    let ok = Ok(WalkEntry {
        path: "/t/a.ko".to_string(),
        is_file: true,
        is_dir: false,
        is_symlink: false,
    });
    let failed = |text: &str| Err(std::io::Error::new(std::io::ErrorKind::Other, text.to_string()));
    match find_kernel_modules(vec![ok, failed("one"), failed("two")]) {
        Err(JanitorError::Io(e)) => assert_eq!(e.to_string(), "one"),
        other => panic!("{:?}", other),
    }
}

#[test]
fn firmware_names_are_lines() {
    assert_eq!(firmware_names(Ok("a.bin\nb c.bin".to_string())).unwrap(), vec!["a.bin", "b c.bin"]);
    assert!(firmware_names(Ok(String::new())).unwrap().is_empty());
    let failed = firmware_names(Err(JanitorError::Command("no".to_string())));
    assert!(matches!(failed, Err(JanitorError::Command(_))));
}

#[test]
fn search_names_the_variants() {
    let search = firmware_search("a/b.bin", "/lib/firmware");
    assert!(!search.wildcard);
    assert_eq!(
        search.paths,
        vec!["/lib/firmware/a/b.bin", "/lib/firmware/a/b.bin.xz", "/lib/firmware/a/b.bin.zst"]
    );
    assert!(firmware_search("a*", "f/").wildcard);
    assert_eq!(firmware_search("a*", "f/").paths[1], "f/a*.xz");
    assert_eq!(firmware_search("/abs", "f").paths[0], "/abs");
}

#[test]
fn all_variants_that_exist_are_found() {
    let disk = Disk::default().file("/t/a").file("/t/a.xz").file("/t/a.zst").file("/t/b");
    assert_eq!(find_firmware_files_from_name(&disk, "a", "/t"), vec!["/t/a", "/t/a.xz", "/t/a.zst"]);
    assert!(find_firmware_files_from_name(&disk, "c", "/t").is_empty());
}

#[test]
fn paths_that_several_patterns_match_are_found_once() {
    let search = firmware_search("*", "/t");
    let reply = SearchReply::Matches(vec![
        strings(&["/t/a", "/t/a.xz"]),
        strings(&["/t//a.xz"]),
        strings(&["/t/b"]),
    ]);
    assert_eq!(find_firmware_files(&search, reply), vec!["/t/a", "/t/a.xz", "/t/b"]);
}

#[test]
fn links_out_of_the_directory_are_not_followed() {
    let disk = Disk::default()
        .file("/etc/passwd")
        .link("../etc/passwd", "/t/a")
        .link("/t/../etc/passwd", "/t/b")
        .link("/tt", "/t/c")
        .file("/tt");
    for path in ["/t/a", "/t/b", "/t/c"] {
        assert_eq!(resolve_symlinks(&disk, path, "/t").unwrap(), vec![path]);
    }
}

#[test]
fn no_more_than_ten_links_are_followed() {
    let mut disk = Disk::default().file("/t/0");
    for i in 1..21 {
        disk = disk.link(&format!("{}", i - 1), &format!("/t/{}", i));
    }
    assert_eq!(MAX_HOPS, 10);
    let resolved = resolve_symlinks(&disk, "/t/20", "/t").unwrap();
    assert_eq!(resolved.len(), 11);
    assert_eq!(resolved[10], "/t/10");
    let resolved = resolve_symlinks(&disk, "/t/10", "/t").unwrap();
    assert_eq!(resolved.len(), 11);
    assert_eq!(resolved[10], "/t/0");
}

#[test]
fn file_that_vanished_is_an_input_error() {
    let disk = Disk::default();
    assert!(resolve_symlinks(&disk, "/t/a", "/t").is_err());
}

#[test]
fn targets_are_seen_from_the_directory_of_the_link() {
    assert_eq!(follow_link("/t/a/link", "b"), "/t/a/b");
    assert_eq!(follow_link("/t/a/link", "../b/./c//d"), "/t/b/c/d");
    assert_eq!(follow_link("/t/a/link", "/x/../y"), "/y");
    assert_eq!(follow_link("link", "b"), "b");
    assert_eq!(follow_link("link", "../../b"), "../../b");
    assert_eq!(follow_link("a/link", ".."), ".");
    assert_eq!(follow_link("/link", "../../b"), "/b");
    assert_eq!(follow_link("/", "b"), "b");
}

#[test]
fn required_firmware_includes_the_links_on_the_way() {
    let disk = Disk::default()
        .file("/m/a.ko")
        .file("/f/real.bin.xz")
        .link("real.bin.xz", "/f/x/../alias.xz")
        .link("real.bin.xz", "/f/alias.xz")
        .link("/f/alias.xz", "/f/other.zst");
    let runner = runner(&[("/m/a.ko", "other\nmissing.bin\nother")]);
    let required = get_required_firmware(&disk, &strings(&["/m/a.ko"]), "/f", &runner).unwrap();
    assert_eq!(sorted(required), vec!["/f/alias.xz", "/f/other.zst", "/f/real.bin.xz"]);
}

#[test]
fn scan_of_no_modules_requires_nothing() {
    let required = get_required_firmware(&Disk::default(), &vec![], "/f", &runner(&[])).unwrap();
    assert_eq!(required.len(), 0);
}

#[test]
fn failed_modinfo_ends_the_scan() {
    let modules = strings(&["/m/a.ko", "/m/b.ko"]);
    let runner = runner(&[("/m/a.ko", "")]);
    match get_required_firmware(&Disk::default(), &modules, "/f", &runner) {
        Err(JanitorError::Command(message)) => {
            assert_eq!(message, "Not mocked: /usr/sbin/modinfo -F firmware /m/b.ko")
        }
        _ => panic!("the scan went on"),
    }
}

#[test]
fn failed_inspection_ends_the_scan() {
    let mut scan = RequiredScan::new(&strings(&["/m/a.ko"]), "/f", "/f");
    assert!(scan.handle(ScanReply::Names(Ok(strings(&["x"])))).is_ok());
    assert!(scan.handle(ScanReply::Search(SearchReply::Exists(vec![true, false, false]))).is_ok());
    assert!(matches!(scan.request(), ScanRequest::Inspect(path) if path == "/f/x"));
    let gone = std::io::Error::new(std::io::ErrorKind::NotFound, "gone");
    assert!(matches!(scan.handle(ScanReply::Inspect(Err(gone))), Err(JanitorError::Io(_))));
}

#[test]
fn parts_of_a_scan_add_up() {
    let disk = Disk::default().file("/f/a").file("/f/b.xz").link("a", "/f/c").file("/f/d");
    let names = [("/m/1.ko", "c"), ("/m/2.ko", "b"), ("/m/3.ko", "a\nb"), ("/m/4.ko", "*.xz")];
    let modules = strings(&["/m/1.ko", "/m/2.ko", "/m/3.ko", "/m/4.ko"]);
    let whole = sorted(get_required_firmware(&disk, &modules, "/f", &runner(&names)).unwrap());
    assert_eq!(whole, vec!["/f/a", "/f/b.xz", "/f/c"]);
    for workers in 1..6 {
        let mut all = PathSet::new();
        for chunk in split_work(&modules, workers) {
            let part = get_required_firmware(&disk, &chunk, "/f", &runner(&names)).unwrap();
            all.extend(part.paths());
        }
        assert_eq!(sorted(all), whole);
    }
}

#[test]
fn search_for_a_relative_name_stays_inside() {
    for name in ["a", "a/../b", "", "x*"] {
        for dir in ["/f", "/f/", "f", "", "/"] {
            for path in firmware_search(name, dir).paths {
                assert!(std::path::Path::new(&path).starts_with(dir), "{} {}", path, dir);
            }
        }
    }
}

#[test]
fn walk_ends_whatever_the_answers_are() {
    let mut walk = SymlinkWalk::new("/t/a", "/t");
    let mut questions = 0;
    loop {
        match walk.request() {
            LinkRequest::Inspect(_) => walk.inspected(Some("a".to_string())),
            LinkRequest::CheckExists(_) => walk.checked(true),
            LinkRequest::Finished => break,
        }
        questions += 1;
    }
    assert_eq!(questions, 20);
    assert_eq!(walk.kept().len(), 11);
}

#[test]
fn firmware_behind_a_linked_directory_stays() {
    let disk = Disk::default()
        .dir("/f/b")
        .file("/f/b/x.bin")
        .file("/f/b/y.bin")
        .link("b", "/f/a")
        .dir("/f/c")
        .file("/f/z.bin");
    let runner = runner(&[("/m/6.1/k.ko", "a/x.bin\nc/../z.bin")]);
    let modules = strings(&["/m/6.1/k.ko"]);
    let required = get_required_firmware(&disk, &modules, "/f", &runner).unwrap();
    assert!(required.contains("/f/a/x.bin"));
    assert!(required.contains("/f/b/x.bin"));
    assert!(required.contains("/f/z.bin"));
    let mut scan = cleanup_firmware(&required, "/f", true).scan;
    assert_eq!(scan.visit("/f/b/x.bin", true, Ok(1)).unwrap(), FileVerdict::Leave);
    assert_eq!(scan.visit("/f/z.bin", true, Ok(1)).unwrap(), FileVerdict::Leave);
    assert_eq!(scan.visit("/f/b/y.bin", true, Ok(1)).unwrap(), FileVerdict::Remove);
}

#[test]
fn links_behind_a_linked_directory_stay() {
    let disk = Disk::default()
        .dir("/f/deep")
        .dir("/f/deep/b")
        .file("/f/deep/real.bin")
        .link("../mid.bin", "/f/deep/b/l.bin")
        .link("real.bin", "/f/deep/mid.bin")
        .link("deep/b", "/f/a");
    let runner = runner(&[("/m/k.ko", "a/l.bin")]);
    let required =
        get_required_firmware(&disk, &strings(&["/m/k.ko"]), "/f", &runner).unwrap();
    for path in ["/f/deep/b/l.bin", "/f/deep/mid.bin", "/f/deep/real.bin"] {
        assert!(required.contains(path), "{}", path);
    }
}

#[test]
fn firmware_is_required_in_the_spelling_of_its_directory() {
    let disk = Disk::default()
        .file("/fw/a/t.bin")
        .link("a/t.bin", "/fw/l.bin")
        .file("/fw/u.bin")
        .dir("/y/x")
        .link("/y/x", "/x")
        .file("/y/fw/l.bin")
        .link("/fw", "/firmware");
    let runner = runner(&[("/m/k.ko", "l.bin")]);
    for dir in ["/fw", "/./fw", "/fw/", "/z/../fw", "/fw/.", "/firmware", "/y/../firmware"] {
        let required =
            get_required_firmware(&disk, &strings(&["/m/k.ko"]), dir, &runner).unwrap();
        assert_eq!(required.len(), 2, "{}", dir);
        assert!(required.contains(&join(dir, "a/t.bin")), "{}", dir);
        assert!(required.contains(&join(dir, "l.bin")), "{}", dir);
    }
    // The directory above a linked one is not the one that its name suggests.
    let required =
        get_required_firmware(&disk, &strings(&["/m/k.ko"]), "/x/../fw", &runner).unwrap();
    assert_eq!(sorted(required), vec!["/x/../fw/l.bin"]);
}

#[test]
fn used_firmware_stays_in_any_spelling_of_its_directory() {
    let disk = Disk::default().file("fw/t.bin").link("t.bin", "fw/l.bin").file("fw/u.bin");
    let runner = runner(&[("/m/k.ko", "l.bin")]);
    for dir in ["fw", "./fw", "x/../fw"] {
        let required =
            get_required_firmware(&disk, &strings(&["/m/k.ko"]), dir, &runner).unwrap();
        assert!(required.lies_below(dir));
        let mut scan = cleanup_firmware(&required, dir, true).scan;
        for (name, verdict) in [
            ("t.bin", FileVerdict::Leave),
            ("l.bin", FileVerdict::Leave),
            ("u.bin", FileVerdict::Remove),
        ] {
            assert_eq!(scan.visit(&join(dir, name), true, Ok(1)).unwrap(), verdict, "{}", dir);
        }
    }
}

#[test]
fn trace_ends_whatever_the_answers_are() {
    let mut trace = Trace::new("/f/a");
    let mut questions = 1;
    loop {
        assert_eq!(trace.current(), "/f/a");
        let place = Place { path: "/f/a".to_string(), target: Some("a".to_string()) };
        match trace.advance(&Some(place)) {
            Some(next) => trace = next,
            None => break,
        }
        questions += 1;
    }
    assert_eq!(questions, MAX_LINKS);
    assert!(Trace::new("/f/a").advance(&None).is_none());
    let plain = Place { path: "/f/a".to_string(), target: None };
    assert!(Trace::new("/f/a").advance(&Some(plain)).is_none());
}

#[test]
fn chunks_fail_where_the_whole_does() {
    let disk = Disk::default().file("/f/a");
    let modules = strings(&["/m/1.ko", "/m/2.ko", "/m/3.ko"]);
    for broken in ["", "/m/1.ko", "/m/2.ko", "/m/3.ko"] {
        let names: Vec<(&str, &str)> = ["/m/1.ko", "/m/2.ko", "/m/3.ko"]
            .into_iter()
            .filter(|m| *m != broken)
            .map(|m| (m, "a"))
            .collect();
        let whole = get_required_firmware(&disk, &modules, "/f", &runner(&names)).is_err();
        assert_eq!(whole, !broken.is_empty());
        for workers in 1..5 {
            let any = split_work(&modules, workers)
                .iter()
                .any(|chunk| get_required_firmware(&disk, chunk, "/f", &runner(&names)).is_err());
            assert_eq!(any, whole);
        }
    }
}

/// Cleans the firmware directory up, and gives back what is left.
fn clean_up(disk: &Disk, modules: &Vec<String>, runner: &MockCommandRunner) -> Disk {
    let required = get_required_firmware(disk, modules, "/f", runner).unwrap();
    let plan = cleanup_firmware(&required, "/f", true);
    let mut scan = plan.scan;
    let mut disk = disk.clone();
    for pass in plan.passes {
        let paths: Vec<String> = disk.nodes.keys().cloned().collect();
        match pass {
            CleanupPass::UnusedFiles => {
                for path in paths {
                    let is_dir = matches!(disk.nodes.get(&path), Some(Node::Dir));
                    let is_file = disk.reaches(&path) && !is_dir;
                    if scan.visit(&path, is_file, Ok(1)).unwrap() == FileVerdict::Remove {
                        disk.nodes.remove(&path);
                    }
                }
            }
            CleanupPass::DanglingSymlinks => {
                for path in paths {
                    let is_link = matches!(disk.nodes.get(&path), Some(Node::Link(_)));
                    if is_dangling(is_link, disk.reaches(&path)) {
                        disk.nodes.remove(&path);
                    }
                }
            }
            CleanupPass::EmptyDirectories => {
                let entries: Vec<WalkEntry> = paths
                    .iter()
                    .map(|path| WalkEntry {
                        path: path.clone(),
                        is_file: matches!(disk.nodes.get(path), Some(Node::File)),
                        is_dir: matches!(disk.nodes.get(path), Some(Node::Dir)),
                        is_symlink: matches!(disk.nodes.get(path), Some(Node::Link(_))),
                    })
                    .collect();
                for at in directories_to_check(&entries) {
                    let inside = format!("{}/", entries[at].path);
                    let holds_nothing = !disk.nodes.keys().any(|p| p.starts_with(&inside));
                    if is_removable(&entries[at].path, "/f", holds_nothing) {
                        disk.nodes.remove(&entries[at].path);
                    }
                }
            }
        }
    }
    disk
}

#[test]
fn second_cleanup_removes_nothing() {
    let disk = Disk::default()
        .dir("/f")
        .dir("/f/a")
        .dir("/f/a/b")
        .file("/f/a/b/unused.bin")
        .dir("/f/c")
        .file("/f/c/used.bin.xz")
        .link("c/used.bin.xz", "/f/alias.xz")
        .link("alias.xz", "/f/other.xz")
        .link("gone", "/f/c/dangling")
        .link("dangling", "/f/c/more")
        .link("loop2", "/f/loop1")
        .link("loop1", "/f/loop2")
        .dir("/f/w")
        .file("/f/w/1.bin")
        .file("/f/w/2.txt");
    let runner = runner(&[("/m/k.ko", "alias\nw/*.bin")]);
    let modules = strings(&["/m/k.ko"]);
    let once = clean_up(&disk, &modules, &runner);
    let left: Vec<&str> = once.nodes.keys().map(|k| k.as_str()).collect();
    assert_eq!(
        left,
        vec!["/f", "/f/alias.xz", "/f/c", "/f/c/used.bin.xz", "/f/w", "/f/w/1.bin"]
    );
    let twice = clean_up(&once, &modules, &runner);
    let again: Vec<&str> = twice.nodes.keys().map(|k| k.as_str()).collect();
    assert_eq!(again, left);
}
