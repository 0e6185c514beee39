//! Configuration files, architecture sections and patterns.
use image_janitor::command::CommandRunner;
use image_janitor::config::{
    arch_filter, collect_parts, collect_patterns, compile_all, compile_lines, gather_lines,
    get_arch, part_patterns, read_config, select_lines, ConfigFile, LineKind,
};
use image_janitor::error::{JanitorError, PatternError};
use image_janitor::pattern::any_match;
use std::collections::HashMap;

struct MockCommandRunner {
    commands: HashMap<String, String>,
}

impl CommandRunner for MockCommandRunner {
    fn run(&self, command: &str, _args: &[&str]) -> Result<String, JanitorError> {
        self.commands
            .get(command)
            .cloned()
            .ok_or_else(|| JanitorError::Command(format!("Command not found: {}", command)))
    }
}

fn runner_on(arch: &str) -> MockCommandRunner {
    let mut commands = HashMap::new();
    commands.insert("arch".to_string(), arch.to_string());
    MockCommandRunner { commands }
}

fn strings(list: &[&str]) -> Vec<String> {
    list.iter().map(|s| s.to_string()).collect()
}

fn file(path: &str, content: &str) -> ConfigFile {
    ConfigFile { path: path.to_string(), content: Ok(content.to_string()) }
}

fn missing(path: &str) -> ConfigFile {
    let cause = std::io::Error::new(std::io::ErrorKind::NotFound, "gone");
    ConfigFile { path: path.to_string(), content: Err(cause) }
}

#[test]
fn test_arch_filter() {
    let lines = vec![
        "<x86_64>".to_string(),
        "intel_driver".to_string(),
        "</x86_64>".to_string(),
        "<aarch64>".to_string(),
        "arm_driver".to_string(),
        "</aarch64>".to_string(),
        "<ppc64le>".to_string(),
        "power_driver".to_string(),
        "</ppc64le>".to_string(),
        "<s390x>".to_string(),
        "ibm_driver".to_string(),
        "</s390x>".to_string(),
        "common_driver".to_string(),
    ];

    let x86_64_lines = arch_filter(lines.clone(), "x86_64");
    assert_eq!(x86_64_lines, vec!["intel_driver", "common_driver"]);

    let aarch64_lines = arch_filter(lines.clone(), "aarch64");
    assert_eq!(aarch64_lines, vec!["arm_driver", "common_driver"]);

    let ppc64le_lines = arch_filter(lines.clone(), "ppc64le");
    assert_eq!(ppc64le_lines, vec!["power_driver", "common_driver"]);

    let s390x_lines = arch_filter(lines.clone(), "s390x");
    assert_eq!(s390x_lines, vec!["ibm_driver", "common_driver"]);
}

#[test]
fn test_read_config_with_arch() {
    let runner = runner_on("x86_64");
    let files = vec![file(
        "test.conf",
        "<x86_64>\n-delete_me\n</x86_64>\n<aarch64>\n-not_me\n</aarch64>\nkeep_me",
    )];

    let (to_keep, to_delete) = read_config(files, &runner).unwrap();

    assert_eq!(to_keep.len(), 1);
    assert_eq!(to_delete.len(), 1);
    assert!(to_keep[0].is_match("keep_me"));
    assert!(to_delete[0].is_match("delete_me"));
}

#[test]
fn section_tags_allow_white_space() {
    let lines = strings(&["  <s390x >  ", "x", "\t</s390x\t> ", "y"]);
    assert_eq!(arch_filter(lines.clone(), "x86_64"), vec!["y"]);
    assert_eq!(arch_filter(lines, "s390x"), vec!["x", "y"]);
}

#[test]
fn lines_that_only_look_like_tags_are_patterns() {
    let lines = strings(&["<a b>", "<>", "</>", "x<y>", "< s390x>"]);
    assert_eq!(arch_filter(lines.clone(), "z"), lines);
}

#[test]
fn tags_hold_words_only() {
    let lines = strings(&["<x86-64>", "a", "</x86-64>", "<x86_64 >", "b", "</x86_64\t>", "<a b>"]);
    assert_eq!(
        arch_filter(lines.clone(), "arm"),
        vec!["<x86-64>", "a", "</x86-64>", "<a b>"]
    );
    assert_eq!(
        arch_filter(lines, "x86_64"),
        vec!["<x86-64>", "a", "</x86-64>", "b", "<a b>"]
    );
}

#[test]
fn two_files_are_read_as_one() {
    let shown = |files: Vec<ConfigFile>| {
        let (keep, delete) = read_config(files, &runner_on("x")).unwrap();
        let texts = |list: Vec<regex::Regex>| -> Vec<String> {
            list.iter().map(|re| re.as_str().to_string()).collect()
        };
        (texts(keep), texts(delete))
    };
    let two = vec![file("1", "a\n<y>\nb\n"), file("2", "c\n</y>\n-d\n#e")];
    let one = vec![file("0", "a\n<y>\nb\nc\n</y>\n-d\n#e")];
    assert_eq!(shown(two), shown(one));
    assert_eq!(shown(vec![file("0", "a\n<y>\nb\nc\n</y>\n-d\n#e")]), (strings(&["a"]), strings(&["d"])));
}

#[test]
fn section_without_end_lasts_until_the_next_tag() {
    let lines = strings(&["<a>", "1", "<b>", "2", "</c>", "3"]);
    assert_eq!(arch_filter(lines.clone(), "a"), vec!["1", "3"]);
    assert_eq!(arch_filter(lines.clone(), "b"), vec!["2", "3"]);
    assert_eq!(arch_filter(lines, "c"), vec!["3"]);
}

#[test]
fn selecting_again_changes_nothing() {
    let lines = strings(&["<a>", "1", "</a>", "2", "<b>", "3", "</b>"]);
    let once = arch_filter(lines, "a");
    assert_eq!(once, vec!["1", "2"]);
    assert_eq!(arch_filter(once.clone(), "b"), once);
}

#[test]
fn lines_are_selected_by_their_kinds() {
    let lines = strings(&["o", "1", "c", "2"]);
    let kinds = vec![
        LineKind::Open("arm".to_string()),
        LineKind::Plain,
        LineKind::Close,
        LineKind::Plain,
    ];
    assert_eq!(select_lines(lines.clone(), &kinds, "arm"), vec!["1", "2"]);
    assert_eq!(select_lines(lines, &kinds, "x"), vec!["2"]);
}

#[test]
fn section_of_the_architecture_is_as_if_it_had_no_tags() {
    let with = strings(&["a", "<x>", "b", "</x>", "c"]);
    let without = strings(&["a", "b", "c"]);
    assert_eq!(arch_filter(with.clone(), "x"), arch_filter(without, "x"));
    assert_eq!(arch_filter(with, "y"), vec!["a", "c"]);
}

#[test]
fn comments_and_empty_lines_are_dropped() {
    let files = vec![file("a", "# c\n\none\r\n#\n two"), file("b", "\nthree\n")];
    assert_eq!(gather_lines(files).unwrap(), vec!["one", " two", "three"]);
}

#[test]
fn files_are_read_in_order_and_the_first_fault_is_told() {
    let files = vec![file("a", "x"), missing("b"), missing("c")];
    match gather_lines(files) {
        Err(JanitorError::ConfigRead(path, cause)) => {
            assert_eq!(path, "b");
            assert_eq!(cause.kind(), std::io::ErrorKind::NotFound);
        }
        other => panic!("{:?}", other),
    }
}

#[test]
fn unreadable_file_fails_before_the_architecture_is_asked_for() {
    let runner = MockCommandRunner { commands: HashMap::new() };
    let res = read_config(vec![missing("b")], &runner);
    assert!(matches!(res, Err(JanitorError::ConfigRead(_, _))));
}

#[test]
fn architecture_that_cannot_be_had_is_an_error() {
    let runner = MockCommandRunner { commands: HashMap::new() };
    let res = read_config(vec![file("a", "x")], &runner);
    match res {
        Err(JanitorError::Command(message)) => assert_eq!(message, "Command not found: arch"),
        other => panic!("{:?}", other),
    }
    assert_eq!(get_arch(&runner_on("riscv64")).unwrap(), "riscv64");
}

#[test]
fn lines_are_parted_at_their_first_character() {
    let lines = strings(&["a", "-b", "--c", " -d", "-"]);
    let (keep, delete) = part_patterns(&lines);
    assert_eq!(keep, vec!["a", " -d"]);
    assert_eq!(delete, vec!["b", "-c", ""]);
}

#[test]
fn pattern_with_bad_syntax_is_refused() {
    let res = read_config(vec![file("a", "ok\n-(open\nfine")], &runner_on("x"));
    match res {
        Err(JanitorError::Regex(PatternError::Syntax(message))) => {
            assert!(message.contains("unclosed group"))
        }
        other => panic!("{:?}", other),
    }
}

#[test]
fn patterns_to_keep_are_checked_first() {
    let res = compile_lines(&strings(&["-(open", "[open"]));
    match res {
        Err(JanitorError::Regex(PatternError::Syntax(message))) => {
            assert!(message.contains("unclosed character class"))
        }
        other => panic!("{:?}", other),
    }
}

#[test]
fn pattern_that_takes_too_much_memory_is_refused() {
    let res = compile_lines(&strings(&[r"\w{1000}{1000}"]));
    assert!(matches!(
        res,
        Err(JanitorError::Regex(PatternError::CompiledTooBig(10485760)))
    ));
}

#[test]
fn patterns_are_compiled_one_by_one() {
    let outcomes = compile_all(&strings(&["a+", "(", "b"]));
    assert_eq!(outcomes.len(), 3);
    assert_eq!(outcomes[0].as_ref().unwrap().as_str(), "a+");
    assert!(matches!(outcomes[1], Err(PatternError::Syntax(_))));
    assert_eq!(outcomes[2].as_ref().unwrap().as_str(), "b");
    let all = collect_patterns(compile_all(&strings(&["x", "y"]))).unwrap();
    let shown: Vec<&str> = all.iter().map(|re| re.as_str()).collect();
    assert_eq!(shown, vec!["x", "y"]);
}

#[test]
fn first_failure_ends_the_collection() {
    let big = || Err(PatternError::CompiledTooBig(5));
    let bad = || Err(PatternError::Syntax("bad".to_string()));
    assert!(matches!(
        collect_patterns(vec![big(), bad()]),
        Err(JanitorError::Regex(PatternError::CompiledTooBig(5)))
    ));
    assert!(matches!(
        collect_parts(vec![bad()], vec![big()]),
        Err(JanitorError::Regex(PatternError::Syntax(_)))
    ));
    assert!(matches!(
        collect_parts(vec![], vec![big(), bad()]),
        Err(JanitorError::Regex(PatternError::CompiledTooBig(5)))
    ));
    let (keep, delete) = collect_parts(vec![], vec![]).unwrap();
    assert!(keep.is_empty() && delete.is_empty());
}

#[test]
fn match_anywhere_in_the_path_counts() {
    let (keep, delete) = compile_lines(&strings(&["net/.*", "^exact$", "-drivers/usb"])).unwrap();
    assert!(any_match(&keep, "kernel/drivers/net/e1000.ko"));
    assert!(any_match(&keep, "exact"));
    assert!(!any_match(&keep, "exactly"));
    assert!(any_match(&delete, "kernel/drivers/usb/x.ko"));
    assert!(!any_match(&[].to_vec(), "x"));
}
