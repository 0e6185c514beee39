//! Workers, chunks of work, and commands.
use image_janitor::command::{modinfo, CommandOutcome, CommandRunner, SystemCommandRunner};
use image_janitor::error::JanitorError;
use image_janitor::work::{chunk_size, split_work, worker_count};

#[test]
fn one_worker_where_work_is_not_shared() {
    assert_eq!(worker_count(true, Some(8)), 1);
    assert_eq!(worker_count(false, Some(8)), 8);
    assert_eq!(worker_count(false, None), 1);
    assert_eq!(worker_count(true, None), 1);
}

#[test]
fn chunks_are_those_of_std() {
    for n in 0..20usize {
        let items: Vec<String> = (0..n).map(|i| i.to_string()).collect();
        for workers in 1..12usize {
            let size = std::cmp::max(1, n.div_ceil(workers));
            assert_eq!(chunk_size(n, workers), size);
            let expected: Vec<Vec<String>> = items.chunks(size).map(|c| c.to_vec()).collect();
            let chunks = split_work(&items, workers);
            assert_eq!(chunks, expected);
            assert!(chunks.len() <= workers);
            assert_eq!(chunks.concat(), items);
        }
    }
    assert_eq!(chunk_size(usize::MAX, 1), usize::MAX);
    assert_eq!(chunk_size(usize::MAX, 2), usize::MAX / 2 + 1);
}

#[test]
fn output_of_a_command_is_trimmed() {
    let outcome = CommandOutcome::Finished {
        success: true,
        stdout: "\n x86_64 \n".to_string(),
        stderr: "warning".to_string(),
    };
    assert_eq!(SystemCommandRunner.reply("arch", outcome).unwrap(), "x86_64");
}

#[test]
fn failed_command_tells_what_it_printed() {
    let outcome = CommandOutcome::Finished {
        success: false,
        stdout: "x".to_string(),
        stderr: "no such module\n".to_string(),
    };
    match SystemCommandRunner.reply("/usr/sbin/modinfo", outcome) {
        Err(JanitorError::Command(message)) => {
            assert_eq!(message, "'/usr/sbin/modinfo' command failed: no such module\n")
        }
        other => panic!("{:?}", other),
    }
}

#[test]
fn command_that_does_not_start_tells_why() {
    let outcome = CommandOutcome::NotStarted("No such file or directory".to_string());
    match SystemCommandRunner.reply("arch", outcome) {
        Err(JanitorError::Command(message)) => {
            assert_eq!(message, "Failed to execute 'arch': No such file or directory")
        }
        other => panic!("{:?}", other),
    }
}

struct Echo;

impl CommandRunner for Echo {
    fn run(&self, command: &str, args: &[&str]) -> Result<String, JanitorError> {
        Ok(format!("{}|{}", command, args.join("|")))
    }
}

#[test]
fn modinfo_is_asked_for_one_field() {
    assert_eq!(
        modinfo(&Echo, "firmware", "/m/a.ko").unwrap(),
        "/usr/sbin/modinfo|-F|firmware|/m/a.ko"
    );
}
