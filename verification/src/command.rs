//! External commands and what they answer.
use crate::error::JanitorError;
use crate::text::{is_blank, is_tight, law_trimming_takes_blanks, trim, trimmed};
use vstd::prelude::*;

verus! {

/// Runs external commands.
pub trait CommandRunner {
    /// Runs `command` with `args` and gives back what it printed.
    fn run(&self, command: &str, args: &[&str]) -> Result<String, JanitorError>;
}

/// How a command of the system ended.
pub enum CommandOutcome {
    /// It could not be started, for this reason.
    NotStarted(String),
    /// It ran to its end.
    Finished { success: bool, stdout: String, stderr: String },
}

/// The message for a command that could not be started.
pub open spec fn not_started_message(command: Seq<char>, reason: Seq<char>) -> Seq<char> {
    "Failed to execute '"@ + command + "': "@ + reason
}

/// The message for a command that reported failure.
pub open spec fn failed_message(command: Seq<char>, stderr: Seq<char>) -> Seq<char> {
    "'"@ + command + "' command failed: "@ + stderr
}

/// Runs the commands of the system.
pub struct SystemCommandRunner;

impl SystemCommandRunner {
    /// What a command that ended so answers: the text it printed, without the
    /// white space around it, or why there is none.
    pub fn reply(&self, command: &str, outcome: CommandOutcome) -> (res: Result<
        String,
        JanitorError,
    >)
        ensures
            match outcome {
                CommandOutcome::NotStarted(reason) => res matches Err(JanitorError::Command(message))
                    && message@ == not_started_message(command@, reason@),
                CommandOutcome::Finished { success, stdout, stderr } => if success {
                    res matches Ok(text) && text@ == trimmed(stdout@)
                } else {
                    res matches Err(JanitorError::Command(message)) && message@ == failed_message(
                        command@,
                        stderr@,
                    )
                },
            },
    {
        match outcome {
            CommandOutcome::NotStarted(reason) => {
                let mut message = "Failed to execute '".to_owned();
                message.append(command);
                message.append("': ");
                message.append(reason.as_str());
                Err(JanitorError::Command(message))
            },
            CommandOutcome::Finished { success, stdout, stderr } => {
                if success {
                    Ok(trim(stdout.as_str()))
                } else {
                    let mut message = "'".to_owned();
                    message.append(command);
                    message.append("' command failed: ");
                    message.append(stderr.as_str());
                    Err(JanitorError::Command(message))
                }
            },
        }
    }
}

/// The characters of each argument of a command.
pub open spec fn argument_texts(args: Seq<&str>) -> Seq<Seq<char>> {
    args.map_values(|arg: &str| arg@)
}

/// Whether `reply` is what `runner` answered to `command` with `args`.
pub open spec fn replied<R: CommandRunner>(
    runner: &R,
    command: &str,
    args: Seq<Seq<char>>,
    reply: Result<String, JanitorError>,
) -> bool {
    exists|list: &[&str]|
        argument_texts(list@) == args && #[trigger] call_ensures(R::run, (runner, command, list), reply)
}

/// The arguments that ask `modinfo` for one field of a module file.
pub open spec fn modinfo_args(field: Seq<char>, file: Seq<char>) -> Seq<Seq<char>> {
    seq!["-F"@, field, file]
}

/// Asks `modinfo` for one field of a module file.
pub fn modinfo<R: CommandRunner>(runner: &R, field: &str, file: &str) -> (reply: Result<
    String,
    JanitorError,
>)
    ensures
        replied(runner, "/usr/sbin/modinfo", modinfo_args(field@, file@), reply),
{
    let args: [&str; 3] = ["-F", field, file];
    let list: &[&str] = &args;
    let reply = runner.run("/usr/sbin/modinfo", list);
    proof {
        assert(argument_texts(list@) =~= modinfo_args(field@, file@));
        assert(call_ensures(R::run, (runner, "/usr/sbin/modinfo", list), reply));
    }
    reply
}

/// `modinfo` is asked for a field of a file with the option `-F`, the name of
/// the field and the path of the file, in this order.
pub proof fn law_modinfo_is_asked_for_a_field<R: CommandRunner>(
    runner: &R,
    field: &str,
    file: &str,
    reply: Result<String, JanitorError>,
)
    requires
        call_ensures(modinfo::<R>, (runner, field, file), reply),
    ensures
        exists|list: &[&str]|
            list@.len() == 3 && list@[0]@ == seq!['-', 'F'] && list@[1]@ == field@ && list@[2]@
                == file@ && #[trigger] call_ensures(
                R::run,
                (runner, "/usr/sbin/modinfo", list),
                reply,
            ),
{
    reveal_strlit("-F");
    assert("-F"@ =~= seq!['-', 'F']);
    let args = modinfo_args(field@, file@);
    let list = choose|list: &[&str]|
        argument_texts(list@) == args && #[trigger] call_ensures(
            R::run,
            (runner, "/usr/sbin/modinfo", list),
            reply,
        );
    assert(argument_texts(list@).len() == list@.len());
    assert(argument_texts(list@)[0] == list@[0]@);
    assert(argument_texts(list@)[1] == list@[1]@);
    assert(argument_texts(list@)[2] == list@[2]@);
}

/// A command that succeeds answers with what it printed, without the white
/// space around it; one that does not, with an error that names the command
/// and says what went wrong.
pub proof fn law_commands_answer_with_what_they_print(
    runner: &SystemCommandRunner,
    command: &str,
    outcome: CommandOutcome,
    res: Result<String, JanitorError>,
    before: Seq<char>,
    printed: Seq<char>,
    after: Seq<char>,
)
    requires
        call_ensures(SystemCommandRunner::reply, (runner, command, outcome), res),
        is_blank(before),
        is_blank(after),
        is_tight(printed),
    ensures
        match outcome {
            CommandOutcome::NotStarted(reason) => res matches Err(JanitorError::Command(message))
                && message@ == "Failed to execute '"@ + command@ + "': "@ + reason@,
            CommandOutcome::Finished { success, stdout, stderr } => if success {
                stdout@ == before + printed + after ==> (res matches Ok(text) && text@ == printed)
            } else {
                res matches Err(JanitorError::Command(message)) && message@ == "'"@ + command@
                    + "' command failed: "@ + stderr@
            },
        },
{
    law_trimming_takes_blanks(before, printed, after);
}

} // verus!
