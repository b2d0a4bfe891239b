//! Commands on remote machines: how they are wrapped, repeated and judged.
use crate::text;
use crate::text::{text, text_contains};
use vstd::prelude::*;

verus! {

/// The status of a command running in the background.
#[derive(Clone, Copy, Debug, PartialEq, Eq, Structural)]
pub enum CommandStatus {
    Running,
    Terminated,
}

impl CommandStatus {
    /// Whether a background command is still running: its identifier is among
    /// those that are listed.
    pub fn status(command_id: &str, text: &str) -> (r: Self)
        ensures
            r == (if text::contains_text(text@, command_id@) {
                CommandStatus::Running
            } else {
                CommandStatus::Terminated
            }),
    {
        if text_contains(text, command_id) {
            CommandStatus::Running
        } else {
            CommandStatus::Terminated
        }
    }
}

/// How a command is executed on the remote machines.
#[derive(Debug)]
pub struct CommandContext {
    /// The identifier of a command that runs in the background.
    pub background: Option<String>,
    /// The path from where to execute the command.
    pub path: Option<String>,
    /// The file that the output goes to.
    pub log_file: Option<String>,
}

/// The contents of an optional text.
pub open spec fn optional(s: Option<String>) -> Option<Seq<char>> {
    match s {
        Some(t) => Some(t@),
        None => None,
    }
}

/// A command with its output copied to a file.
pub open spec fn with_log(command: Seq<char>, log_file: Option<Seq<char>>) -> Seq<char> {
    match log_file {
        Some(f) => command + " |& tee "@ + f,
        None => command,
    }
}

/// A command in a session of its own.
pub open spec fn in_background(command: Seq<char>, id: Option<Seq<char>>) -> Seq<char> {
    match id {
        Some(i) => "tmux new -d -s \""@ + i + "\" \""@ + command + "\""@,
        None => command,
    }
}

/// A command executed from a path.
pub open spec fn from_path(command: Seq<char>, path: Option<Seq<char>>) -> Seq<char> {
    match path {
        Some(p) => "(cd "@ + p + " && "@ + command + ")"@,
        None => command,
    }
}

impl CommandContext {
    /// A context that leaves the command as it is.
    pub fn new() -> (r: Self)
        ensures
            r.background is None,
            r.path is None,
            r.log_file is None,
    {
        CommandContext { background: None, path: None, log_file: None }
    }

    /// Runs the command in the background, under an identifier.
    pub fn run_background(self, id: String) -> (r: Self)
        ensures
            r == (CommandContext { background: Some(id), ..self }),
    {
        CommandContext { background: Some(id), path: self.path, log_file: self.log_file }
    }

    /// Sets the path from where to execute the command.
    pub fn with_execute_from_path(self, path: String) -> (r: Self)
        ensures
            r == (CommandContext { path: Some(path), ..self }),
    {
        CommandContext { background: self.background, path: Some(path), log_file: self.log_file }
    }

    /// Sets the file that the output goes to.
    pub fn with_log_file(self, path: String) -> (r: Self)
        ensures
            r == (CommandContext { log_file: Some(path), ..self }),
    {
        CommandContext { background: self.background, path: self.path, log_file: Some(path) }
    }

    /// Applies the context to a command: first the log file, then the
    /// background session, then the path.
    pub fn apply(&self, base_command: &str) -> (r: String)
        ensures
            r@ == from_path(
                in_background(
                    with_log(base_command@, optional(self.log_file)),
                    optional(self.background),
                ),
                optional(self.path),
            ),
    {
        let mut command = text(base_command);
        match &self.log_file {
            Some(f) => {
                command.append(" |& tee ");
                command.append(f.as_str());
            },
            None => {},
        }
        match &self.background {
            Some(id) => {
                let mut wrapped = text("tmux new -d -s \"");
                wrapped.append(id.as_str());
                wrapped.append("\" \"");
                wrapped.append(command.as_str());
                wrapped.append("\"");
                command = wrapped;
            },
            None => {},
        }
        match &self.path {
            Some(p) => {
                let mut wrapped = text("(cd ");
                wrapped.append(p.as_str());
                wrapped.append(" && ");
                wrapped.append(command.as_str());
                wrapped.append(")");
                command = wrapped;
            },
            None => {},
        }
        command
    }
}

/// The seconds between two attempts.
pub const RETRY_DELAY_SECONDS: u64 = 5;

/// The milliseconds after which a connection times out by default.
pub const DEFAULT_TIMEOUT_MILLIS: u64 = 180_000;

/// How connections to the machines are made.
#[derive(Debug)]
pub struct SshConnectionManager {
    /// The user name.
    pub username: String,
    /// The file with the private key.
    pub private_key_file: String,
    /// The time after which a connection times out, in milliseconds.
    pub timeout_millis: Option<u64>,
    /// How often a failure is repeated.
    pub retries: usize,
}

impl SshConnectionManager {
    /// A manager without a timeout of its own that repeats nothing.
    pub fn new(username: String, private_key_file: String) -> (r: Self)
        ensures
            r.username == username,
            r.private_key_file == private_key_file,
            r.timeout_millis is None,
            r.retries == 0,
    {
        SshConnectionManager { username, private_key_file, timeout_millis: None, retries: 0 }
    }

    /// Sets the timeout, in milliseconds.
    pub fn with_timeout(self, timeout_millis: u64) -> (r: Self)
        ensures
            r == (SshConnectionManager { timeout_millis: Some(timeout_millis), ..self }),
    {
        SshConnectionManager {
            username: self.username,
            private_key_file: self.private_key_file,
            timeout_millis: Some(timeout_millis),
            retries: self.retries,
        }
    }

    /// Sets how often a failure is repeated.
    pub fn with_retries(self, retries: usize) -> (r: Self)
        ensures
            r == (SshConnectionManager { retries, ..self }),
    {
        SshConnectionManager {
            username: self.username,
            private_key_file: self.private_key_file,
            timeout_millis: self.timeout_millis,
            retries,
        }
    }

    /// Whether another attempt follows `failed` failures.
    pub fn tries_again(&self, failed: usize) -> (b: bool)
        ensures
            b == (failed <= self.retries),
    {
        failed <= self.retries
    }

    /// The timeout of a session, in milliseconds: the default one where none is
    /// set. Sessions keep the low 32 bits.
    pub fn session_timeout(&self) -> (r: u32)
        ensures
            r == (match self.timeout_millis {
                Some(t) => t % 0x1_0000_0000,
                None => DEFAULT_TIMEOUT_MILLIS,
            }),
    {
        let t: u64 = match self.timeout_millis {
            Some(t) => t,
            None => DEFAULT_TIMEOUT_MILLIS,
        };
        (t % 0x1_0000_0000) as u32
    }
}

/// The command that lists the background sessions.
pub fn list_sessions_command() -> (r: &'static str)
    ensures
        r@ == "(tmux ls || true)"@,
{
    "(tmux ls || true)"
}

/// The command that ends a background session.
pub fn kill_command(command_id: &str) -> (r: String)
    ensures
        r@ == "(tmux kill-session -t "@ + command_id@ + " || true)"@,
{
    let mut s = text("(tmux kill-session -t ");
    s.append(command_id);
    s.append(" || true)");
    s
}

/// Whether a background command has a status on every machine, by the lists of
/// sessions there.
pub fn all_have_status(outputs: &Vec<String>, command_id: &str, status: CommandStatus) -> (b: bool)
    ensures
        b == (forall|i: int|
            0 <= i < outputs@.len() ==> (text::contains_text((#[trigger] outputs@[i])@, command_id@)
                == (status is Running))),
{
    let mut i: usize = 0;
    while i < outputs.len()
        invariant
            i <= outputs@.len(),
            forall|k: int|
                0 <= k < i ==> (text::contains_text((#[trigger] outputs@[k])@, command_id@) == (
                status is Running)),
        decreases outputs@.len() - i,
    {
        let s = CommandStatus::status(command_id, outputs[i].as_str());
        if s != status {
            assert(text::contains_text(outputs@[i as int]@, command_id@) != (status is Running));
            return false;
        }
        i = i + 1;
    }
    true
}

/// A command that ended with another code than zero.
#[derive(Debug)]
pub struct NonZeroExitCode {
    /// The machine that it ran on.
    pub address: String,
    pub code: i32,
    pub message: String,
}

/// What a command that has ended gives: its two outputs where it succeeded,
/// else the machine's address, its code and what it reported.
pub fn judge_exit(address: &str, stdout: String, stderr: String, code: i32) -> (r: Result<
    (String, String),
    NonZeroExitCode,
>)
    ensures
        match r {
            Ok(out) => code == 0 && out.0 == stdout && out.1 == stderr,
            Err(e) => code != 0 && e.address@ == address@ && e.code == code && e.message == stderr,
        },
{
    if code == 0 {
        Ok((stdout, stderr))
    } else {
        Err(NonZeroExitCode { address: text(address), code, message: stderr })
    }
}

/// The context is applied from the inside out: a command that runs in the
/// background, from a path and with a log file, is the path's command around
/// the session's around the logged one.
pub proof fn law_context_nests(
    command: Seq<char>,
    log_file: Seq<char>,
    id: Seq<char>,
    path: Seq<char>,
)
    ensures
        from_path(in_background(with_log(command, Some(log_file)), Some(id)), Some(path)) == "(cd "@
            + path + " && "@ + ("tmux new -d -s \""@ + id + "\" \""@ + (command + " |& tee "@
            + log_file) + "\""@) + ")"@,
{
}

} // verus!
