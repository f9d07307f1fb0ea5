//! The commands that sshpal runs: syncing, the reverse tunnel and the installation of the
//! remote helper.
use vstd::prelude::*;

use crate::config::Config;
use crate::paths::{SyncDirection, SyncPlan};
use crate::tasks;
use crate::text;
use crate::text::{
    chars_of, decimal_text, replace_all, same_text, signed_decimal_text, text_between,
};

verus! {

/// A command to run.
#[derive(Debug, PartialEq, Eq)]
pub struct CommandSpec {
    pub program: String,
    pub args: Vec<String>,
    /// The directory to run in, where it is not the current one.
    pub cwd: Option<String>,
}

/// What a command says.
#[verifier::ext_equal]
pub struct CommandLine {
    pub program: Seq<char>,
    pub args: Seq<Seq<char>>,
    pub cwd: Option<Seq<char>>,
}

impl View for CommandSpec {
    type V = CommandLine;

    open spec fn view(&self) -> CommandLine {
        CommandLine {
            program: self.program@,
            args: text::texts(self.args@),
            cwd: text::maybe_text(self.cwd),
        }
    }
}

impl Clone for CommandSpec {
    fn clone(&self) -> (copy: Self)
        ensures
            copy@ == self@,
    {
        let copy = CommandSpec {
            program: self.program.clone(),
            args: self.args.clone(),
            cwd: self.cwd.clone(),
        };
        assert(copy@.args =~= self@.args);
        copy
    }
}

/// The command that runs `program` with `args` in the current directory.
pub open spec fn command_line(program: Seq<char>, args: Seq<Seq<char>>) -> CommandLine {
    CommandLine { program, args, cwd: None }
}

impl CommandSpec {
    /// A command without arguments.
    pub fn new(program: &str) -> (spec: CommandSpec)
        ensures
            spec@ == command_line(program@, Seq::empty()),
    {
        let spec = CommandSpec { program: program.to_owned(), args: Vec::new(), cwd: None };
        assert(text::texts(spec.args@) =~= Seq::empty());
        spec
    }

    /// The command with one more argument.
    pub fn arg(self, arg: &str) -> (spec: CommandSpec)
        ensures
            spec@ == (CommandLine { args: self@.args.push(arg@), ..self@ }),
    {
        let mut args = self.args;
        args.push(arg.to_owned());
        let spec = CommandSpec { program: self.program, args, cwd: self.cwd };
        assert(spec@.args =~= self@.args.push(arg@));
        spec
    }

    /// The command with more arguments.
    pub fn args(self, args: Vec<String>) -> (spec: CommandSpec)
        ensures
            spec@ == (CommandLine { args: self@.args + text::texts(args@), ..self@ }),
    {
        let mut all = self.args;
        let mut more = args;
        all.append(&mut more);
        let spec = CommandSpec { program: self.program, args: all, cwd: self.cwd };
        assert(spec@.args =~= self@.args + text::texts(args@));
        spec
    }

    /// The command, run in the directory `cwd`.
    pub fn cwd(self, cwd: &str) -> (spec: CommandSpec)
        ensures
            spec@ == (CommandLine { cwd: Some(cwd@), ..self@ }),
    {
        CommandSpec { program: self.program, args: self.args, cwd: Some(cwd.to_owned()) }
    }
}

// ---- running commands ----

/// Commands that were run, in order, each with the message of its failure where it failed.
pub type History = Seq<(CommandLine, Option<Seq<char>>)>;

/// The message of a failure, where there is one.
pub open spec fn failure(result: Result<(), String>) -> Option<Seq<char>> {
    match result {
        Ok(()) => None,
        Err(message) => Some(message@),
    }
}

/// Something that runs commands.
pub trait CommandRunner {
    /// What was run so far. It exists for contracts alone, and nothing ever calls it.
    spec fn history(&self) -> History;

    /// Whether the command `line` is known to succeed. It exists for contracts alone, and
    /// nothing ever calls it. Where nothing is known, it holds of no command.
    spec fn accepts(&self, line: CommandLine) -> bool;

    /// Runs a command, and fails with a message where the command does.
    fn run(&mut self, spec: &CommandSpec) -> (result: Result<(), String>)
        ensures
            final(self).history() == old(self).history().push((spec@, failure(result))),
            old(self).accepts(spec@) ==> result is Ok,
            forall|line: CommandLine|
                old(self).accepts(line) ==> #[trigger] final(self).accepts(line),
    ;
}

/// Whether all of `lines` are known to succeed.
pub open spec fn accepts_all<R: CommandRunner>(runner: R, lines: Seq<CommandLine>) -> bool {
    forall|i: int| 0 <= i < lines.len() ==> runner.accepts(#[trigger] lines[i])
}

/// What commands say.
pub open spec fn command_lines(specs: Seq<CommandSpec>) -> Seq<CommandLine> {
    specs.map_values(|spec: CommandSpec| spec@)
}

/// The history of commands that all succeeded.
pub open spec fn succeeded(lines: Seq<CommandLine>) -> History {
    lines.map_values(|line: CommandLine| (line, None))
}

/// Whether `later` is `earlier` and then a run of `lines` in order that stopped at the
/// first failure, and `result` is that failure, or success where there was none.
pub open spec fn ran_until_failure(
    earlier: History,
    later: History,
    lines: Seq<CommandLine>,
    result: Result<(), String>,
) -> bool {
    match result {
        Ok(()) => later == earlier + succeeded(lines),
        Err(message) => exists|at: int|
            0 <= at < lines.len() && later == (earlier + succeeded(#[trigger] lines.take(at))).push(
                (lines[at], Some(message@)),
            ),
    }
}

/// Runs `specs` in order, up to the first that fails, whose failure is the result.
pub fn run_commands<R: CommandRunner>(runner: &mut R, specs: &[CommandSpec]) -> (result: Result<
    (),
    String,
>)
    ensures
        ran_until_failure(
            old(runner).history(),
            final(runner).history(),
            command_lines(specs@),
            result,
        ),
        accepts_all(*old(runner), command_lines(specs@)) ==> result is Ok,
{
    let ghost earlier = runner.history();
    let ghost lines = command_lines(specs@);
    assert(earlier + succeeded(lines.take(0)) =~= earlier);
    for index in 0..specs.len()
        invariant
            lines == command_lines(specs@),
            earlier == old(runner).history(),
            runner.history() == earlier + succeeded(lines.take(index as int)),
            accepts_all(*old(runner), lines) ==> accepts_all(*runner, lines),
    {
        let result = runner.run(&specs[index]);
        proof {
            assert(lines[index as int] == specs@[index as int]@);
            assert(succeeded(lines.take(index + 1)) =~= succeeded(lines.take(index as int)).push(
                (lines[index as int], None),
            ));
        }
        if let Err(message) = result {
            assert(runner.history() == (earlier + succeeded(lines.take(index as int))).push(
                (lines[index as int], Some(message@)),
            ));
            return Err(message);
        }
        assert(runner.history() =~= earlier + succeeded(lines.take(index + 1)));
    }
    assert(lines.take(specs@.len() as int) =~= lines);
    Ok(())
}

/// How a command ended: its exit code, or that a signal ended it.
pub open spec fn exit_status_text(code: Option<i32>) -> Seq<char> {
    match code {
        Some(code) => text::signed_decimal(code as int),
        None => "signal"@,
    }
}

/// How a command ended: its exit code, or that a signal ended it.
pub fn format_exit_status(code: Option<i32>) -> (status: String)
    ensures
        status@ == exit_status_text(code),
{
    match code {
        Some(code) => signed_decimal_text(code),
        None => "signal".to_owned(),
    }
}

/// The outcome of a command that ended with `code`: it succeeds with 0 alone.
pub fn check_exit(program: &str, code: Option<i32>) -> (result: Result<(), String>)
    ensures
        match result {
            Ok(()) => code == Some(0i32),
            Err(message) => {
                &&& code != Some(0i32)
                &&& message@ == "command "@ + program@ + " failed with status "@
                    + exit_status_text(code)
            },
        },
{
    match code {
        Some(0) => Ok(()),
        _ => Err(
            "command ".to_owned().concat(program).concat(" failed with status ").concat(
                format_exit_status(code).as_str(),
            ),
        ),
    }
}

/// A runner that only takes down what it is asked to run.
#[derive(Debug, Clone)]
pub struct RecordingRunner {
    /// The commands, each with the message of its failure where it was let fail.
    log: Vec<(CommandSpec, Option<String>)>,
    fail_program: Option<String>,
}

impl Default for RecordingRunner {
    fn default() -> (runner: RecordingRunner)
        ensures
            runner.history() == Seq::<(CommandLine, Option<Seq<char>>)>::empty(),
            runner.failing() is None,
    {
        let runner = RecordingRunner { log: Vec::new(), fail_program: None };
        assert(runner.history() =~= Seq::<(CommandLine, Option<Seq<char>>)>::empty());
        runner
    }
}

impl RecordingRunner {
    /// The program whose commands fail.
    pub closed spec fn failing(&self) -> Option<Seq<char>> {
        text::maybe_text(self.fail_program)
    }

    /// The commands that were run, which are forgotten.
    pub fn take(&mut self) -> (specs: Vec<CommandSpec>)
        ensures
            command_lines(specs@) == old(self).history().map_values(
                |entry: (CommandLine, Option<Seq<char>>)| entry.0,
            ),
            final(self).history() == Seq::<(CommandLine, Option<Seq<char>>)>::empty(),
            final(self).failing() == old(self).failing(),
    {
        let mut specs: Vec<CommandSpec> = Vec::new();
        for index in 0..self.log.len()
            invariant
                specs@.len() == index,
                forall|i: int| 0 <= i < index ==> (#[trigger] specs@[i])@ == self.log@[i].0@,
        {
            specs.push(self.log[index].0.clone());
        }
        proof {
            assert(command_lines(specs@) =~= self.history().map_values(
                |entry: (CommandLine, Option<Seq<char>>)| entry.0,
            ));
        }
        self.log = Vec::new();
        assert(self.history() =~= Seq::<(CommandLine, Option<Seq<char>>)>::empty());
        specs
    }

    /// Lets all further commands of `program` fail.
    pub fn fail_on(&mut self, program: &str)
        ensures
            final(self).failing() == Some(program@),
            final(self).history() == old(self).history(),
    {
        self.fail_program = Some(program.to_owned());
    }
}

impl CommandRunner for RecordingRunner {
    closed spec fn history(&self) -> History {
        self.log@.map_values(
            |entry: (CommandSpec, Option<String>)| (entry.0@, text::maybe_text(entry.1)),
        )
    }

    open spec fn accepts(&self, line: CommandLine) -> bool {
        self.failing() != Some(line.program)
    }

    fn run(&mut self, spec: &CommandSpec) -> (result: Result<(), String>)
        ensures
            final(self).failing() == old(self).failing(),
            match result {
                Ok(()) => old(self).failing() != Some(spec@.program),
                Err(message) => {
                    &&& old(self).failing() == Some(spec@.program)
                    &&& message@ == "forced failure"@
                },
            },
    {
        let fails = match &self.fail_program {
            Some(program) => same_text(program.as_str(), spec.program.as_str()),
            None => false,
        };
        let ghost before = self.history();
        if fails {
            let message = "forced failure".to_owned();
            self.log.push((spec.clone(), Some(message.clone())));
            assert(self.history() =~= before.push((spec@, Some(message@))));
            Err(message)
        } else {
            self.log.push((spec.clone(), None));
            assert(self.history() =~= before.push((spec@, None)));
            Ok(())
        }
    }
}

// ---- the commands ----

/// A word in single quotes, as a shell reads it back: a single quote in it is written in
/// double quotes, between two pieces in single quotes.
pub open spec fn quoted(raw: Seq<char>) -> Seq<char> {
    seq!['\''] + text::replaced(raw, seq!['\''], seq!['\'', '"', '\'', '"', '\'']) + seq!['\'']
}

/// A word in single quotes, as a shell reads it back.
pub fn shell_quote(raw: &str) -> (word: String)
    ensures
        word@ == quoted(raw@),
{
    proof {
        reveal_strlit("'");
        reveal_strlit("'\"'\"'");
        assert("'"@ =~= seq!['\'']);
        assert("'\"'\"'"@ =~= seq!['\'', '"', '\'', '"', '\'']);
    }
    "'".to_owned().concat(replace_all(raw, "'", "'\"'\"'").as_str()).concat("'")
}

/// Whether a path starts in the home directory of whoever logs in.
pub open spec fn is_homed(path: Seq<char>) -> bool {
    path.len() >= 2 && path[0] == '~' && path[1] == '/'
}

/// A remote path as a shell command writes it: in quotes, but for a leading `~/`, which the
/// remote shell has to expand.
pub open spec fn quoted_path(path: Seq<char>) -> Seq<char> {
    if is_homed(path) {
        seq!['~', '/'] + quoted(path.skip(2))
    } else {
        quoted(path)
    }
}

/// A remote path as a shell command writes it.
fn shell_path(path: &str) -> (word: String)
    ensures
        word@ == quoted_path(path@),
{
    let chars = chars_of(path);
    if chars.len() >= 2 && chars[0] == '~' && chars[1] == '/' {
        let rest = text_between(chars.as_slice(), 2, chars.len());
        proof {
            reveal_strlit("~/");
            assert("~/"@ =~= seq!['~', '/']);
            assert(rest@ =~= path@.skip(2));
        }
        "~/".to_owned().concat(shell_quote(rest.as_str()).as_str())
    } else {
        shell_quote(path)
    }
}

/// A path on the remote machine, as `rsync` and `scp` take it.
pub open spec fn remote_location(ssh_target: Seq<char>, path: Seq<char>) -> Seq<char> {
    ssh_target + ":"@ + path
}

/// The file on the remote machine that the helper is copied to first.
pub open spec fn helper_upload(rpc_port: u16) -> Seq<char> {
    "/tmp/sshpal-run-"@ + text::decimal(rpc_port as nat) + ".tmp"@
}

/// The file on the remote machine that the helper is copied to first.
fn helper_upload_path(rpc_port: u16) -> (path: String)
    ensures
        path@ == helper_upload(rpc_port),
{
    "/tmp/sshpal-run-".to_owned().concat(decimal_text(rpc_port as u128).as_str()).concat(".tmp")
}

/// The command that copies between the path `local` of this machine and the path `remote` of
/// the remote one, and deletes at the destination what the source does not have.
pub open spec fn rsync_line(
    ssh_target: Seq<char>,
    direction: SyncDirection,
    local: Seq<char>,
    remote: Seq<char>,
) -> CommandLine {
    let there = remote_location(ssh_target, remote);
    command_line(
        "rsync"@,
        match direction {
            SyncDirection::Push => seq!["-az"@, "--delete"@, "-e"@, "ssh"@, local, there],
            SyncDirection::Pull => seq!["-az"@, "--delete"@, "-e"@, "ssh"@, there, local],
        },
    )
}

/// The command that carries out `plan`.
pub fn rsync_command(config: &Config, plan: &SyncPlan) -> (spec: CommandSpec)
    ensures
        spec@ == rsync_line(
            config.ssh_target@,
            plan.direction,
            plan.local_path@,
            plan.remote_path@,
        ),
{
    let remote = config.ssh_target.clone().concat(":").concat(plan.remote_path.as_str());
    let local = plan.local_path.clone();
    let (source, dest) = match plan.direction {
        SyncDirection::Push => (local, remote),
        SyncDirection::Pull => (remote, local),
    };
    let spec = CommandSpec::new("rsync").arg("-az").arg("--delete").arg("-e").arg("ssh").arg(
        source.as_str(),
    ).arg(dest.as_str());
    assert(spec@.args =~= seq!["-az"@, "--delete"@, "-e"@, "ssh"@, source@, dest@]);
    spec
}

/// The command that lets the remote machine reach the local server.
pub fn reverse_tunnel_command(config: &Config) -> (spec: CommandSpec)
    ensures
        spec@ == command_line(
            "ssh"@,
            seq![
                "-N"@,
                "-R"@,
                text::decimal(config.rpc_port as nat) + ":127.0.0.1:"@ + text::decimal(
                    config.rpc_port as nat,
                ),
                config.ssh_target@,
            ],
        ),
{
    let port = decimal_text(config.rpc_port as u128);
    let forward = port.clone().concat(":127.0.0.1:").concat(port.as_str());
    let spec = CommandSpec::new("ssh").arg("-N").arg("-R").arg(forward.as_str()).arg(
        config.ssh_target.as_str(),
    );
    assert(spec@.args =~= seq!["-N"@, "-R"@, forward@, config.ssh_target@]);
    spec
}

/// The shell command that makes the directory of `remote_bin_path`.
pub open spec fn prepare_script(remote_bin_path: Seq<char>) -> Seq<char> {
    "mkdir -p \"$(dirname "@ + quoted_path(remote_bin_path) + ")\""@
}

/// The shell command that moves the uploaded helper to `remote_bin_path`.
pub open spec fn finalize_script(rpc_port: u16, remote_bin_path: Seq<char>) -> Seq<char> {
    "chmod +x "@ + helper_upload(rpc_port) + " && mv "@ + helper_upload(rpc_port) + " "@
        + quoted_path(remote_bin_path)
}

/// The command that makes the remote directory of the helper.
pub fn install_prepare_command(config: &Config) -> (spec: CommandSpec)
    ensures
        spec@ == command_line(
            "ssh"@,
            seq![config.ssh_target@, prepare_script(config.remote_bin_path@)],
        ),
{
    let script = "mkdir -p \"$(dirname ".to_owned().concat(
        shell_path(config.remote_bin_path.as_str()).as_str(),
    ).concat(")\"");
    let spec = CommandSpec::new("ssh").arg(config.ssh_target.as_str()).arg(script.as_str());
    assert(spec@.args =~= seq![config.ssh_target@, script@]);
    spec
}

/// The command that copies the local file `artifact` to the remote machine.
pub fn install_copy_command(config: &Config, artifact: &str) -> (spec: CommandSpec)
    ensures
        spec@ == command_line(
            "scp"@,
            seq![
                artifact@,
                remote_location(config.ssh_target@, helper_upload(config.rpc_port)),
            ],
        ),
{
    let target = config.ssh_target.clone().concat(":").concat(
        helper_upload_path(config.rpc_port).as_str(),
    );
    let spec = CommandSpec::new("scp").arg(artifact).arg(target.as_str());
    assert(spec@.args =~= seq![artifact@, target@]);
    spec
}

/// The command that puts the copied helper in its place.
pub fn install_finalize_command(config: &Config) -> (spec: CommandSpec)
    ensures
        spec@ == command_line(
            "ssh"@,
            seq![config.ssh_target@, finalize_script(config.rpc_port, config.remote_bin_path@)],
        ),
{
    let upload = helper_upload_path(config.rpc_port);
    let script = "chmod +x ".to_owned().concat(upload.as_str()).concat(" && mv ").concat(
        upload.as_str(),
    ).concat(" ").concat(shell_path(config.remote_bin_path.as_str()).as_str());
    let spec = CommandSpec::new("ssh").arg(config.ssh_target.as_str()).arg(script.as_str());
    assert(spec@.args =~= seq![config.ssh_target@, script@]);
    spec
}

/// The commands that install the helper from the local file `artifact`.
pub open spec fn install_lines(config: Config, artifact: Seq<char>) -> Seq<CommandLine> {
    seq![
        command_line(
            "ssh"@,
            seq![config.ssh_target@, prepare_script(config.remote_bin_path@)],
        ),
        command_line(
            "scp"@,
            seq![
                artifact,
                remote_location(config.ssh_target@, helper_upload(config.rpc_port)),
            ],
        ),
        command_line(
            "ssh"@,
            seq![config.ssh_target@, finalize_script(config.rpc_port, config.remote_bin_path@)],
        ),
    ]
}

/// Installs the helper on the remote machine from the local file `artifact`: prepares its
/// directory, copies it and puts it in its place. The first of the three commands that fails
/// ends the installation, with its failure.
pub fn install_remote_helper<R: CommandRunner>(
    runner: &mut R,
    config: &Config,
    artifact: &str,
) -> (result: Result<(), String>)
    ensures
        ran_until_failure(
            old(runner).history(),
            final(runner).history(),
            install_lines(*config, artifact@),
            result,
        ),
        accepts_all(*old(runner), install_lines(*config, artifact@)) ==> result is Ok,
{
    let mut specs: Vec<CommandSpec> = Vec::new();
    specs.push(install_prepare_command(config));
    specs.push(install_copy_command(config, artifact));
    specs.push(install_finalize_command(config));
    assert(command_lines(specs@) =~= install_lines(*config, artifact@));
    run_commands(runner, specs.as_slice())
}

// ---- what holds of the commands ----

/// Where a reader of a shell word stands.
pub enum QuoteState {
    Bare,
    Single,
    Double,
}

/// What a shell makes of a word by removing its quotes, from the state `state` on; nothing
/// where a quote stays open, or where a character stands bare or in double quotes that the
/// shell would act on.
pub open spec fn quotes_removed(word: Seq<char>, state: QuoteState) -> Option<Seq<char>>
    decreases word.len(),
{
    if word.len() == 0 {
        match state {
            QuoteState::Bare => Some(Seq::empty()),
            _ => None,
        }
    } else {
        let ch = word[0];
        let rest = word.skip(1);
        match state {
            QuoteState::Bare => if ch == '\'' {
                quotes_removed(rest, QuoteState::Single)
            } else if ch == '"' {
                quotes_removed(rest, QuoteState::Double)
            } else if tasks::is_shell_special(ch) {
                None
            } else {
                preceded(ch, quotes_removed(rest, QuoteState::Bare))
            },
            QuoteState::Single => if ch == '\'' {
                quotes_removed(rest, QuoteState::Bare)
            } else {
                preceded(ch, quotes_removed(rest, QuoteState::Single))
            },
            QuoteState::Double => if ch == '"' {
                quotes_removed(rest, QuoteState::Bare)
            } else if ch == '$' || ch == '`' || ch == '\\' {
                None
            } else {
                preceded(ch, quotes_removed(rest, QuoteState::Double))
            },
        }
    }
}

/// A character and what follows it, where that is known.
pub open spec fn preceded(ch: char, rest: Option<Seq<char>>) -> Option<Seq<char>> {
    match rest {
        Some(rest) => Some(seq![ch] + rest),
        None => None,
    }
}

proof fn lemma_quoted_tail(raw: Seq<char>)
    ensures
        quotes_removed(
            text::replaced(raw, seq!['\''], seq!['\'', '"', '\'', '"', '\'']) + seq!['\''],
            QuoteState::Single,
        ) == Some(raw),
    decreases raw.len(),
{
    let mark = seq!['\''];
    let with = seq!['\'', '"', '\'', '"', '\''];
    let word = text::replaced(raw, mark, with) + mark;
    if raw.len() == 0 {
        assert(word =~= mark);
        assert(word.skip(1) =~= Seq::empty());
        reveal_with_fuel(quotes_removed, 2);
        assert(raw =~= Seq::empty());
    } else {
        let rest = text::replaced(raw.skip(1), mark, with) + mark;
        lemma_quoted_tail(raw.skip(1));
        assert(raw.subrange(0, 1) =~= seq![raw[0]]);
        assert(seq![raw[0]] + raw.skip(1) =~= raw);
        if raw[0] == '\'' {
            assert(raw.subrange(0, 1) =~= mark);
            assert(word =~= with + rest);
            assert(word.skip(1) =~= seq!['"', '\'', '"', '\''] + rest);
            assert(word.skip(1).skip(1) =~= seq!['\'', '"', '\''] + rest);
            assert(word.skip(1).skip(1).skip(1) =~= seq!['"', '\''] + rest);
            assert(word.skip(1).skip(1).skip(1).skip(1) =~= seq!['\''] + rest);
            assert(word.skip(1).skip(1).skip(1).skip(1).skip(1) =~= rest);
            reveal_with_fuel(quotes_removed, 6);
        } else {
            assert(raw.subrange(0, 1)[0] != mark[0]);
            assert(word =~= seq![raw[0]] + rest);
            assert(word.skip(1) =~= rest);
        }
    }
}

/// A quoted word reaches the program behind the shell as it was, whatever it holds.
pub proof fn lemma_quoted_is_read_back(raw: Seq<char>)
    ensures
        quotes_removed(quoted(raw), QuoteState::Bare) == Some(raw),
{
    lemma_quoted_tail(raw);
    let tail = text::replaced(raw, seq!['\''], seq!['\'', '"', '\'', '"', '\'']) + seq!['\''];
    assert(quoted(raw) =~= seq!['\''] + tail);
    assert(quoted(raw).skip(1) =~= tail);
}

/// A pull is the inverse of a push: the same command, with source and destination
/// exchanged.
pub proof fn lemma_pull_inverts_push(
    ssh_target: Seq<char>,
    local: Seq<char>,
    remote: Seq<char>,
)
    ensures
        ({
            let push = rsync_line(ssh_target, SyncDirection::Push, local, remote);
            let pull = rsync_line(ssh_target, SyncDirection::Pull, local, remote);
            &&& push.program == pull.program
            &&& push.args.len() == pull.args.len()
            &&& push.args.take(4) == pull.args.take(4)
            &&& push.args.skip(4) == seq![local, remote_location(ssh_target, remote)]
            &&& pull.args.skip(4) == push.args.skip(4).reverse()
        }),
{
}

} // verus!
