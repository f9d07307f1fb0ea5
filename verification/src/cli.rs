//! The commands of the program, and what they decide before and after they touch the
//! machine.
use vstd::prelude::*;
use vstd::utf8::encode_utf8;

use crate::config::{Config, Task};
use crate::execution;
use crate::execution::{
    timeout_message, Directive, ExecutionView, StepEvent, TaskOutput, EXIT_FAILURE,
    EXIT_TIMED_OUT,
};
use crate::name_map::NameMap;
use crate::paths;
use crate::paths::{build_sync_plan, relative_cwd, PathError, SyncDirection, SyncPlan};
use crate::process;
use crate::process::{rsync_command, CommandSpec};
use crate::tasks;
use crate::tasks::{
    parse_invocation_args, prepare_task, Environment, PreparedTask, TaskError,
};
use crate::text;
use crate::text::decimal_text;
use crate::time_span::TimeSpan;

verus! {

/// What the program was asked to do.
#[derive(Debug, Clone, PartialEq, Eq)]
pub struct Cli {
    pub command: Commands,
}

/// The commands of the program.
#[derive(Debug, Clone, PartialEq, Eq)]
pub enum Commands {
    /// Copy a path to the remote machine.
    Push { path: String },
    /// Copy a path from the remote machine.
    Pull { path: String },
    /// Serve tasks to the remote machine.
    Serve,
    /// Run a task.
    Run { task: String, args: Vec<String> },
    /// Check the setup.
    Checkhealth,
    /// Describe the tasks.
    TasksHelp,
}

// ---- syncing ----

/// The path below the root that a sync from `cwd` works on, or why there is none.
pub open spec fn sync_target(local_root: Seq<char>, cwd: Seq<char>, path: Seq<char>) -> Result<
    Seq<char>,
    PathError<Seq<char>>,
> {
    match paths::below_root(local_root, cwd) {
        Ok(cwd_rel) => paths::relative_target(cwd_rel, path),
        Err(error) => Err(error),
    }
}

/// What a sync of `path`, asked for in the directory `cwd`, copies. Both `cwd` and the local
/// root are written without links.
pub fn plan_sync(
    config: &Config,
    local_root: &str,
    cwd: &str,
    path: &str,
    direction: SyncDirection,
) -> (plan: Result<SyncPlan, PathError>)
    ensures
        match plan {
            Ok(plan) => {
                &&& sync_target(local_root@, cwd@, path@) == Ok::<_, PathError<Seq<char>>>(
                    plan.relative_path@,
                )
                &&& plan.direction == direction
                &&& plan.local_path@ == paths::path_joined(
                    config.local_root@,
                    plan.relative_path@,
                )
                &&& plan.remote_path@ == paths::path_joined(
                    config.remote_root@,
                    plan.relative_path@,
                )
            },
            Err(error) => sync_target(local_root@, cwd@, path@) == Err::<Seq<char>, _>(error@),
        },
{
    let cwd_rel = match relative_cwd(local_root, cwd) {
        Ok(cwd_rel) => cwd_rel,
        Err(error) => return Err(error),
    };
    build_sync_plan(
        config.local_root.as_str(),
        config.remote_root.as_str(),
        cwd_rel.as_str(),
        path,
        direction,
    )
}

/// A path as `rsync` has to see it: that of a directory is written with a slash behind it, so
/// that its contents are copied.
pub open spec fn synced_path(path: Seq<char>, is_dir: bool) -> Seq<char> {
    if is_dir {
        paths::directory_form(path)
    } else {
        path
    }
}

/// The command that carries out `plan`, where `is_dir` says whether its local path is a
/// directory.
pub fn sync_command(config: &Config, plan: SyncPlan, is_dir: bool) -> (spec: CommandSpec)
    ensures
        spec@ == process::rsync_line(
            config.ssh_target@,
            plan.direction,
            synced_path(plan.local_path@, is_dir),
            synced_path(plan.remote_path@, is_dir),
        ),
{
    if is_dir {
        rsync_command(config, &plan.for_directory())
    } else {
        rsync_command(config, &plan)
    }
}

/// A sync reaches nothing outside the project: what it copies lies below both roots, at the
/// same place, and is reached from each of them by going down only. An empty path has no form
/// as a directory, so a directory is named by its root or by the path below it.
pub proof fn lemma_sync_confined(
    local_root: Seq<char>,
    cwd: Seq<char>,
    path: Seq<char>,
    root: Seq<char>,
    is_dir: bool,
)
    requires
        sync_target(local_root, cwd, path) is Ok,
        is_dir ==> root.len() > 0 || sync_target(local_root, cwd, path)->Ok_0.len() > 0,
    ensures
        ({
            let relative = sync_target(local_root, cwd, path)->Ok_0;
            &&& paths::all_entries(paths::components(relative))
            &&& paths::components(synced_path(paths::path_joined(root, relative), is_dir))
                == paths::components(root) + paths::components(relative)
        }),
{
    let relative = sync_target(local_root, cwd, path)->Ok_0;
    paths::lemma_plan_confined(root, root, paths::below_root(local_root, cwd)->Ok_0, path);
    if is_dir {
        paths::lemma_directory_form_components(paths::path_joined(root, relative));
    }
}

/// To sync `.` is to sync the working directory: from the directory that `list` leads to, it
/// is what `list` leads to that is copied.
pub proof fn lemma_sync_here(local_root: Seq<char>, list: Seq<Seq<char>>)
    requires
        paths::all_entries(list),
    ensures
        ({
            let relative = text::joined(list, paths::slash());
            sync_target(local_root, paths::path_joined(local_root, relative), paths::dot()) == Ok::<
                _,
                PathError<Seq<char>>,
            >(relative)
        }),
{
    paths::lemma_relative_cwd_undoes_join(local_root, list);
    paths::lemma_entries_path(list);
    paths::lemma_sync_dot(text::joined(list, paths::slash()));
}

// ---- running a task ----

/// Prepares the task `task_name` for a run with the arguments `args`, in the environment
/// `env`.
pub fn prepare_invocation(
    tasks: &NameMap<Task>,
    local_root: &str,
    task_name: &str,
    args: &[String],
    env: &Environment,
) -> (prepared: Result<PreparedTask, TaskError>)
    ensures
        match tasks::invocation(text::texts(args@)) {
            Err(fault) => prepared matches Err(error) && error@ == fault,
            Ok((vars, forwarded)) => if tasks@.contains_key(task_name@) {
                tasks::prepares(
                    task_name@,
                    tasks@[task_name@],
                    local_root@,
                    vars,
                    forwarded,
                    env@,
                    prepared,
                )
            } else {
                prepared matches Err(error) && error@ == (TaskError::UnknownTask {
                    task: task_name@,
                })
            },
        },
{
    let invocation = match parse_invocation_args(args) {
        Ok(invocation) => invocation,
        Err(error) => return Err(error),
    };
    match tasks.get(task_name) {
        None => Err(TaskError::UnknownTask { task: task_name.to_owned() }),
        Some(task) => prepare_task(
            task_name,
            task,
            local_root,
            &invocation.vars,
            invocation.forwarded_args.as_slice(),
            env,
        ),
    }
}

/// What to do next in a run on this machine.
#[derive(Debug, PartialEq, Eq)]
pub enum LocalStep<S = String, L = Vec<String>> {
    /// Run a command to its end.
    Spawn { program: S, args: L },
    /// The task has ended.
    Exit { code: i32 },
}

impl View for LocalStep<String, Vec<String>> {
    type V = LocalStep<Seq<char>, Seq<Seq<char>>>;

    open spec fn view(&self) -> LocalStep<Seq<char>, Seq<Seq<char>>> {
        match self {
            LocalStep::Spawn { program, args } => {
                LocalStep::Spawn { program: program@, args: text::texts(args@) }
            },
            LocalStep::Exit { code } => LocalStep::Exit { code: *code },
        }
    }
}

/// What to do after `finished` commands, the last of which ended with `last`.
pub open spec fn local_next(steps: Seq<Seq<Seq<char>>>, finished: int, last: i32) -> LocalStep<
    Seq<char>,
    Seq<Seq<char>>,
> {
    if last != 0 {
        LocalStep::Exit { code: last }
    } else if finished >= steps.len() {
        LocalStep::Exit { code: 0 }
    } else if steps[finished].len() == 0 {
        LocalStep::Exit { code: EXIT_FAILURE }
    } else {
        LocalStep::Spawn { program: steps[finished][0], args: steps[finished].skip(1) }
    }
}

/// What to do after `finished` commands, the last of which ended with `last`; before the
/// first command, `last` is 0.
pub fn local_step(steps: &[Vec<String>], finished: usize, last: i32) -> (next: LocalStep)
    ensures
        next@ == local_next(text::rows(steps@), finished as int, last),
{
    if last != 0 {
        return LocalStep::Exit { code: last };
    }
    if finished >= steps.len() {
        return LocalStep::Exit { code: 0 };
    }
    let argv = &steps[finished];
    assert(text::rows(steps@)[finished as int] == text::texts(argv@));
    if argv.len() == 0 {
        return LocalStep::Exit { code: EXIT_FAILURE };
    }
    let program = argv[0].clone();
    let mut args: Vec<String> = Vec::new();
    for index in 1..argv.len()
        invariant
            args@.len() == index - 1,
            forall|i: int| 0 <= i < index - 1 ==> (#[trigger] args@[i])@ == argv@[i + 1]@,
    {
        args.push(argv[index].clone());
    }
    assert(text::texts(args@) =~= text::texts(argv@).skip(1));
    LocalStep::Spawn { program, args }
}

/// How a command on this machine ended.
#[derive(Debug, PartialEq, Eq)]
pub enum LocalEnd {
    /// With a code, unless a signal ended it.
    Exited { code: Option<i32> },
    /// It ran for longer than `timeout`, and was killed.
    TimedOut { timeout: TimeSpan },
}

/// What a command on this machine leaves behind: its exit code, and a message for the user
/// where there is one.
#[derive(Debug, PartialEq, Eq)]
pub struct LocalOutcome<S = String> {
    pub code: i32,
    pub message: Option<S>,
}

impl View for LocalOutcome<String> {
    type V = LocalOutcome<Seq<char>>;

    open spec fn view(&self) -> LocalOutcome<Seq<char>> {
        LocalOutcome { code: self.code, message: text::maybe_text(self.message) }
    }
}

/// What a command of `task` leaves behind: a signal counts as a failure, and a command that
/// ran for too long is told of.
pub open spec fn local_outcome(task: Seq<char>, end: LocalEnd) -> LocalOutcome<Seq<char>> {
    match end {
        LocalEnd::Exited { code } => LocalOutcome {
            code: execution::exit_code(code),
            message: None,
        },
        LocalEnd::TimedOut { timeout } => LocalOutcome {
            code: EXIT_TIMED_OUT,
            message: Some(execution::timeout_text(task, timeout)),
        },
    }
}

/// The exit code of a command of the task `task_name`, and what the user is told.
pub fn local_end(task_name: &str, end: LocalEnd) -> (outcome: LocalOutcome)
    ensures
        outcome@ == local_outcome(task_name@, end),
{
    match end {
        LocalEnd::Exited { code } => {
            let code: i32 = match code {
                Some(code) => code,
                None => EXIT_FAILURE,
            };
            LocalOutcome { code, message: None }
        },
        LocalEnd::TimedOut { timeout } => {
            let message = timeout_message(task_name, &timeout);
            LocalOutcome { code: EXIT_TIMED_OUT, message: Some(message) }
        },
    }
}

/// What a task sees of the end of a command.
pub open spec fn end_event(end: LocalEnd) -> StepEvent<Seq<char>, Seq<u8>> {
    match end {
        LocalEnd::Exited { code } => StepEvent::Exited { code },
        LocalEnd::TimedOut { .. } => StepEvent::TimedOut,
    }
}

/// A task runs on this machine as it runs for the remote one: after a command has ended, or
/// has run for too long, the same command follows, or the task ends with the same code. Where
/// the user is told something, the remote machine is sent the same text before the code.
pub proof fn lemma_local_run_agrees(state: ExecutionView, end: LocalEnd)
    requires
        state.running,
        0 <= state.current < state.steps.len() <= usize::MAX,
        match end {
            LocalEnd::TimedOut { timeout } => state.timeout == Some(timeout),
            LocalEnd::Exited { .. } => true,
        },
    ensures
        ({
            let (_, reply) = execution::handled(state, end_event(end));
            let outcome = local_outcome(state.task, end);
            &&& match local_next(state.steps, state.current + 1, outcome.code) {
                LocalStep::Spawn { program, args } => reply.next == (Directive::Spawn {
                    step: (state.current + 1) as usize,
                    program,
                    args,
                }),
                LocalStep::Exit { code } => {
                    &&& reply.next == Directive::<Seq<char>, Seq<Seq<char>>>::Finish
                    &&& reply.outputs.last() == (TaskOutput::Exit::<Seq<u8>> { code })
                },
            }
            &&& match outcome.message {
                Some(message) => reply.outputs == seq![
                    TaskOutput::Stderr { chunk: encode_utf8(message) },
                    TaskOutput::Exit { code: outcome.code },
                ],
                None => true,
            }
        }),
{
    if let LocalEnd::TimedOut { timeout } = end {
        let outputs = execution::handled(state, StepEvent::TimedOut).1.outputs;
        assert(outputs =~= seq![
            TaskOutput::Stderr {
                chunk: encode_utf8(execution::timeout_text(state.task, timeout)),
            },
            TaskOutput::Exit { code: EXIT_TIMED_OUT },
        ]);
    }
}

// ---- the remote helper ----

/// The name of the local file that holds the helper until it is installed, at a time given
/// in nanoseconds.
pub fn helper_file_name(nanos: u128) -> (name: String)
    ensures
        name@ == "sshpal-run-"@ + text::decimal(nanos as nat) + ".tmp"@,
{
    "sshpal-run-".to_owned().concat(decimal_text(nanos).as_str()).concat(".tmp")
}

/// What is said before the helper is installed.
pub fn install_note(config: &Config) -> (note: String)
    ensures
        note@ == "sshpal: installing remote helper to "@ + config.remote_bin_path@ + " on "@
            + config.ssh_target@,
{
    "sshpal: installing remote helper to ".to_owned().concat(
        config.remote_bin_path.as_str(),
    ).concat(" on ").concat(config.ssh_target.as_str())
}

/// What is said once the reverse tunnel was started.
pub fn tunnel_note(config: &Config) -> (note: String)
    ensures
        note@ == "sshpal: reverse tunnel started for 127.0.0.1:"@ + text::decimal(
            config.rpc_port as nat,
        ),
{
    "sshpal: reverse tunnel started for 127.0.0.1:".to_owned().concat(
        decimal_text(config.rpc_port as u128).as_str(),
    )
}

} // verus!
