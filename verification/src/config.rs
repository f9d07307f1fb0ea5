//! The configuration of a project: its tasks, what is valid in it, and where it is found.
use vstd::prelude::*;

use crate::name_map;
use crate::name_map::NameMap;
use crate::paths;
use crate::paths::{is_absolute_path, join_path, parent_dir};
use crate::tasks::TASKS_HELP_NAME;
use crate::template;
use crate::template::{parse_template, Placeholder, TemplateError, TemplatePart};
use crate::text;
use crate::text::{contains_text, is_blank, is_valid_name, same_text};
use crate::time_span::TimeSpan;

verus! {

/// The name of the configuration file.
pub const CONFIG_FILE_NAME: &'static str = ".sshpal.toml";

/// The port of the local server, where the configuration names none.
pub const DEFAULT_RPC_PORT: u16 = 45_678;

/// Where the remote helper is installed, where the configuration does not say.
pub const DEFAULT_REMOTE_BIN_PATH: &'static str = "~/.local/bin/sshpal-run";

/// How long to wait for synced files, in seconds, where the configuration does not say.
pub const DEFAULT_SYNC_DETECTION_SECS: u64 = 10;

/// The configuration of a project.
#[derive(Debug, Clone, PartialEq, Eq)]
pub struct Config {
    /// The remote machine, as `ssh` takes it.
    pub ssh_target: String,
    /// The project's directory on this machine.
    pub local_root: String,
    /// The project's directory on the remote machine.
    pub remote_root: String,
    /// The port of the local server.
    pub rpc_port: u16,
    /// Where the helper is installed on the remote machine.
    pub remote_bin_path: String,
    /// How long a remote run waits for its files to be synced.
    pub sync_detection_timeout: TimeSpan,
    /// The tasks by name.
    pub tasks: NameMap<Task>,
}

/// A task that can be run on this machine.
#[derive(Debug, Clone, PartialEq, Eq)]
pub struct Task {
    pub run: TaskRun,
    pub description: Option<String>,
    /// The working directory, seen from the local root.
    pub cwd: Option<String>,
    /// Environment variables that the commands get.
    pub env: NameMap<String>,
    /// How long one command may take.
    pub timeout: Option<TimeSpan>,
    /// The documented variables by name.
    pub vars: NameMap<TaskVar>,
}

/// The commands of a task.
#[derive(Debug, Clone, PartialEq, Eq)]
pub enum TaskRun {
    /// One command line, split into words after its placeholders are filled.
    String(String),
    /// The words of one command.
    Command(Vec<String>),
    /// The words of several commands, which run one after another.
    Sequence(Vec<Vec<String>>),
}

/// What is documented of a variable.
#[derive(Debug, Clone, PartialEq, Eq)]
pub struct TaskVar {
    pub description: Option<String>,
    /// Whether the variable may be left out.
    pub optional: bool,
}

/// A configuration together with the place where it was found.
#[derive(Debug, Clone, PartialEq, Eq)]
pub struct LoadedConfig {
    pub config: Config,
    /// The configuration file.
    pub path: String,
    /// The directory that holds the configuration file.
    pub project_root: String,
}

// ---- what is wrong with a configuration ----

/// What is wrong with a configuration.
#[derive(Debug, PartialEq, Eq)]
pub enum ConfigError<S = String> {
    EmptySshTarget,
    RelativeLocalRoot,
    RelativeRemoteRoot,
    EmptyRemoteBinPath,
    EmptyTaskName,
    ReservedTaskName,
    /// The command line of a task is blank.
    EmptyCommandString { task: S },
    /// The command line of a task is not a template.
    InvalidRunString { task: S, cause: TemplateError<S> },
    /// A task, or one of its steps, has no command.
    NoCommand { task: S },
    /// The first word of a command is blank.
    EmptyCommandArray { task: S },
    /// A word of a command is not a template.
    InvalidArgv { task: S, cause: TemplateError<S> },
    EmptyVarName { task: S },
    InvalidVarName { task: S, name: S },
    EmptyVarDescription { task: S, name: S },
    /// A documented variable does not occur in the commands.
    UnusedVar { task: S, name: S },
    /// No configuration file stands in the directory or above it.
    NotFound { start: S },
}

impl View for ConfigError<String> {
    type V = ConfigError<Seq<char>>;

    open spec fn view(&self) -> ConfigError<Seq<char>> {
        match self {
            ConfigError::EmptySshTarget => ConfigError::EmptySshTarget,
            ConfigError::RelativeLocalRoot => ConfigError::RelativeLocalRoot,
            ConfigError::RelativeRemoteRoot => ConfigError::RelativeRemoteRoot,
            ConfigError::EmptyRemoteBinPath => ConfigError::EmptyRemoteBinPath,
            ConfigError::EmptyTaskName => ConfigError::EmptyTaskName,
            ConfigError::ReservedTaskName => ConfigError::ReservedTaskName,
            ConfigError::EmptyCommandString { task } => {
                ConfigError::EmptyCommandString { task: task@ }
            },
            ConfigError::InvalidRunString { task, cause } => {
                ConfigError::InvalidRunString { task: task@, cause: cause@ }
            },
            ConfigError::NoCommand { task } => ConfigError::NoCommand { task: task@ },
            ConfigError::EmptyCommandArray { task } => {
                ConfigError::EmptyCommandArray { task: task@ }
            },
            ConfigError::InvalidArgv { task, cause } => {
                ConfigError::InvalidArgv { task: task@, cause: cause@ }
            },
            ConfigError::EmptyVarName { task } => ConfigError::EmptyVarName { task: task@ },
            ConfigError::InvalidVarName { task, name } => {
                ConfigError::InvalidVarName { task: task@, name: name@ }
            },
            ConfigError::EmptyVarDescription { task, name } => {
                ConfigError::EmptyVarDescription { task: task@, name: name@ }
            },
            ConfigError::UnusedVar { task, name } => {
                ConfigError::UnusedVar { task: task@, name: name@ }
            },
            ConfigError::NotFound { start } => ConfigError::NotFound { start: start@ },
        }
    }
}

impl ConfigError<Seq<char>> {
    /// The sentence that reports the error.
    pub open spec fn text(self) -> Seq<char> {
        match self {
            ConfigError::EmptySshTarget => "config ssh_target must not be empty"@,
            ConfigError::RelativeLocalRoot => "config local_root must be an absolute path"@,
            ConfigError::RelativeRemoteRoot => "config remote_root must be an absolute path"@,
            ConfigError::EmptyRemoteBinPath => "config remote_bin_path must not be empty"@,
            ConfigError::EmptyTaskName => "config task names must not be empty"@,
            ConfigError::ReservedTaskName => "config task name `tasks-help` is reserved"@,
            ConfigError::EmptyCommandString { task } => {
                "config task `"@ + task + "` must define a non-empty command string"@
            },
            ConfigError::InvalidRunString { task, cause: _ } => {
                "config task `"@ + task + "` has invalid run string"@
            },
            ConfigError::NoCommand { task } => {
                "config task `"@ + task + "` must define at least one command"@
            },
            ConfigError::EmptyCommandArray { task } => {
                "config task `"@ + task + "` must define non-empty command arrays"@
            },
            ConfigError::InvalidArgv { task, cause: _ } => {
                "config task `"@ + task + "` has invalid argv template"@
            },
            ConfigError::EmptyVarName { task } => {
                "config task `"@ + task + "` has an empty documented var name"@
            },
            ConfigError::InvalidVarName { task, name } => {
                "config task `"@ + task + "` documents invalid var `"@ + name
                    + "`; names must match [A-Za-z_][A-Za-z0-9_]*"@
            },
            ConfigError::EmptyVarDescription { task, name } => {
                "config task `"@ + task + "` var `"@ + name + "` description must not be empty"@
            },
            ConfigError::UnusedVar { task, name } => {
                "config task `"@ + task + "` documents var `"@ + name
                    + "` but never references it in run"@
            },
            ConfigError::NotFound { start } => {
                "no "@ + CONFIG_FILE_NAME@ + " found from "@ + start
            },
        }
    }

    /// The sentence that reports the error, followed by its cause where it has one.
    pub open spec fn full_text(self) -> Seq<char> {
        match self {
            ConfigError::InvalidRunString { task: _, cause } => {
                self.text() + ": "@ + cause.text()
            },
            ConfigError::InvalidArgv { task: _, cause } => self.text() + ": "@ + cause.text(),
            _ => self.text(),
        }
    }
}

/// A sentence about the task `task`.
fn about_task(task: &str, rest: &str) -> (message: String)
    ensures
        message@ == "config task `"@ + task@ + rest@,
{
    "config task `".to_owned().concat(task).concat(rest)
}

impl ConfigError<String> {
    /// The sentence that reports the error.
    pub fn message(&self) -> (message: String)
        ensures
            message@ == self@.text(),
    {
        match self {
            ConfigError::EmptySshTarget => "config ssh_target must not be empty".to_owned(),
            ConfigError::RelativeLocalRoot => {
                "config local_root must be an absolute path".to_owned()
            },
            ConfigError::RelativeRemoteRoot => {
                "config remote_root must be an absolute path".to_owned()
            },
            ConfigError::EmptyRemoteBinPath => {
                "config remote_bin_path must not be empty".to_owned()
            },
            ConfigError::EmptyTaskName => "config task names must not be empty".to_owned(),
            ConfigError::ReservedTaskName => "config task name `tasks-help` is reserved".to_owned(),
            ConfigError::EmptyCommandString { task } => {
                about_task(task.as_str(), "` must define a non-empty command string")
            },
            ConfigError::InvalidRunString { task, cause: _ } => {
                about_task(task.as_str(), "` has invalid run string")
            },
            ConfigError::NoCommand { task } => {
                about_task(task.as_str(), "` must define at least one command")
            },
            ConfigError::EmptyCommandArray { task } => {
                about_task(task.as_str(), "` must define non-empty command arrays")
            },
            ConfigError::InvalidArgv { task, cause: _ } => {
                about_task(task.as_str(), "` has invalid argv template")
            },
            ConfigError::EmptyVarName { task } => {
                about_task(task.as_str(), "` has an empty documented var name")
            },
            ConfigError::InvalidVarName { task, name } => {
                about_task(task.as_str(), "` documents invalid var `").concat(name.as_str()).concat(
                    "`; names must match [A-Za-z_][A-Za-z0-9_]*",
                )
            },
            ConfigError::EmptyVarDescription { task, name } => {
                about_task(task.as_str(), "` var `").concat(name.as_str()).concat(
                    "` description must not be empty",
                )
            },
            ConfigError::UnusedVar { task, name } => {
                about_task(task.as_str(), "` documents var `").concat(name.as_str()).concat(
                    "` but never references it in run",
                )
            },
            ConfigError::NotFound { start } => {
                "no ".to_owned().concat(CONFIG_FILE_NAME).concat(" found from ").concat(
                    start.as_str(),
                )
            },
        }
    }

    /// The sentence that reports the error, followed by its cause where it has one.
    pub fn full_message(&self) -> (message: String)
        ensures
            message@ == self@.full_text(),
    {
        match self {
            ConfigError::InvalidRunString { task: _, cause } => {
                self.message().concat(": ").concat(cause.message().as_str())
            },
            ConfigError::InvalidArgv { task: _, cause } => {
                self.message().concat(": ").concat(cause.message().as_str())
            },
            _ => self.message(),
        }
    }
}

// ---- the templates of a task ----

/// The words of all steps, one step after another.
pub open spec fn flat(steps: Seq<Seq<Seq<char>>>) -> Seq<Seq<char>>
    decreases steps.len(),
{
    if steps.len() == 0 {
        Seq::empty()
    } else {
        flat(steps.drop_last()) + steps.last()
    }
}

/// The steps of a task, before their placeholders are filled. A command line is a step of
/// one word.
pub open spec fn run_steps(run: TaskRun) -> Seq<Seq<Seq<char>>> {
    match run {
        TaskRun::String(command) => seq![seq![command@]],
        TaskRun::Command(argv) => seq![text::texts(argv@)],
        TaskRun::Sequence(steps) => text::rows(steps@),
    }
}

/// The templates of a task, in the order in which they are written.
pub open spec fn run_templates(run: TaskRun) -> Seq<Seq<char>> {
    flat(run_steps(run))
}

/// The first thing wrong with a list of templates.
pub open spec fn first_fault(templates: Seq<Seq<char>>) -> Option<TemplateError<Seq<char>>>
    decreases templates.len(),
{
    if templates.len() == 0 {
        None
    } else {
        match first_fault(templates.drop_last()) {
            Some(error) => Some(error),
            None => match template::template_parts(templates.last()) {
                Ok(_) => None,
                Err(error) => Some(error),
            },
        }
    }
}

/// The names in a template's placeholders of one kind, in order.
pub open spec fn part_names(parts: Seq<TemplatePart<Seq<char>>>, client: bool) -> Seq<Seq<char>>
    decreases parts.len(),
{
    if parts.len() == 0 {
        Seq::empty()
    } else {
        let before = part_names(parts.drop_last(), client);
        match parts.last() {
            TemplatePart::Placeholder(Placeholder::Client(name)) => if client {
                before.push(name)
            } else {
                before
            },
            TemplatePart::Placeholder(Placeholder::Env(name)) => if client {
                before
            } else {
                before.push(name)
            },
            TemplatePart::Literal(_) => before,
        }
    }
}

/// The names in the placeholders of one kind, over all templates.
pub open spec fn template_names(templates: Seq<Seq<char>>, client: bool) -> Seq<Seq<char>>
    decreases templates.len(),
{
    if templates.len() == 0 {
        Seq::empty()
    } else {
        template_names(templates.drop_last(), client) + part_names(
            template::template_parts(templates.last())->Ok_0,
            client,
        )
    }
}

/// A list without its repetitions: each text stays where it stands first.
pub open spec fn distinct(names: Seq<Seq<char>>) -> Seq<Seq<char>>
    decreases names.len(),
{
    if names.len() == 0 {
        Seq::empty()
    } else {
        let before = distinct(names.drop_last());
        if before.contains(names.last()) {
            before
        } else {
            before.push(names.last())
        }
    }
}

/// The variables of one kind that a task refers to, in the order of their first mention,
/// or the first thing wrong with its templates.
pub open spec fn referenced(run: TaskRun, client: bool) -> Result<
    Seq<Seq<char>>,
    TemplateError<Seq<char>>,
> {
    match first_fault(run_templates(run)) {
        Some(error) => Err(error),
        None => Ok(distinct(template_names(run_templates(run), client))),
    }
}

proof fn lemma_first_fault_stays(templates: Seq<Seq<char>>, at: int)
    requires
        0 <= at <= templates.len(),
        first_fault(templates.take(at)) is Some,
    ensures
        first_fault(templates) == first_fault(templates.take(at)),
    decreases templates.len() - at,
{
    if at == templates.len() {
        assert(templates.take(at) == templates);
    } else {
        assert(templates.take(at + 1).drop_last() == templates.take(at));
        lemma_first_fault_stays(templates, at + 1);
    }
}

/// A list of templates has no fault just if each of them is well formed.
pub proof fn lemma_no_fault(templates: Seq<Seq<char>>)
    ensures
        first_fault(templates) is None <==> forall|i: int|
            0 <= i < templates.len() ==> template::template_parts(#[trigger] templates[i]) is Ok,
    decreases templates.len(),
{
    if templates.len() > 0 {
        let short = templates.drop_last();
        lemma_no_fault(short);
        if first_fault(templates) is None {
            assert forall|i: int| 0 <= i < templates.len() implies template::template_parts(
                #[trigger] templates[i],
            ) is Ok by {
                if i < short.len() {
                    assert(short[i] == templates[i]);
                }
            }
        }
        if forall|i: int|
            0 <= i < templates.len() ==> template::template_parts(#[trigger] templates[i]) is Ok {
            assert forall|i: int| 0 <= i < short.len() implies template::template_parts(
                #[trigger] short[i],
            ) is Ok by {
                assert(short[i] == templates[i]);
            }
            assert(template::template_parts(templates[templates.len() - 1]) is Ok);
        }
    }
}

proof fn lemma_distinct_contains(names: Seq<Seq<char>>, name: Seq<char>)
    requires
        names.contains(name),
    ensures
        distinct(names).contains(name),
    decreases names.len(),
{
    let short = names.drop_last();
    let before = distinct(short);
    if name == names.last() {
        if !before.contains(name) {
            assert(before.push(name)[before.len() as int] == name);
        }
    } else {
        assert(short[names.index_of(name)] == name);
        lemma_distinct_contains(short, name);
        if !before.contains(names.last()) {
            assert(before.push(names.last())[before.index_of(name)] == name);
        }
    }
}

proof fn lemma_template_names_contain(
    sources: Seq<Seq<char>>,
    client: bool,
    at: int,
    name: Seq<char>,
)
    requires
        0 <= at < sources.len(),
        part_names(template::template_parts(sources[at])->Ok_0, client).contains(name),
    ensures
        template_names(sources, client).contains(name),
    decreases sources.len(),
{
    let short = sources.drop_last();
    let before = template_names(short, client);
    let last = part_names(template::template_parts(sources.last())->Ok_0, client);
    if at == sources.len() - 1 {
        let i = last.index_of(name);
        assert((before + last)[before.len() + i] == name);
    } else {
        assert(short[at] == sources[at]);
        lemma_template_names_contain(short, client, at, name);
        assert((before + last)[before.index_of(name)] == name);
    }
}

proof fn lemma_distinct(names: Seq<Seq<char>>)
    ensures
        distinct(names).no_duplicates(),
        forall|name: Seq<char>| #[trigger] distinct(names).contains(name) ==> names.contains(name),
    decreases names.len(),
{
    if names.len() > 0 {
        let short = names.drop_last();
        let before = distinct(short);
        lemma_distinct(short);
        assert forall|name: Seq<char>| #[trigger] distinct(names).contains(
            name,
        ) implies names.contains(name) by {
            if before.contains(name) {
                assert(short.contains(name));
                assert(names[short.index_of(name)] == name);
            } else {
                let at = distinct(names).index_of(name);
                assert(at == before.len()) by {
                    if at < before.len() {
                        assert(before[at] == name);
                    }
                }
                assert(names[names.len() - 1] == name);
            }
        }
    }
}

proof fn lemma_template_names_only(sources: Seq<Seq<char>>, client: bool, name: Seq<char>) -> (at:
    int)
    requires
        template_names(sources, client).contains(name),
    ensures
        0 <= at < sources.len(),
        part_names(template::template_parts(sources[at])->Ok_0, client).contains(name),
    decreases sources.len(),
{
    let short = sources.drop_last();
    let before = template_names(short, client);
    let last = part_names(template::template_parts(sources.last())->Ok_0, client);
    let place = (before + last).index_of(name);
    if place < before.len() {
        assert(before[place] == name);
        let at = lemma_template_names_only(short, client, name);
        assert(short[at] == sources[at]);
        at
    } else {
        assert(last[place - before.len()] == name);
        sources.len() - 1
    }
}

/// The variables that a task refers to are those in its placeholders, each of them once.
pub proof fn lemma_referenced(run: TaskRun, client: bool)
    requires
        first_fault(run_templates(run)) is None,
    ensures
        ({
            let names = referenced(run, client)->Ok_0;
            let sources = run_templates(run);
            &&& referenced(run, client) is Ok
            &&& names.no_duplicates()
            &&& forall|name: Seq<char>| #[trigger]
                names.contains(name) <==> exists|at: int|
                    0 <= at < sources.len() && part_names(
                        template::template_parts(#[trigger] sources[at])->Ok_0,
                        client,
                    ).contains(name)
        }),
{
    let sources = run_templates(run);
    let all = template_names(sources, client);
    let names = referenced(run, client)->Ok_0;
    lemma_distinct(all);
    assert forall|name: Seq<char>| #[trigger] names.contains(name) <==> exists|at: int|
        0 <= at < sources.len() && part_names(
            template::template_parts(#[trigger] sources[at])->Ok_0,
            client,
        ).contains(name) by {
        if names.contains(name) {
            let at = lemma_template_names_only(sources, client, name);
            assert(part_names(template::template_parts(sources[at])->Ok_0, client).contains(name));
        }
        if exists|at: int|
            0 <= at < sources.len() && part_names(
                template::template_parts(#[trigger] sources[at])->Ok_0,
                client,
            ).contains(name) {
            let at = choose|at: int|
                0 <= at < sources.len() && part_names(
                    template::template_parts(#[trigger] sources[at])->Ok_0,
                    client,
                ).contains(name);
            lemma_template_names_contain(sources, client, at, name);
            lemma_distinct_contains(all, name);
        }
    }
}

proof fn lemma_distinct_next(done: Seq<Seq<char>>, name: Seq<char>)
    ensures
        distinct(done.push(name)) == (if distinct(done).contains(name) {
            distinct(done)
        } else {
            distinct(done).push(name)
        }),
{
    assert(done.push(name).drop_last() == done);
}

/// Adds `name` to `names` unless it is there already.
fn add_name(names: &mut Vec<String>, name: String)
    ensures
        text::texts(final(names)@) == (if text::texts(old(names)@).contains(name@) {
            text::texts(old(names)@)
        } else {
            text::texts(old(names)@).push(name@)
        }),
{
    if !contains_text(names.as_slice(), name.as_str()) {
        names.push(name);
        assert(text::texts(names@) == text::texts(old(names)@).push(name@));
    }
}

/// Adds to `names` the names in a template's placeholders of one kind.
fn add_part_names(
    names: &mut Vec<String>,
    parts: Vec<TemplatePart>,
    client: bool,
    done: Ghost<Seq<Seq<char>>>,
)
    requires
        text::texts(old(names)@) == distinct(done@),
    ensures
        text::texts(final(names)@) == distinct(
            done@ + part_names(template::part_views(parts@), client),
        ),
{
    let ghost all = template::part_views(parts@);
    let mut index: usize = 0;
    assert(all.take(0) == Seq::<TemplatePart<Seq<char>>>::empty());
    assert(done@ + Seq::<Seq<char>>::empty() == done@);
    while index < parts.len()
        invariant
            all == template::part_views(parts@),
            index <= parts.len(),
            text::texts(names@) == distinct(done@ + part_names(all.take(index as int), client)),
        decreases parts.len() - index,
    {
        let ghost before = part_names(all.take(index as int), client);
        proof {
            assert(all.take(index + 1).drop_last() == all.take(index as int));
            assert(all.take(index + 1).last() == parts@[index as int]@);
        }
        if let TemplatePart::Placeholder(placeholder) = &parts[index] {
            let picked = match placeholder {
                Placeholder::Client(name) => if client {
                    Some(name)
                } else {
                    None
                },
                Placeholder::Env(name) => if client {
                    None
                } else {
                    Some(name)
                },
            };
            if let Some(name) = picked {
                proof {
                    assert(done@ + before.push(name@) == (done@ + before).push(name@));
                    lemma_distinct_next(done@ + before, name@);
                }
                add_name(names, name.clone());
            }
        }
        index = index + 1;
    }
    assert(all.take(index as int) == all);
}

impl Task {
    /// The templates of the task, in the order in which they are written.
    pub fn templates(&self) -> (templates: Vec<String>)
        ensures
            text::texts(templates@) == run_templates(self.run),
    {
        let steps = self.steps();
        let ghost all = text::rows(steps@);
        let mut templates: Vec<String> = Vec::new();
        assert(all.take(0) == Seq::<Seq<Seq<char>>>::empty());
        assert(text::texts(templates@) == Seq::<Seq<char>>::empty());
        for index in 0..steps.len()
            invariant
                all == text::rows(steps@),
                text::texts(templates@) == flat(all.take(index as int)),
        {
            let ghost before = flat(all.take(index as int));
            let step = &steps[index];
            assert(all.take(index + 1).drop_last() == all.take(index as int));
            assert(all.take(index + 1).last() == text::texts(step@));
            assert(text::texts(step@).take(0) == Seq::<Seq<char>>::empty());
            assert(before + Seq::<Seq<char>>::empty() == before);
            for at in 0..step.len()
                invariant
                    text::texts(templates@) == before + text::texts(step@).take(at as int),
            {
                let ghost held = templates@;
                templates.push(step[at].clone());
                assert(text::texts(templates@) == text::texts(held).push(step@[at as int]@));
                assert(text::texts(step@).take(at + 1) == text::texts(step@).take(at as int).push(
                    step@[at as int]@,
                ));
            }
            assert(text::texts(step@).take(step@.len() as int) == text::texts(step@));
        }
        assert(all.take(steps@.len() as int) == all);
        templates
    }

    /// The steps of the task, before their placeholders are filled. A command line is a
    /// step of one word.
    pub fn steps(&self) -> (steps: Vec<Vec<String>>)
        ensures
            text::rows(steps@) == run_steps(self.run),
    {
        match &self.run {
            TaskRun::String(command) => {
                let mut argv: Vec<String> = Vec::new();
                argv.push(command.clone());
                assert(text::texts(argv@) == seq![command@]);
                let mut steps: Vec<Vec<String>> = Vec::new();
                steps.push(argv);
                assert(text::rows(steps@) == seq![seq![command@]]);
                steps
            },
            TaskRun::Command(argv) => {
                let mut steps: Vec<Vec<String>> = Vec::new();
                steps.push(argv.clone());
                assert(text::rows(steps@) == seq![text::texts(argv@)]);
                steps
            },
            TaskRun::Sequence(list) => {
                let steps = list.clone();
                assert(text::rows(steps@) == text::rows(list@));
                steps
            },
        }
    }

    /// The variables of one kind that the task refers to.
    fn referenced_placeholders(&self, client: bool) -> (names: Result<Vec<String>, TemplateError>)
        ensures
            match names {
                Ok(names) => referenced(self.run, client) == Ok::<_, TemplateError<Seq<char>>>(
                    text::texts(names@),
                ),
                Err(error) => referenced(self.run, client) == Err::<Seq<Seq<char>>, _>(error@),
            },
    {
        let templates = self.templates();
        let ghost all = run_templates(self.run);
        let mut names: Vec<String> = Vec::new();
        assert(all.take(0) == Seq::<Seq<char>>::empty());
        assert(text::texts(names@) == Seq::<Seq<char>>::empty());
        for index in 0..templates.len()
            invariant
                all == text::texts(templates@),
                all == run_templates(self.run),
                first_fault(all.take(index as int)) is None,
                text::texts(names@) == distinct(template_names(all.take(index as int), client)),
        {
            let ghost done = template_names(all.take(index as int), client);
            proof {
                assert(all.take(index + 1).drop_last() == all.take(index as int));
                assert(all.take(index + 1).last() == templates@[index as int]@);
            }
            match parse_template(templates[index].as_str()) {
                Ok(parts) => {
                    add_part_names(&mut names, parts, client, Ghost(done));
                },
                Err(error) => {
                    proof {
                        lemma_first_fault_stays(all, index + 1);
                    }
                    return Err(error);
                },
            }
        }
        assert(all.take(templates@.len() as int) == all);
        Ok(names)
    }

    /// The task variables that the commands refer to, in the order of their first mention.
    pub fn referenced_client_vars(&self) -> (names: Result<Vec<String>, TemplateError>)
        ensures
            match names {
                Ok(names) => referenced(self.run, true) == Ok::<_, TemplateError<Seq<char>>>(
                    text::texts(names@),
                ),
                Err(error) => referenced(self.run, true) == Err::<Seq<Seq<char>>, _>(error@),
            },
    {
        self.referenced_placeholders(true)
    }

    /// The environment variables that the commands refer to, in the order of their first
    /// mention.
    pub fn referenced_env_vars(&self) -> (names: Result<Vec<String>, TemplateError>)
        ensures
            match names {
                Ok(names) => referenced(self.run, false) == Ok::<_, TemplateError<Seq<char>>>(
                    text::texts(names@),
                ),
                Err(error) => referenced(self.run, false) == Err::<Seq<Seq<char>>, _>(error@),
            },
    {
        self.referenced_placeholders(false)
    }
}

// ---- validity ----

/// The first of two faults.
pub open spec fn either(
    first: Option<ConfigError<Seq<char>>>,
    second: Option<ConfigError<Seq<char>>>,
) -> Option<ConfigError<Seq<char>>> {
    match first {
        Some(error) => Some(error),
        None => second,
    }
}

/// What is wrong with the words of one command.
pub open spec fn argv_fault(task: Seq<char>, argv: Seq<Seq<char>>) -> Option<
    ConfigError<Seq<char>>,
> {
    if argv.len() == 0 {
        Some(ConfigError::NoCommand { task })
    } else if text::blank(argv[0]) {
        Some(ConfigError::EmptyCommandArray { task })
    } else {
        match first_fault(argv) {
            Some(cause) => Some(ConfigError::InvalidArgv { task, cause }),
            None => None,
        }
    }
}

/// What is wrong with the first faulty one of several commands.
pub open spec fn steps_fault(task: Seq<char>, steps: Seq<Seq<Seq<char>>>) -> Option<
    ConfigError<Seq<char>>,
>
    decreases steps.len(),
{
    if steps.len() == 0 {
        None
    } else {
        either(steps_fault(task, steps.drop_last()), argv_fault(task, steps.last()))
    }
}

/// What is wrong with the commands of a task.
pub open spec fn run_fault(task: Seq<char>, run: TaskRun) -> Option<ConfigError<Seq<char>>> {
    match run {
        TaskRun::String(command) => {
            if text::blank(command@) {
                Some(ConfigError::EmptyCommandString { task })
            } else {
                match template::template_parts(command@) {
                    Ok(_) => None,
                    Err(cause) => Some(ConfigError::InvalidRunString { task, cause }),
                }
            }
        },
        TaskRun::Command(argv) => argv_fault(task, text::texts(argv@)),
        TaskRun::Sequence(steps) => {
            if steps@.len() == 0 {
                Some(ConfigError::NoCommand { task })
            } else {
                steps_fault(task, text::rows(steps@))
            }
        },
    }
}

/// What is wrong with one documented variable.
pub open spec fn var_fault(task: Seq<char>, name: Seq<char>, var: TaskVar) -> Option<
    ConfigError<Seq<char>>,
> {
    if text::blank(name) {
        Some(ConfigError::EmptyVarName { task })
    } else if !text::is_name(name) {
        Some(ConfigError::InvalidVarName { task, name })
    } else if var.description is Some && text::blank(var.description->0@) {
        Some(ConfigError::EmptyVarDescription { task, name })
    } else {
        None
    }
}

/// What is wrong with the first faulty one of the documented variables `names`.
pub open spec fn vars_fault(
    task: Seq<char>,
    names: Seq<Seq<char>>,
    vars: Map<Seq<char>, TaskVar>,
) -> Option<ConfigError<Seq<char>>>
    decreases names.len(),
{
    if names.len() == 0 {
        None
    } else {
        either(
            vars_fault(task, names.drop_last(), vars),
            var_fault(task, names.last(), vars[names.last()]),
        )
    }
}

/// The first documented variable that the commands do not mention.
pub open spec fn unused_fault(
    task: Seq<char>,
    names: Seq<Seq<char>>,
    mentioned: Seq<Seq<char>>,
) -> Option<ConfigError<Seq<char>>>
    decreases names.len(),
{
    if names.len() == 0 {
        None
    } else {
        either(
            unused_fault(task, names.drop_last(), mentioned),
            if mentioned.contains(names.last()) {
                None
            } else {
                Some(ConfigError::UnusedVar { task, name: names.last() })
            },
        )
    }
}

/// What is wrong with a task.
pub open spec fn task_fault(name: Seq<char>, task: Task) -> Option<ConfigError<Seq<char>>> {
    either(
        run_fault(name, task.run),
        either(
            vars_fault(name, task.vars.keys(), task.vars@),
            unused_fault(name, task.vars.keys(), referenced(task.run, true)->Ok_0),
        ),
    )
}

/// What is wrong with the name of a task, or with the task.
pub open spec fn named_task_fault(name: Seq<char>, task: Task) -> Option<ConfigError<Seq<char>>> {
    if text::blank(name) {
        Some(ConfigError::EmptyTaskName)
    } else if name == TASKS_HELP_NAME@ {
        Some(ConfigError::ReservedTaskName)
    } else {
        task_fault(name, task)
    }
}

/// What is wrong with the first faulty one of the tasks `names`.
pub open spec fn tasks_fault(names: Seq<Seq<char>>, tasks: Map<Seq<char>, Task>) -> Option<
    ConfigError<Seq<char>>,
>
    decreases names.len(),
{
    if names.len() == 0 {
        None
    } else {
        either(
            tasks_fault(names.drop_last(), tasks),
            named_task_fault(names.last(), tasks[names.last()]),
        )
    }
}

/// The first thing wrong with a configuration.
pub open spec fn config_fault(config: Config) -> Option<ConfigError<Seq<char>>> {
    if text::blank(config.ssh_target@) {
        Some(ConfigError::EmptySshTarget)
    } else if !paths::is_absolute(config.local_root@) {
        Some(ConfigError::RelativeLocalRoot)
    } else if !paths::is_absolute(config.remote_root@) {
        Some(ConfigError::RelativeRemoteRoot)
    } else if text::blank(config.remote_bin_path@) {
        Some(ConfigError::EmptyRemoteBinPath)
    } else {
        tasks_fault(config.tasks.keys(), config.tasks@)
    }
}

/// The result that reports `fault`.
pub open spec fn reports(
    result: Result<(), ConfigError>,
    fault: Option<ConfigError<Seq<char>>>,
) -> bool {
    match result {
        Ok(()) => fault is None,
        Err(error) => fault == Some(error@),
    }
}

proof fn lemma_steps_fault_stays(task: Seq<char>, steps: Seq<Seq<Seq<char>>>, at: int)
    requires
        0 <= at <= steps.len(),
        steps_fault(task, steps.take(at)) is Some,
    ensures
        steps_fault(task, steps) == steps_fault(task, steps.take(at)),
    decreases steps.len() - at,
{
    if at == steps.len() {
        assert(steps.take(at) == steps);
    } else {
        assert(steps.take(at + 1).drop_last() == steps.take(at));
        lemma_steps_fault_stays(task, steps, at + 1);
    }
}

proof fn lemma_vars_fault_stays(
    task: Seq<char>,
    names: Seq<Seq<char>>,
    vars: Map<Seq<char>, TaskVar>,
    at: int,
)
    requires
        0 <= at <= names.len(),
        vars_fault(task, names.take(at), vars) is Some,
    ensures
        vars_fault(task, names, vars) == vars_fault(task, names.take(at), vars),
    decreases names.len() - at,
{
    if at == names.len() {
        assert(names.take(at) == names);
    } else {
        assert(names.take(at + 1).drop_last() == names.take(at));
        lemma_vars_fault_stays(task, names, vars, at + 1);
    }
}

proof fn lemma_unused_fault_stays(
    task: Seq<char>,
    names: Seq<Seq<char>>,
    mentioned: Seq<Seq<char>>,
    at: int,
)
    requires
        0 <= at <= names.len(),
        unused_fault(task, names.take(at), mentioned) is Some,
    ensures
        unused_fault(task, names, mentioned) == unused_fault(task, names.take(at), mentioned),
    decreases names.len() - at,
{
    if at == names.len() {
        assert(names.take(at) == names);
    } else {
        assert(names.take(at + 1).drop_last() == names.take(at));
        lemma_unused_fault_stays(task, names, mentioned, at + 1);
    }
}

proof fn lemma_tasks_fault_stays(
    names: Seq<Seq<char>>,
    tasks: Map<Seq<char>, Task>,
    at: int,
)
    requires
        0 <= at <= names.len(),
        tasks_fault(names.take(at), tasks) is Some,
    ensures
        tasks_fault(names, tasks) == tasks_fault(names.take(at), tasks),
    decreases names.len() - at,
{
    if at == names.len() {
        assert(names.take(at) == names);
    } else {
        assert(names.take(at + 1).drop_last() == names.take(at));
        lemma_tasks_fault_stays(names, tasks, at + 1);
    }
}

proof fn lemma_flat_faultless(task: Seq<char>, steps: Seq<Seq<Seq<char>>>)
    requires
        steps_fault(task, steps) is None,
    ensures
        first_fault(flat(steps)) is None,
    decreases steps.len(),
{
    if steps.len() > 0 {
        let short = steps.drop_last();
        lemma_flat_faultless(task, short);
        lemma_no_fault(flat(short));
        lemma_no_fault(steps.last());
        lemma_no_fault(flat(steps));
        assert forall|i: int| 0 <= i < flat(steps).len() implies template::template_parts(
            #[trigger] flat(steps)[i],
        ) is Ok by {
            if i < flat(short).len() {
                assert(flat(steps)[i] == flat(short)[i]);
            } else {
                assert(flat(steps)[i] == steps.last()[i - flat(short).len()]);
            }
        }
    }
}

/// The templates of a task whose commands have no fault are well formed.
pub proof fn lemma_run_templates_faultless(task: Seq<char>, run: TaskRun)
    requires
        run_fault(task, run) is None,
    ensures
        first_fault(run_templates(run)) is None,
{
    match run {
        TaskRun::String(command) => {
            lemma_no_fault(run_templates(run));
            reveal_with_fuel(flat, 2);
            assert(run_steps(run).drop_last() == Seq::<Seq<Seq<char>>>::empty());
            assert(run_templates(run) == seq![command@]);
        },
        TaskRun::Command(argv) => {
            reveal_with_fuel(flat, 2);
            assert(run_steps(run).drop_last() == Seq::<Seq<Seq<char>>>::empty());
            assert(run_templates(run) == text::texts(argv@));
        },
        TaskRun::Sequence(steps) => {
            lemma_flat_faultless(task, text::rows(steps@));
        },
    }
}

/// Checks that `template` is well formed.
pub fn validate_template(template: &str) -> (result: Result<(), TemplateError>)
    ensures
        match result {
            Ok(()) => template::template_parts(template@) is Ok,
            Err(error) => template::template_parts(template@) == Err::<
                Seq<TemplatePart<Seq<char>>>,
                _,
            >(error@),
        },
{
    match parse_template(template) {
        Ok(_) => Ok(()),
        Err(error) => Err(error),
    }
}

/// Checks the words of one command of the task `task_name`.
pub fn validate_argv(task_name: &str, argv: &[String]) -> (result: Result<(), ConfigError>)
    ensures
        reports(result, argv_fault(task_name@, text::texts(argv@))),
{
    let ghost all = text::texts(argv@);
    if argv.len() == 0 {
        return Err(ConfigError::NoCommand { task: task_name.to_owned() });
    }
    assert(all[0] == argv@[0]@);
    if is_blank(argv[0].as_str()) {
        return Err(ConfigError::EmptyCommandArray { task: task_name.to_owned() });
    }
    assert(all.take(0) == Seq::<Seq<char>>::empty());
    for index in 0..argv.len()
        invariant
            all == text::texts(argv@),
            argv@.len() > 0,
            !text::blank(all[0]),
            first_fault(all.take(index as int)) is None,
    {
        proof {
            assert(all.take(index + 1).drop_last() == all.take(index as int));
            assert(all.take(index + 1).last() == argv@[index as int]@);
        }
        if let Err(cause) = validate_template(argv[index].as_str()) {
            proof {
                lemma_first_fault_stays(all, index + 1);
            }
            return Err(ConfigError::InvalidArgv { task: task_name.to_owned(), cause });
        }
    }
    assert(all.take(argv@.len() as int) == all);
    Ok(())
}

impl Task {
    /// Checks the commands of the task.
    fn validate_run(&self, task_name: &str) -> (result: Result<(), ConfigError>)
        ensures
            reports(result, run_fault(task_name@, self.run)),
    {
        match &self.run {
            TaskRun::String(command) => {
                if is_blank(command.as_str()) {
                    return Err(ConfigError::EmptyCommandString { task: task_name.to_owned() });
                }
                match validate_template(command.as_str()) {
                    Ok(()) => Ok(()),
                    Err(cause) => {
                        Err(ConfigError::InvalidRunString { task: task_name.to_owned(), cause })
                    },
                }
            },
            TaskRun::Command(argv) => validate_argv(task_name, argv.as_slice()),
            TaskRun::Sequence(steps) => {
                if steps.len() == 0 {
                    return Err(ConfigError::NoCommand { task: task_name.to_owned() });
                }
                let ghost all = text::rows(steps@);
                assert(all.take(0) == Seq::<Seq<Seq<char>>>::empty());
                for index in 0..steps.len()
                    invariant
                        self.run == TaskRun::Sequence(*steps),
                        steps@.len() > 0,
                        all == text::rows(steps@),
                        steps_fault(task_name@, all.take(index as int)) is None,
                {
                    proof {
                        assert(all.take(index + 1).drop_last() == all.take(index as int));
                        assert(all.take(index + 1).last() == text::texts(steps@[index as int]@));
                    }
                    if let Err(error) = validate_argv(task_name, steps[index].as_slice()) {
                        proof {
                            lemma_steps_fault_stays(task_name@, all, index + 1);
                        }
                        return Err(error);
                    }
                }
                assert(all.take(steps@.len() as int) == all);
                Ok(())
            },
        }
    }

    /// Checks the documentation of the variables.
    fn validate_vars(&self, task_name: &str) -> (result: Result<(), ConfigError>)
        ensures
            reports(result, vars_fault(task_name@, self.vars.keys(), self.vars@)),
    {
        let ghost all = self.vars.keys();
        assert(all.take(0) == Seq::<Seq<char>>::empty());
        let count = self.vars.len();
        for index in 0..count
            invariant
                all == self.vars.keys(),
                count == all.len(),
                vars_fault(task_name@, all.take(index as int), self.vars@) is None,
        {
            let name = self.vars.name_at(index);
            let var = self.vars.value_at(index);
            proof {
                assert(all.take(index + 1).drop_last() == all.take(index as int));
                assert(all.take(index + 1).last() == name@);
                if vars_fault(task_name@, all.take(index + 1), self.vars@) is Some {
                    lemma_vars_fault_stays(task_name@, all, self.vars@, index + 1);
                }
            }
            if is_blank(name.as_str()) {
                return Err(ConfigError::EmptyVarName { task: task_name.to_owned() });
            }
            if !is_valid_name(name.as_str()) {
                return Err(
                    ConfigError::InvalidVarName { task: task_name.to_owned(), name: name.clone() },
                );
            }
            if let Some(description) = &var.description {
                if is_blank(description.as_str()) {
                    return Err(
                        ConfigError::EmptyVarDescription {
                            task: task_name.to_owned(),
                            name: name.clone(),
                        },
                    );
                }
            }
        }
        assert(all.take(count as int) == all);
        Ok(())
    }

    /// Checks the task, which is named `task_name`.
    pub fn validate(&self, task_name: &str) -> (result: Result<(), ConfigError>)
        ensures
            reports(result, task_fault(task_name@, *self)),
    {
        if let Err(error) = self.validate_run(task_name) {
            return Err(error);
        }
        if let Err(error) = self.validate_vars(task_name) {
            return Err(error);
        }
        proof {
            lemma_run_templates_faultless(task_name@, self.run);
        }
        let mentioned = match self.referenced_client_vars() {
            Ok(names) => names,
            Err(_) => Vec::new(),
        };
        let ghost all = self.vars.keys();
        let ghost found = referenced(self.run, true)->Ok_0;
        assert(all.take(0) == Seq::<Seq<char>>::empty());
        let count = self.vars.len();
        for index in 0..count
            invariant
                all == self.vars.keys(),
                count == all.len(),
                found == text::texts(mentioned@),
                found == referenced(self.run, true)->Ok_0,
                run_fault(task_name@, self.run) is None,
                vars_fault(task_name@, all, self.vars@) is None,
                unused_fault(task_name@, all.take(index as int), found) is None,
        {
            let name = self.vars.name_at(index);
            proof {
                assert(all.take(index + 1).drop_last() == all.take(index as int));
                assert(all.take(index + 1).last() == name@);
            }
            if !contains_text(mentioned.as_slice(), name.as_str()) {
                proof {
                    lemma_unused_fault_stays(task_name@, all, found, index + 1);
                }
                return Err(
                    ConfigError::UnusedVar { task: task_name.to_owned(), name: name.clone() },
                );
            }
        }
        assert(all.take(count as int) == all);
        Ok(())
    }
}

impl Config {
    /// Checks the configuration.
    pub fn validate(&self) -> (result: Result<(), ConfigError>)
        ensures
            reports(result, config_fault(*self)),
    {
        if is_blank(self.ssh_target.as_str()) {
            return Err(ConfigError::EmptySshTarget);
        }
        if !is_absolute_path(self.local_root.as_str()) {
            return Err(ConfigError::RelativeLocalRoot);
        }
        if !is_absolute_path(self.remote_root.as_str()) {
            return Err(ConfigError::RelativeRemoteRoot);
        }
        if is_blank(self.remote_bin_path.as_str()) {
            return Err(ConfigError::EmptyRemoteBinPath);
        }
        let ghost all = self.tasks.keys();
        assert(all.take(0) == Seq::<Seq<char>>::empty());
        let count = self.tasks.len();
        for index in 0..count
            invariant
                all == self.tasks.keys(),
                count == all.len(),
                tasks_fault(all, self.tasks@) == config_fault(*self),
                tasks_fault(all.take(index as int), self.tasks@) is None,
        {
            let name = self.tasks.name_at(index);
            let task = self.tasks.value_at(index);
            proof {
                assert(all.take(index + 1).drop_last() == all.take(index as int));
                assert(all.take(index + 1).last() == name@);
                if tasks_fault(all.take(index + 1), self.tasks@) is Some {
                    lemma_tasks_fault_stays(all, self.tasks@, index + 1);
                }
            }
            if is_blank(name.as_str()) {
                return Err(ConfigError::EmptyTaskName);
            }
            if same_text(name.as_str(), TASKS_HELP_NAME) {
                return Err(ConfigError::ReservedTaskName);
            }
            if let Err(error) = task.validate(name.as_str()) {
                return Err(error);
            }
        }
        assert(all.take(count as int) == all);
        Ok(())
    }
}

/// The tasks of a configuration have no fault just if none of them has one.
pub proof fn lemma_tasks_faultless(names: Seq<Seq<char>>, tasks: Map<Seq<char>, Task>)
    ensures
        tasks_fault(names, tasks) is None <==> forall|i: int|
            0 <= i < names.len() ==> named_task_fault(#[trigger] names[i], tasks[names[i]]) is None,
    decreases names.len(),
{
    if names.len() > 0 {
        let short = names.drop_last();
        lemma_tasks_faultless(short, tasks);
        assert forall|i: int| 0 <= i < short.len() implies short[i] == names[i] by {}
        let all = forall|i: int|
            0 <= i < names.len() ==> named_task_fault(#[trigger] names[i], tasks[names[i]]) is None;
        let front = forall|i: int|
            0 <= i < short.len() ==> named_task_fault(#[trigger] short[i], tasks[short[i]]) is None;
        if all {
            assert(named_task_fault(names[names.len() - 1], tasks[names.last()]) is None);
            assert forall|i: int| 0 <= i < short.len() implies named_task_fault(
                #[trigger] short[i],
                tasks[short[i]],
            ) is None by {
                assert(named_task_fault(names[i], tasks[names[i]]) is None);
            }
        }
        if front && named_task_fault(names.last(), tasks[names.last()]) is None {
            assert forall|i: int| 0 <= i < names.len() implies named_task_fault(
                #[trigger] names[i],
                tasks[names[i]],
            ) is None by {
                if i < short.len() {
                    assert(named_task_fault(short[i], tasks[short[i]]) is None);
                }
            }
        }
    }
}

proof fn lemma_vars_sound(task: Seq<char>, names: Seq<Seq<char>>, vars: Map<Seq<char>, TaskVar>)
    requires
        vars_fault(task, names, vars) is None,
    ensures
        forall|i: int| 0 <= i < names.len() ==> text::is_name(#[trigger] names[i]),
    decreases names.len(),
{
    if names.len() > 0 {
        let short = names.drop_last();
        lemma_vars_sound(task, short, vars);
        assert forall|i: int| 0 <= i < names.len() implies text::is_name(#[trigger] names[i]) by {
            if i < short.len() {
                assert(text::is_name(short[i]));
            }
        }
    }
}

proof fn lemma_vars_used(task: Seq<char>, names: Seq<Seq<char>>, mentioned: Seq<Seq<char>>)
    requires
        unused_fault(task, names, mentioned) is None,
    ensures
        forall|i: int| 0 <= i < names.len() ==> mentioned.contains(#[trigger] names[i]),
    decreases names.len(),
{
    if names.len() > 0 {
        let short = names.drop_last();
        lemma_vars_used(task, short, mentioned);
        assert forall|i: int| 0 <= i < names.len() implies mentioned.contains(
            #[trigger] names[i],
        ) by {
            if i < short.len() {
                assert(mentioned.contains(short[i]));
            }
        }
    }
}

/// In a valid task every documented variable has a valid name and occurs in the commands,
/// so that its documentation is never about nothing.
pub proof fn lemma_valid_task_vars(task_name: Seq<char>, task: Task)
    requires
        task_fault(task_name, task) is None,
    ensures
        forall|name: Seq<char>| #[trigger]
            task.vars@.contains_key(name) ==> text::is_name(name) && referenced(
                task.run,
                true,
            )->Ok_0.contains(name),
{
    let keys = task.vars.keys();
    lemma_vars_sound(task_name, keys, task.vars@);
    lemma_vars_used(task_name, keys, referenced(task.run, true)->Ok_0);
    name_map::lemma_keys(task.vars);
    assert forall|name: Seq<char>| #[trigger] task.vars@.contains_key(name) implies text::is_name(
        name,
    ) && referenced(task.run, true)->Ok_0.contains(name) by {
        assert(keys.contains(name));
        assert(keys[keys.index_of(name)] == name);
    }
}

// ---- from the file to the configuration ----

/// A configuration as the file writes it.
#[derive(Debug, Clone, PartialEq, Eq)]
pub struct RawConfig {
    pub ssh_target: String,
    pub local_root: Option<String>,
    pub remote_root: String,
    pub rpc_port: u16,
    pub remote_bin_path: String,
    pub sync_detection_timeout: TimeSpan,
    pub tasks: NameMap<RawTask>,
}

/// A task as the file writes it: the commands alone, or with all that can be said of it.
#[derive(Debug, Clone, PartialEq, Eq)]
pub enum RawTask {
    String(String),
    Command(Vec<String>),
    Sequence(Vec<Vec<String>>),
    Detailed(RawDetailedTask),
}

/// A task with all that can be said of it.
#[derive(Debug, Clone, PartialEq, Eq)]
pub struct RawDetailedTask {
    pub run: RawTaskRun,
    pub description: Option<String>,
    pub cwd: Option<String>,
    pub env: NameMap<String>,
    pub timeout: Option<TimeSpan>,
    pub vars: NameMap<RawTaskVar>,
}

/// The commands of a task as the file writes them.
#[derive(Debug, Clone, PartialEq, Eq)]
pub enum RawTaskRun {
    String(String),
    Command(Vec<String>),
    Sequence(Vec<Vec<String>>),
}

/// What the file says of a variable.
#[derive(Debug, Clone, PartialEq, Eq)]
pub struct RawTaskVar {
    pub description: Option<String>,
    pub optional: bool,
}

/// The port where the file names none.
pub fn default_rpc_port() -> (port: u16)
    ensures
        port == DEFAULT_RPC_PORT,
{
    DEFAULT_RPC_PORT
}

/// The path of the helper where the file names none.
pub fn default_remote_bin_path() -> (path: String)
    ensures
        path@ == DEFAULT_REMOTE_BIN_PATH@,
{
    DEFAULT_REMOTE_BIN_PATH.to_owned()
}

/// The time to wait for synced files where the file does not say.
pub fn default_sync_detection_timeout() -> (span: TimeSpan)
    ensures
        span.whole_secs() == DEFAULT_SYNC_DETECTION_SECS,
        span.extra_nanos() == 0,
{
    TimeSpan::from_secs(DEFAULT_SYNC_DETECTION_SECS)
}

impl RawTaskVar {
    /// The same variable in a configuration.
    pub open spec fn resolved(self) -> TaskVar {
        TaskVar { description: self.description, optional: self.optional }
    }

    /// The same variable in a configuration.
    pub fn resolve(self) -> (var: TaskVar)
        ensures
            var == self.resolved(),
    {
        TaskVar { description: self.description, optional: self.optional }
    }
}

impl RawTaskRun {
    /// The same commands in a configuration.
    pub open spec fn resolved(self) -> TaskRun {
        match self {
            RawTaskRun::String(command) => TaskRun::String(command),
            RawTaskRun::Command(argv) => TaskRun::Command(argv),
            RawTaskRun::Sequence(steps) => TaskRun::Sequence(steps),
        }
    }

    /// The same commands in a configuration.
    pub fn resolve(self) -> (run: TaskRun)
        ensures
            run == self.resolved(),
    {
        match self {
            RawTaskRun::String(command) => TaskRun::String(command),
            RawTaskRun::Command(argv) => TaskRun::Command(argv),
            RawTaskRun::Sequence(steps) => TaskRun::Sequence(steps),
        }
    }
}

/// What is left of a list from a place on is the item there and what is left after it.
proof fn lemma_skip_contains(keys: Seq<Seq<char>>, at: int)
    requires
        0 <= at < keys.len(),
    ensures
        forall|key: Seq<char>| #[trigger]
            keys.skip(at).contains(key) <==> keys.skip(at + 1).contains(key) || key == keys[at],
{
    let tail = keys.skip(at + 1);
    assert forall|key: Seq<char>| #[trigger] keys.skip(at).contains(key) <==> tail.contains(key)
        || key == keys[at] by {
        if tail.contains(key) {
            assert(keys.skip(at)[tail.index_of(key) + 1] == key);
        }
        if key == keys[at] {
            assert(keys.skip(at)[0] == key);
        }
        if keys.skip(at).contains(key) && key != keys[at] {
            let i = keys.skip(at).index_of(key);
            assert(tail[i - 1] == key);
        }
    }
}

/// A task that has commands and nothing else.
pub open spec fn is_bare_task(task: Task, run: TaskRun) -> bool {
    &&& task.run == run
    &&& task.description is None
    &&& task.cwd is None
    &&& task.env@ == Map::<Seq<char>, String>::empty()
    &&& task.timeout is None
    &&& task.vars@ == Map::<Seq<char>, TaskVar>::empty()
    &&& task.vars.keys() == Seq::<Seq<char>>::empty()
}

/// The task that has the commands `run` and nothing else.
fn bare_task(run: TaskRun) -> (task: Task)
    ensures
        is_bare_task(task, run),
{
    Task {
        run,
        description: None,
        cwd: None,
        env: NameMap::new(),
        timeout: None,
        vars: NameMap::new(),
    }
}

impl RawDetailedTask {
    /// Whether `task` is the same task in a configuration.
    pub open spec fn resolves_to(self, task: Task) -> bool {
        &&& task.run == self.run.resolved()
        &&& task.description == self.description
        &&& task.cwd == self.cwd
        &&& task.env == self.env
        &&& task.timeout == self.timeout
        &&& task.vars@ == self.vars@.map_values(|var: RawTaskVar| var.resolved())
        &&& name_map::ascending(task.vars.keys())
    }

    /// The same task in a configuration.
    pub fn resolve(self) -> (task: Task)
        ensures
            self.resolves_to(task),
    {
        let ghost keys = self.vars.keys();
        let ghost given = self.vars@;
        let (mut names, mut values) = self.vars.into_parts();
        let mut vars: NameMap<TaskVar> = NameMap::new();
        while names.len() > 0
            invariant
                names@.len() == values@.len(),
                names@.len() <= keys.len(),
                text::texts(names@) == keys.take(names@.len() as int),
                forall|i: int| 0 <= i < values@.len() ==> #[trigger] values@[i] == given[keys[i]],
                forall|key: Seq<char>| #[trigger]
                    vars@.contains_key(key) <==> keys.skip(names@.len() as int).contains(key),
                forall|key: Seq<char>| #[trigger]
                    vars@.contains_key(key) ==> vars@[key] == given[key].resolved(),
                name_map::ascending(vars.keys()),
            decreases names.len(),
        {
            let ghost at = names@.len() - 1;
            let ghost held = text::texts(names@);
            if let (Some(name), Some(value)) = (names.pop(), values.pop()) {
                proof {
                    assert(held[at] == name@);
                    assert(keys[at] == name@);
                    assert(text::texts(names@) == keys.take(at));
                    lemma_skip_contains(keys, at);
                }
                vars.insert(name, value.resolve());
            }
        }
        assert(keys.skip(0) == keys);
        assert(vars@ =~= given.map_values(|var: RawTaskVar| var.resolved()));
        Task {
            run: self.run.resolve(),
            description: self.description,
            cwd: self.cwd,
            env: self.env,
            timeout: self.timeout,
            vars,
        }
    }
}

impl RawTask {
    /// Whether `task` is the same task in a configuration.
    pub open spec fn resolves_to(self, task: Task) -> bool {
        match self {
            RawTask::String(command) => is_bare_task(task, TaskRun::String(command)),
            RawTask::Command(argv) => is_bare_task(task, TaskRun::Command(argv)),
            RawTask::Sequence(steps) => is_bare_task(task, TaskRun::Sequence(steps)),
            RawTask::Detailed(detailed) => detailed.resolves_to(task),
        }
    }

    /// The same task in a configuration.
    pub fn resolve(self) -> (task: Task)
        ensures
            self.resolves_to(task),
    {
        match self {
            RawTask::String(command) => bare_task(TaskRun::String(command)),
            RawTask::Command(argv) => bare_task(TaskRun::Command(argv)),
            RawTask::Sequence(steps) => bare_task(TaskRun::Sequence(steps)),
            RawTask::Detailed(detailed) => detailed.resolve(),
        }
    }
}

impl RawConfig {
    /// Whether `config` is the configuration that this file in `project_root` writes. The
    /// local root is the project root unless the file names one.
    pub open spec fn resolves_to(self, project_root: Seq<char>, config: Config) -> bool {
        &&& config.ssh_target == self.ssh_target
        &&& config.local_root@ == (match self.local_root {
            Some(local_root) => local_root@,
            None => project_root,
        })
        &&& config.remote_root == self.remote_root
        &&& config.rpc_port == self.rpc_port
        &&& config.remote_bin_path == self.remote_bin_path
        &&& config.sync_detection_timeout == self.sync_detection_timeout
        &&& config.tasks@.dom() == self.tasks@.dom()
        &&& name_map::ascending(config.tasks.keys())
        &&& forall|name: Seq<char>| #[trigger]
            self.tasks@.contains_key(name) ==> self.tasks@[name].resolves_to(config.tasks@[name])
    }

    /// The configuration that this file in `project_root` writes.
    pub fn resolve(self, project_root: &str) -> (config: Config)
        ensures
            self.resolves_to(project_root@, config),
    {
        let ghost keys = self.tasks.keys();
        let ghost given = self.tasks@;
        let (mut names, mut values) = self.tasks.into_parts();
        let mut tasks: NameMap<Task> = NameMap::new();
        while names.len() > 0
            invariant
                names@.len() == values@.len(),
                names@.len() <= keys.len(),
                text::texts(names@) == keys.take(names@.len() as int),
                forall|i: int| 0 <= i < values@.len() ==> #[trigger] values@[i] == given[keys[i]],
                forall|key: Seq<char>| #[trigger]
                    tasks@.contains_key(key) <==> keys.skip(names@.len() as int).contains(key),
                forall|key: Seq<char>| #[trigger]
                    tasks@.contains_key(key) ==> given[key].resolves_to(tasks@[key]),
                name_map::ascending(tasks.keys()),
            decreases names.len(),
        {
            let ghost at = names@.len() - 1;
            let ghost held = text::texts(names@);
            if let (Some(name), Some(value)) = (names.pop(), values.pop()) {
                proof {
                    assert(held[at] == name@);
                    assert(keys[at] == name@);
                    assert(text::texts(names@) == keys.take(at));
                    lemma_skip_contains(keys, at);
                }
                tasks.insert(name, value.resolve());
            }
        }
        assert(keys.skip(0) == keys);
        assert(tasks@.dom() =~= given.dom());
        let local_root = match self.local_root {
            Some(local_root) => local_root,
            None => project_root.to_owned(),
        };
        Config {
            ssh_target: self.ssh_target,
            local_root,
            remote_root: self.remote_root,
            rpc_port: self.rpc_port,
            remote_bin_path: self.remote_bin_path,
            sync_detection_timeout: self.sync_detection_timeout,
            tasks,
        }
    }
}

/// Makes the configuration that the file `raw` in `project_root` writes, and checks it.
pub fn load_config(raw: RawConfig, project_root: &str) -> (loaded: Result<
    LoadedConfig,
    ConfigError,
>)
    ensures
        match loaded {
            Ok(loaded) => {
                &&& raw.resolves_to(project_root@, loaded.config)
                &&& config_fault(loaded.config) is None
                &&& loaded.path@ == paths::path_joined(project_root@, CONFIG_FILE_NAME@)
                &&& loaded.project_root@ == project_root@
            },
            Err(error) => exists|config: Config| #[trigger]
                raw.resolves_to(project_root@, config) && config_fault(config) == Some(error@),
        },
{
    let config = raw.resolve(project_root);
    match config.validate() {
        Ok(()) => {
            let path = join_path(project_root, CONFIG_FILE_NAME);
            Ok(LoadedConfig { config, path, project_root: project_root.to_owned() })
        },
        Err(error) => Err(error),
    }
}

// ---- where a configuration is found ----

/// What to do next in the search for a configuration file.
#[derive(Debug, PartialEq, Eq)]
pub enum Discovery {
    /// The file at `path` is the one to read.
    Found { path: String },
    /// Look in the directory `dir` next.
    Ascend { dir: String },
    /// There is none.
    Missing { error: ConfigError },
}

/// The nearest directory that holds a configuration file, from `dir` upwards, where
/// `holding` are the directories that hold one.
pub open spec fn nearest(dir: Seq<char>, holding: Set<Seq<char>>) -> Option<Seq<char>>
    decreases paths::components(dir).len(),
    when paths::is_absolute(dir)
{
    if holding.contains(dir) {
        Some(dir)
    } else {
        match paths::parent_of(dir) {
            Some(parent) => {
                proof {
                    paths::lemma_parent_components(dir);
                }
                nearest(parent, holding)
            },
            None => None,
        }
    }
}

/// The directory that is `levels` steps above `dir`.
pub open spec fn ancestor(dir: Seq<char>, levels: nat) -> Option<Seq<char>>
    decreases levels,
{
    if levels == 0 {
        Some(dir)
    } else {
        match ancestor(dir, (levels - 1) as nat) {
            Some(below) => paths::parent_of(below),
            None => None,
        }
    }
}

/// The file that would hold the configuration of `dir`.
pub fn config_path(dir: &str) -> (path: String)
    ensures
        path@ == paths::path_joined(dir@, CONFIG_FILE_NAME@),
{
    join_path(dir, CONFIG_FILE_NAME)
}

/// The next step of the search that began at `start`, after a look whether `dir` holds a
/// configuration file.
pub fn discover_step(start: &str, dir: &str, present: bool) -> (next: Discovery)
    ensures
        match next {
            Discovery::Found { path } => {
                &&& present
                &&& path@ == paths::path_joined(dir@, CONFIG_FILE_NAME@)
            },
            Discovery::Ascend { dir: parent } => {
                &&& !present
                &&& paths::parent_of(dir@) == Some(parent@)
            },
            Discovery::Missing { error } => {
                &&& !present
                &&& paths::parent_of(dir@) is None
                &&& error@ == (ConfigError::NotFound { start: start@ })
            },
        },
{
    if present {
        Discovery::Found { path: config_path(dir) }
    } else {
        match parent_dir(dir) {
            Some(parent) => Discovery::Ascend { dir: parent },
            None => Discovery::Missing { error: ConfigError::NotFound { start: start.to_owned() } },
        }
    }
}

/// A step of the search leads upwards, and leaves the nearest directory that holds a file as
/// it is; where it stops, it has found that directory, or there is none.
pub proof fn lemma_step_keeps_nearest(dir: Seq<char>, holding: Set<Seq<char>>)
    requires
        paths::is_absolute(dir),
    ensures
        holding.contains(dir) ==> nearest(dir, holding) == Some(dir),
        !holding.contains(dir) ==> match paths::parent_of(dir) {
            Some(parent) => {
                &&& nearest(dir, holding) == nearest(parent, holding)
                &&& paths::is_absolute(parent)
                &&& paths::components(parent) == paths::components(dir).drop_last()
            },
            None => nearest(dir, holding) is None,
        },
{
    if paths::parent_of(dir) is Some {
        paths::lemma_parent_components(dir);
    }
}

proof fn lemma_ancestor_of_parent(dir: Seq<char>, levels: nat)
    requires
        paths::parent_of(dir) is Some,
    ensures
        ancestor(dir, levels + 1) == ancestor(paths::parent_of(dir)->0, levels),
    decreases levels,
{
    reveal_with_fuel(ancestor, 2);
    if levels > 0 {
        lemma_ancestor_of_parent(dir, (levels - 1) as nat);
    }
}

proof fn lemma_no_ancestor(dir: Seq<char>, levels: nat)
    requires
        paths::parent_of(dir) is None,
        levels > 0,
    ensures
        ancestor(dir, levels) is None,
    decreases levels,
{
    reveal_with_fuel(ancestor, 2);
    if levels > 1 {
        lemma_no_ancestor(dir, (levels - 1) as nat);
    }
}

/// The search finds the nearest configuration: the directory that it ends at is a number of
/// steps above the start and holds a file, and no directory on the way to it holds one.
/// It ends without one only where neither the start nor any directory above it holds one.
pub proof fn lemma_nearest(dir: Seq<char>, holding: Set<Seq<char>>)
    requires
        paths::is_absolute(dir),
    ensures
        match nearest(dir, holding) {
            Some(found) => holding.contains(found) && exists|levels: nat|
                {
                    &&& #[trigger] ancestor(dir, levels) == Some(found)
                    &&& forall|below: nat|
                        below < levels ==> (#[trigger] ancestor(dir, below) matches Some(passed)
                            && !holding.contains(passed))
                },
            None => forall|levels: nat|
                (#[trigger] ancestor(dir, levels)) matches Some(passed) ==> !holding.contains(
                    passed,
                ),
        },
    decreases paths::components(dir).len(),
{
    if holding.contains(dir) {
        assert(ancestor(dir, 0) == Some(dir));
    } else {
        match paths::parent_of(dir) {
            Some(parent) => {
                paths::lemma_parent_components(dir);
                lemma_nearest(parent, holding);
                match nearest(parent, holding) {
                    Some(found) => {
                        let up = choose|levels: nat|
                            {
                                &&& #[trigger] ancestor(parent, levels) == Some(found)
                                &&& forall|below: nat|
                                    below < levels ==> (#[trigger] ancestor(
                                        parent,
                                        below,
                                    ) matches Some(passed) && !holding.contains(passed))
                            };
                        lemma_ancestor_of_parent(dir, up);
                        assert forall|below: nat| below < up + 1 implies (#[trigger] ancestor(
                            dir,
                            below,
                        ) matches Some(passed) && !holding.contains(passed)) by {
                            if below > 0 {
                                lemma_ancestor_of_parent(dir, (below - 1) as nat);
                                assert(ancestor(parent, (below - 1) as nat) is Some);
                            }
                        }
                        assert(ancestor(dir, up + 1) == Some(found));
                    },
                    None => {
                        assert forall|levels: nat| (#[trigger] ancestor(
                            dir,
                            levels,
                        )) is Some implies !holding.contains(ancestor(dir, levels)->0) by {
                            if levels > 0 {
                                lemma_ancestor_of_parent(dir, (levels - 1) as nat);
                                assert(ancestor(parent, (levels - 1) as nat) is Some);
                            }
                        }
                    },
                }
            },
            None => {
                assert forall|levels: nat| (#[trigger] ancestor(
                    dir,
                    levels,
                )) is Some implies !holding.contains(ancestor(dir, levels)->0) by {
                    if levels > 0 {
                        lemma_no_ancestor(dir, levels);
                    }
                }
            },
        }
    }
}

} // verus!
