//! Loading a configuration: it says what its file says, and which ones are taken.
use vstd::prelude::*;

use crate::config;
use crate::config::{
    config_path, default_remote_bin_path, default_rpc_port, default_sync_detection_timeout,
    discover_step, load_config, validate_argv, validate_template, Config, ConfigError, Discovery, LoadedConfig, RawConfig,
    RawDetailedTask, RawTask, RawTaskRun, RawTaskVar, Task, TaskRun, TaskVar,
};
use crate::laws::setup;
use crate::laws::sync;
use crate::name_map;
use crate::paths;
use crate::template;
use crate::template::{parse_template, Placeholder, TemplateError, TemplatePart};
use crate::text;
use crate::time_span::TimeSpan;

verus! {

// ---- what the file says ----

/// Whether a task has just these commands, as the file writes them.
pub open spec fn same_run(run: TaskRun, written: RawTaskRun) -> bool {
    match (run, written) {
        (TaskRun::String(line), RawTaskRun::String(given)) => line@ == given@,
        (TaskRun::Command(argv), RawTaskRun::Command(given)) => argv == given,
        (TaskRun::Sequence(steps), RawTaskRun::Sequence(given)) => steps == given,
        _ => false,
    }
}

/// Whether a task is the one that the file writes, in all that is said of it.
pub open spec fn same_task(task: Task, written: RawTask) -> bool {
    match written {
        RawTask::Detailed(written) => {
            &&& same_run(task.run, written.run)
            &&& task.description == written.description
            &&& task.cwd == written.cwd
            &&& task.env@ == written.env@
            &&& task.timeout == written.timeout
            &&& forall|name: Seq<char>| #[trigger]
                task.vars@.contains_key(name) <==> written.vars@.contains_key(name)
            &&& forall|name: Seq<char>| #[trigger]
                written.vars@.contains_key(name) ==> {
                    &&& task.vars@[name].description == written.vars@[name].description
                    &&& task.vars@[name].optional == written.vars@[name].optional
                }
        },
        RawTask::String(line) => task.run == TaskRun::String(line) && says_nothing_else(task),
        RawTask::Command(argv) => task.run == TaskRun::Command(argv) && says_nothing_else(task),
        RawTask::Sequence(steps) => task.run == TaskRun::Sequence(steps) && says_nothing_else(
            task,
        ),
    }
}

/// Whether nothing is said of a task but its commands.
pub open spec fn says_nothing_else(task: Task) -> bool {
    &&& task.description is None
    &&& task.cwd is None
    &&& task.timeout is None
    &&& forall|name: Seq<char>| !#[trigger] task.env@.contains_key(name)
    &&& forall|name: Seq<char>| !#[trigger] task.vars@.contains_key(name)
}

/// Whether a configuration is the one that the file in `project_root` writes.
pub open spec fn same_config(config: Config, raw: RawConfig, project_root: Seq<char>) -> bool {
    &&& config.ssh_target@ == raw.ssh_target@
    &&& match raw.local_root {
        Some(local_root) => config.local_root@ == local_root@,
        None => config.local_root@ == project_root,
    }
    &&& config.remote_root@ == raw.remote_root@
    &&& config.rpc_port == raw.rpc_port
    &&& config.remote_bin_path@ == raw.remote_bin_path@
    &&& config.sync_detection_timeout == raw.sync_detection_timeout
    &&& forall|name: Seq<char>| #[trigger]
        config.tasks@.contains_key(name) <==> raw.tasks@.contains_key(name)
    &&& forall|name: Seq<char>| #[trigger]
        raw.tasks@.contains_key(name) ==> same_task(config.tasks@[name], raw.tasks@[name])
}

proof fn lemma_same_task(raw: RawTask, task: Task)
    requires
        raw.resolves_to(task),
    ensures
        same_task(task, raw),
{
    if let RawTask::Detailed(written) = raw {
        assert forall|name: Seq<char>| #[trigger]
            written.vars@.contains_key(name) implies task.vars@[name]
            == written.vars@[name].resolved() by {}
    }
}

proof fn lemma_same_config(raw: RawConfig, project_root: Seq<char>, config: Config)
    requires
        raw.resolves_to(project_root, config),
    ensures
        same_config(config, raw, project_root),
{
    assert forall|name: Seq<char>| #[trigger]
        config.tasks@.contains_key(name) <==> raw.tasks@.contains_key(name) by {
        assert(config.tasks@.dom().contains(name) == raw.tasks@.dom().contains(name));
    }
    assert forall|name: Seq<char>| #[trigger] raw.tasks@.contains_key(name) implies same_task(
        config.tasks@[name],
        raw.tasks@[name],
    ) by {
        lemma_same_task(raw.tasks@[name], config.tasks@[name]);
    }
}

/// A variable has the description and the optional flag that the file gives it.
pub proof fn lemma_variable_is_kept(written: RawTaskVar, var: TaskVar)
    requires
        call_ensures(RawTaskVar::resolve, (written,), var),
    ensures
        var.optional == written.optional,
        var.description == written.description,
{
}

/// Commands stay what the file writes, in the form in which it writes them.
pub proof fn lemma_commands_are_kept(written: RawTaskRun, run: TaskRun)
    requires
        call_ensures(RawTaskRun::resolve, (written,), run),
    ensures
        same_run(run, written),
{
}

/// A task is the one that the file writes, in all that is said of it.
pub proof fn lemma_task_is_kept(written: RawTask, task: Task)
    requires
        call_ensures(RawTask::resolve, (written,), task),
    ensures
        same_task(task, written),
{
    lemma_same_task(written, task);
}

/// A detailed task is the one that the file writes, in all that is said of it.
pub proof fn lemma_detailed_task_is_kept(written: RawDetailedTask, task: Task)
    requires
        call_ensures(RawDetailedTask::resolve, (written,), task),
    ensures
        same_task(task, RawTask::Detailed(written)),
{
    lemma_same_task(RawTask::Detailed(written), task);
}

/// A configuration is the one that the file writes, in all that is said in it.
pub proof fn lemma_config_is_kept(raw: RawConfig, project_root: &str, config: Config)
    requires
        call_ensures(RawConfig::resolve, (raw, project_root), config),
    ensures
        same_config(config, raw, project_root@),
{
    lemma_same_config(raw, project_root@, config);
}

/// What is loaded is what the file writes: every field, every task, and of every variable of
/// every task its description and whether it is optional. It is known to come from the file
/// `.sshpal.toml` of the project root.
pub proof fn lemma_loading_keeps_everything(
    raw: RawConfig,
    project_root: &str,
    loaded: Result<LoadedConfig, ConfigError>,
)
    requires
        call_ensures(load_config, (raw, project_root), loaded),
    ensures
        loaded matches Ok(loaded) ==> {
            &&& same_config(loaded.config, raw, project_root@)
            &&& loaded.project_root@ == project_root@
            &&& project_root@.len() > 0 ==> loaded.path@ == sync::with_slash(project_root@)
                + ".sshpal.toml"@
            &&& forall|task: Seq<char>, name: Seq<char>|
                raw.tasks@.contains_key(task) && raw.tasks@[task] is Detailed
                    && #[trigger] raw.tasks@[task]->Detailed_0.vars@.contains_key(name) ==> {
                    let var = loaded.config.tasks@[task].vars@[name];
                    let written = raw.tasks@[task]->Detailed_0.vars@[name];
                    &&& loaded.config.tasks@[task].vars@.contains_key(name)
                    &&& var.optional == written.optional
                    &&& var.description == written.description
                }
        },
{
    if let Ok(loaded) = loaded {
        lemma_same_config(raw, project_root@, loaded.config);
        reveal_strlit(".sshpal.toml");
        assert(project_root@ + paths::slash() =~= project_root@.push('/'));
    }
}

/// What holds where the file says nothing: port 45678, `~/.local/bin/sshpal-run`, and ten
/// seconds.
pub proof fn lemma_defaults(port: u16, path: String, span: TimeSpan)
    requires
        call_ensures(default_rpc_port, (), port),
        call_ensures(default_remote_bin_path, (), path),
        call_ensures(default_sync_detection_timeout, (), span),
    ensures
        port == 45_678,
        path@ == "~/.local/bin/sshpal-run"@,
        span.whole_secs() == 10,
        span.extra_nanos() == 0,
{
}

// ---- which configurations are taken ----

/// Whether a text holds anything but white space.
pub open spec fn has_text(words: Seq<char>) -> bool {
    exists|i: int| 0 <= i < words.len() && !text::is_white(#[trigger] words[i])
}

/// Whether a path starts at the root.
pub open spec fn from_root(path: Seq<char>) -> bool {
    path.len() > 0 && path[0] == '/'
}

/// Whether a text can be read as a template.
pub open spec fn well_formed(source: Seq<char>) -> bool {
    template::template_parts(source) is Ok
}

/// Whether a template has a place for the value of `hole`.
pub open spec fn has_place_for(source: Seq<char>, hole: Placeholder<Seq<char>>) -> bool {
    template::template_parts(source)->Ok_0.contains(TemplatePart::Placeholder(hole))
}

/// Whether the words of a command can be run: there is a first one that is no white space,
/// and all are templates.
pub open spec fn sound_words(words: Seq<String>) -> bool {
    &&& words.len() > 0
    &&& has_text(words[0]@)
    &&& forall|i: int| 0 <= i < words.len() ==> well_formed((#[trigger] words[i])@)
}

/// Whether the commands of a task can be run.
pub open spec fn sound_run(run: TaskRun) -> bool {
    match run {
        TaskRun::String(line) => has_text(line@) && well_formed(line@),
        TaskRun::Command(words) => sound_words(words@),
        TaskRun::Sequence(steps) => {
            &&& steps@.len() > 0
            &&& forall|i: int| 0 <= i < steps@.len() ==> sound_words((#[trigger] steps@[i])@)
        },
    }
}

/// Whether every word of the commands of a task is a template.
pub open spec fn all_well_formed(run: TaskRun) -> bool {
    match run {
        TaskRun::String(line) => well_formed(line@),
        TaskRun::Command(words) => forall|i: int|
            0 <= i < words@.len() ==> well_formed((#[trigger] words@[i])@),
        TaskRun::Sequence(steps) => forall|i: int, j: int|
            0 <= i < steps@.len() && 0 <= j < steps@[i]@.len() ==> well_formed(
                (#[trigger] steps@[i]@[j])@,
            ),
    }
}

/// Whether the commands of a task have a place for the value of `hole`.
pub open spec fn has_place(run: TaskRun, hole: Placeholder<Seq<char>>) -> bool {
    match run {
        TaskRun::String(line) => has_place_for(line@, hole),
        TaskRun::Command(words) => exists|i: int|
            0 <= i < words@.len() && has_place_for((#[trigger] words@[i])@, hole),
        TaskRun::Sequence(steps) => exists|i: int, j: int|
            0 <= i < steps@.len() && 0 <= j < steps@[i]@.len() && has_place_for(
                (#[trigger] steps@[i]@[j])@,
                hole,
            ),
    }
}

/// Whether the commands of a task have a place for the variable `name`.
pub open spec fn mentions(run: TaskRun, name: Seq<char>) -> bool {
    has_place(run, Placeholder::Client(name))
}

/// Whether the commands of a task have a place for the environment variable `name`.
pub open spec fn mentions_env(run: TaskRun, name: Seq<char>) -> bool {
    has_place(run, Placeholder::Env(name))
}

/// The place for a variable of the task, or of the environment.
pub open spec fn place_of(name: Seq<char>, client: bool) -> Placeholder<Seq<char>> {
    if client {
        Placeholder::Client(name)
    } else {
        Placeholder::Env(name)
    }
}

/// Whether a variable may be documented as it is.
pub open spec fn sound_var(run: TaskRun, name: Seq<char>, var: TaskVar) -> bool {
    &&& text::is_name(name)
    &&& var.description matches Some(description) ==> has_text(description@)
    &&& mentions(run, name)
}

/// Whether a task of this name may stand in a configuration.
pub open spec fn sound_task(name: Seq<char>, task: Task) -> bool {
    &&& has_text(name)
    &&& name != "tasks-help"@
    &&& sound_run(task.run)
    &&& forall|var: Seq<char>| #[trigger]
        task.vars@.contains_key(var) ==> sound_var(task.run, var, task.vars@[var])
}

/// Whether a configuration may be used.
pub open spec fn sound_config(config: Config) -> bool {
    &&& has_text(config.ssh_target@)
    &&& from_root(config.local_root@)
    &&& from_root(config.remote_root@)
    &&& has_text(config.remote_bin_path@)
    &&& forall|name: Seq<char>| #[trigger]
        config.tasks@.contains_key(name) ==> sound_task(name, config.tasks@[name])
}

proof fn lemma_blank(words: Seq<char>)
    ensures
        text::blank(words) == !has_text(words),
{
}

proof fn lemma_words(task: Seq<char>, words: Seq<String>)
    ensures
        config::argv_fault(task, text::texts(words)) is None <==> sound_words(words),
{
    let all = text::texts(words);
    config::lemma_no_fault(all);
    if words.len() > 0 {
        assert(all[0] == words[0]@);
        lemma_blank(all[0]);
    }
    if sound_words(words) {
        assert forall|i: int| 0 <= i < all.len() implies template::template_parts(
            #[trigger] all[i],
        ) is Ok by {
            assert(well_formed(words[i]@));
        }
    }
    if config::first_fault(all) is None {
        assert forall|i: int| 0 <= i < words.len() implies well_formed(
            (#[trigger] words[i])@,
        ) by {
            assert(template::template_parts(all[i]) is Ok);
        }
    }
}

proof fn lemma_steps(task: Seq<char>, steps: Seq<Seq<Seq<char>>>)
    ensures
        config::steps_fault(task, steps) is None <==> forall|i: int|
            0 <= i < steps.len() ==> config::argv_fault(task, #[trigger] steps[i]) is None,
        config::steps_fault(task, steps) matches Some(error) ==> exists|i: int|
            0 <= i < steps.len() && config::argv_fault(task, #[trigger] steps[i]) == Some(error),
    decreases steps.len(),
{
    if steps.len() > 0 {
        let short = steps.drop_last();
        let end = steps.len() - 1;
        lemma_steps(task, short);
        assert(steps[end] == steps.last());
        assert forall|i: int| 0 <= i < short.len() implies #[trigger] short[i] == steps[i] by {}
        if let Some(error) = config::steps_fault(task, short) {
            let at = choose|i: int|
                0 <= i < short.len() && config::argv_fault(task, #[trigger] short[i]) == Some(
                    error,
                );
            assert(config::argv_fault(task, steps[at]) == Some(error));
        } else {
            assert forall|i: int| 0 <= i < short.len() implies config::argv_fault(
                task,
                #[trigger] steps[i],
            ) is None by {
                assert(config::argv_fault(task, short[i]) is None);
            }
        }
    }
}

/// The commands of a task have no fault just if they can be run.
pub proof fn lemma_run(task: Seq<char>, run: TaskRun)
    ensures
        config::run_fault(task, run) is None <==> sound_run(run),
{
    match run {
        TaskRun::String(line) => lemma_blank(line@),
        TaskRun::Command(words) => lemma_words(task, words@),
        TaskRun::Sequence(steps) => {
            let rows = text::rows(steps@);
            lemma_steps(task, rows);
            assert forall|i: int| 0 <= i < steps@.len() implies (config::argv_fault(
                task,
                #[trigger] rows[i],
            ) is None <==> sound_words(steps@[i]@)) by {
                lemma_words(task, steps@[i]@);
            }
            if config::steps_fault(task, rows) is None {
                assert forall|i: int| 0 <= i < steps@.len() implies sound_words(
                    (#[trigger] steps@[i])@,
                ) by {
                    assert(config::argv_fault(task, rows[i]) is None);
                }
            }
            if sound_run(run) {
                assert forall|i: int| 0 <= i < rows.len() implies config::argv_fault(
                    task,
                    #[trigger] rows[i],
                ) is None by {
                    assert(sound_words(steps@[i]@));
                }
            }
        },
    }
}

/// The names in the placeholders of a template are those that it has a place for.
proof fn lemma_part_names(parts: Seq<TemplatePart<Seq<char>>>, name: Seq<char>, client: bool)
    ensures
        config::part_names(parts, client).contains(name) <==> parts.contains(
            TemplatePart::Placeholder(place_of(name, client)),
        ),
    decreases parts.len(),
{
    let hole = TemplatePart::Placeholder(place_of(name, client));
    if parts.len() > 0 {
        let short = parts.drop_last();
        let last = parts.last();
        let before = config::part_names(short, client);
        let all = config::part_names(parts, client);
        lemma_part_names(short, name, client);
        assert(parts =~= short.push(last));
        if parts.contains(hole) && last != hole {
            let at = parts.index_of(hole);
            assert(short[at] == hole);
        }
        if short.contains(hole) {
            assert(parts[short.index_of(hole)] == hole);
        }
        if last == hole {
            assert(parts[parts.len() - 1] == hole);
            assert(all.last() == name);
            assert(all[all.len() - 1] == name);
        }
        if before.contains(name) {
            assert(all[before.index_of(name)] == name);
        }
        if all.contains(name) && last != hole {
            let at = all.index_of(name);
            assert(all.len() == before.len() || all == before.push(all.last()));
            if at == before.len() {
                assert(all.last() == name);
            } else {
                assert(before[at] == name);
            }
        }
    }
}

proof fn lemma_flat(steps: Seq<Seq<Seq<char>>>, word: Seq<char>)
    ensures
        config::flat(steps).contains(word) <==> exists|i: int, j: int|
            0 <= i < steps.len() && 0 <= j < steps[i].len() && #[trigger] steps[i][j] == word,
    decreases steps.len(),
{
    if steps.len() > 0 {
        let short = steps.drop_last();
        let last = steps.last();
        let before = config::flat(short);
        let all = config::flat(steps);
        lemma_flat(short, word);
        if all.contains(word) {
            let at = all.index_of(word);
            if at < before.len() {
                assert(before[at] == word);
                let (i, j) = choose|i: int, j: int|
                    0 <= i < short.len() && 0 <= j < short[i].len() && #[trigger] short[i][j]
                        == word;
                assert(steps[i][j] == word);
            } else {
                assert(steps[steps.len() - 1][at - before.len()] == word);
            }
        }
        if exists|i: int, j: int|
            0 <= i < steps.len() && 0 <= j < steps[i].len() && #[trigger] steps[i][j] == word {
            let (i, j) = choose|i: int, j: int|
                0 <= i < steps.len() && 0 <= j < steps[i].len() && #[trigger] steps[i][j] == word;
            if i < short.len() {
                assert(short[i][j] == word);
                assert(before.contains(word));
                assert(all[before.index_of(word)] == word);
            } else {
                assert(all[before.len() + j] == word);
            }
        }
    }
}

/// The templates of a task have no fault just if every word of its commands is one.
pub proof fn lemma_all_well_formed(run: TaskRun)
    ensures
        config::first_fault(config::run_templates(run)) is None <==> all_well_formed(run),
{
    let sources = config::run_templates(run);
    let steps = config::run_steps(run);
    config::lemma_no_fault(sources);
    if config::first_fault(sources) is None {
        assert forall|i: int, j: int|
            0 <= i < steps.len() && 0 <= j < steps[i].len() implies well_formed(
            #[trigger] steps[i][j],
        ) by {
            let word = steps[i][j];
            lemma_flat(steps, word);
            assert(sources.contains(word));
            assert(sources[sources.index_of(word)] == word);
        }
        match run {
            TaskRun::String(line) => {
                assert(steps[0][0] == line@);
            },
            TaskRun::Command(words) => {
                assert forall|i: int| 0 <= i < words@.len() implies well_formed(
                    (#[trigger] words@[i])@,
                ) by {
                    assert(steps[0][i] == words@[i]@);
                }
            },
            TaskRun::Sequence(rows) => {
                assert forall|i: int, j: int|
                    0 <= i < rows@.len() && 0 <= j < rows@[i]@.len() implies well_formed(
                    (#[trigger] rows@[i]@[j])@,
                ) by {
                    assert(steps[i][j] == rows@[i]@[j]@);
                }
            },
        }
    }
    if all_well_formed(run) {
        assert forall|at: int| 0 <= at < sources.len() implies template::template_parts(
            #[trigger] sources[at],
        ) is Ok by {
            let word = sources[at];
            lemma_flat(steps, word);
            assert(sources.contains(word));
            let (i, j) = choose|i: int, j: int|
                0 <= i < steps.len() && 0 <= j < steps[i].len() && #[trigger] steps[i][j] == word;
            match run {
                TaskRun::String(line) => {},
                TaskRun::Command(words) => {
                    assert(well_formed(words@[j]@));
                },
                TaskRun::Sequence(rows) => {
                    assert(well_formed(rows@[i]@[j]@));
                },
            }
        }
    }
}

/// The variables that a task refers to are those that its commands have a place for.
pub proof fn lemma_mentions(run: TaskRun, name: Seq<char>, client: bool)
    requires
        config::first_fault(config::run_templates(run)) is None,
    ensures
        config::referenced(run, client)->Ok_0.contains(name) <==> has_place(
            run,
            place_of(name, client),
        ),
{
    let hole = place_of(name, client);
    let sources = config::run_templates(run);
    let steps = config::run_steps(run);
    let names = config::referenced(run, client)->Ok_0;
    config::lemma_referenced(run, client);
    if names.contains(name) {
        let at = choose|at: int|
            0 <= at < sources.len() && config::part_names(
                template::template_parts(#[trigger] sources[at])->Ok_0,
                client,
            ).contains(name);
        let word = sources[at];
        lemma_part_names(template::template_parts(word)->Ok_0, name, client);
        lemma_flat(steps, word);
        assert(sources.contains(word));
        let (i, j) = choose|i: int, j: int|
            0 <= i < steps.len() && 0 <= j < steps[i].len() && #[trigger] steps[i][j] == word;
        match run {
            TaskRun::String(line) => {},
            TaskRun::Command(words) => {
                assert(has_place_for(words@[j]@, hole));
            },
            TaskRun::Sequence(rows) => {
                assert(has_place_for(rows@[i]@[j]@, hole));
            },
        }
    }
    if has_place(run, hole) {
        let word = match run {
            TaskRun::String(line) => {
                assert(steps[0][0] == line@);
                line@
            },
            TaskRun::Command(words) => {
                let i = choose|i: int|
                    0 <= i < words@.len() && has_place_for((#[trigger] words@[i])@, hole);
                assert(steps[0][i] == words@[i]@);
                words@[i]@
            },
            TaskRun::Sequence(rows) => {
                let (i, j) = choose|i: int, j: int|
                    0 <= i < rows@.len() && 0 <= j < rows@[i]@.len() && has_place_for(
                        (#[trigger] rows@[i]@[j])@,
                        hole,
                    );
                assert(steps[i][j] == rows@[i]@[j]@);
                rows@[i]@[j]@
            },
        };
        lemma_flat(steps, word);
        assert(sources.contains(word));
        lemma_part_names(template::template_parts(word)->Ok_0, name, client);
        assert(config::part_names(
            template::template_parts(sources[sources.index_of(word)])->Ok_0,
            client,
        ).contains(name));
    }
}

proof fn lemma_vars(task: Seq<char>, names: Seq<Seq<char>>, vars: Map<Seq<char>, TaskVar>)
    ensures
        config::vars_fault(task, names, vars) is None <==> forall|i: int|
            0 <= i < names.len() ==> config::var_fault(
                task,
                #[trigger] names[i],
                vars[names[i]],
            ) is None,
        config::vars_fault(task, names, vars) matches Some(error) ==> exists|i: int|
            0 <= i < names.len() && config::var_fault(task, #[trigger] names[i], vars[names[i]])
                == Some(error),
    decreases names.len(),
{
    if names.len() > 0 {
        let short = names.drop_last();
        let end = names.len() - 1;
        lemma_vars(task, short, vars);
        assert(names[end] == names.last());
        assert forall|i: int| 0 <= i < short.len() implies #[trigger] short[i] == names[i] by {}
        if let Some(error) = config::vars_fault(task, short, vars) {
            let at = choose|i: int|
                0 <= i < short.len() && config::var_fault(
                    task,
                    #[trigger] short[i],
                    vars[short[i]],
                ) == Some(error);
            assert(config::var_fault(task, names[at], vars[names[at]]) == Some(error));
        } else {
            assert forall|i: int| 0 <= i < short.len() implies config::var_fault(
                task,
                #[trigger] names[i],
                vars[names[i]],
            ) is None by {
                assert(config::var_fault(task, short[i], vars[short[i]]) is None);
            }
        }
    }
}

proof fn lemma_unused(task: Seq<char>, names: Seq<Seq<char>>, mentioned: Seq<Seq<char>>)
    ensures
        config::unused_fault(task, names, mentioned) is None <==> forall|i: int|
            0 <= i < names.len() ==> mentioned.contains(#[trigger] names[i]),
        config::unused_fault(task, names, mentioned) matches Some(error) ==> exists|i: int|
            {
                &&& 0 <= i < names.len()
                &&& !mentioned.contains(#[trigger] names[i])
                &&& error == (ConfigError::UnusedVar { task, name: names[i] })
            },
    decreases names.len(),
{
    if names.len() > 0 {
        let short = names.drop_last();
        let end = names.len() - 1;
        lemma_unused(task, short, mentioned);
        assert(names[end] == names.last());
        assert forall|i: int| 0 <= i < short.len() implies #[trigger] short[i] == names[i] by {}
        if let Some(error) = config::unused_fault(task, short, mentioned) {
            let at = choose|i: int|
                {
                    &&& 0 <= i < short.len()
                    &&& !mentioned.contains(#[trigger] short[i])
                    &&& error == (ConfigError::UnusedVar { task, name: short[i] })
                };
            assert(!mentioned.contains(names[at]));
        } else {
            assert forall|i: int| 0 <= i < short.len() implies mentioned.contains(
                #[trigger] names[i],
            ) by {
                assert(mentioned.contains(short[i]));
            }
        }
    }
}

/// Whether `error` says of the task `name` what is wrong with it.
pub open spec fn describes_task(error: ConfigError<Seq<char>>, name: Seq<char>, task: Task) -> bool {
    match error {
        ConfigError::EmptyTaskName => !has_text(name),
        ConfigError::ReservedTaskName => name == "tasks-help"@,
        ConfigError::EmptyCommandString { task: told } => {
            &&& told == name
            &&& task.run matches TaskRun::String(line)
            &&& !has_text(line@)
        },
        ConfigError::InvalidRunString { task: told, .. } => {
            &&& told == name
            &&& task.run matches TaskRun::String(line)
            &&& has_text(line@)
            &&& !well_formed(line@)
        },
        ConfigError::NoCommand { task: told } => told == name && match task.run {
            TaskRun::String(_) => false,
            TaskRun::Command(words) => words@.len() == 0,
            TaskRun::Sequence(steps) => steps@.len() == 0 || exists|i: int|
                0 <= i < steps@.len() && (#[trigger] steps@[i])@.len() == 0,
        },
        ConfigError::EmptyCommandArray { task: told } => told == name && match task.run {
            TaskRun::String(_) => false,
            TaskRun::Command(words) => words@.len() > 0 && !has_text(words@[0]@),
            TaskRun::Sequence(steps) => exists|i: int|
                0 <= i < steps@.len() && (#[trigger] steps@[i])@.len() > 0 && !has_text(
                    steps@[i]@[0]@,
                ),
        },
        ConfigError::InvalidArgv { task: told, .. } => told == name && match task.run {
            TaskRun::String(_) => false,
            TaskRun::Command(words) => exists|i: int|
                0 <= i < words@.len() && !well_formed((#[trigger] words@[i])@),
            TaskRun::Sequence(steps) => exists|i: int, j: int|
                0 <= i < steps@.len() && 0 <= j < steps@[i]@.len() && !well_formed(
                    (#[trigger] steps@[i]@[j])@,
                ),
        },
        ConfigError::EmptyVarName { task: told } => {
            &&& told == name
            &&& sound_run(task.run)
            &&& exists|var: Seq<char>| #[trigger]
                task.vars@.contains_key(var) && !has_text(var)
        },
        ConfigError::InvalidVarName { task: told, name: var } => {
            &&& told == name
            &&& sound_run(task.run)
            &&& has_text(var)
            &&& task.vars@.contains_key(var)
            &&& !text::is_name(var)
        },
        ConfigError::EmptyVarDescription { task: told, name: var } => {
            &&& told == name
            &&& sound_run(task.run)
            &&& text::is_name(var)
            &&& task.vars@.contains_key(var)
            &&& task.vars@[var].description matches Some(description)
            &&& !has_text(description@)
        },
        ConfigError::UnusedVar { task: told, name: var } => {
            &&& told == name
            &&& sound_run(task.run)
            &&& forall|other: Seq<char>| #[trigger]
                task.vars@.contains_key(other) ==> text::is_name(other)
            &&& task.vars@.contains_key(var)
            &&& !mentions(task.run, var)
        },
        _ => false,
    }
}

proof fn lemma_bad_words(name: Seq<char>, words: Seq<String>)
    ensures
        config::argv_fault(name, text::texts(words)) matches Some(error) ==> match error {
            ConfigError::NoCommand { task } => task == name && words.len() == 0,
            ConfigError::EmptyCommandArray { task } => task == name && words.len() > 0
                && !has_text(words[0]@),
            ConfigError::InvalidArgv { task, .. } => task == name && exists|i: int|
                0 <= i < words.len() && !well_formed((#[trigger] words[i])@),
            _ => false,
        },
{
    let all = text::texts(words);
    config::lemma_no_fault(all);
    if words.len() > 0 {
        assert(all[0] == words[0]@);
        lemma_blank(all[0]);
        if !text::blank(all[0]) && config::first_fault(all) is Some {
            let at = choose|i: int|
                0 <= i < all.len() && !(template::template_parts(#[trigger] all[i]) is Ok);
            assert(!well_formed(words[at]@));
        }
    }
}

proof fn lemma_task_body(name: Seq<char>, task: Task)
    ensures
        config::task_fault(name, task) is None <==> {
            &&& sound_run(task.run)
            &&& forall|var: Seq<char>| #[trigger]
                task.vars@.contains_key(var) ==> sound_var(task.run, var, task.vars@[var])
        },
{
    let word = seq!['x'];
    assert(!text::is_white(word[0]));
    lemma_blank(word);
    reveal_strlit("tasks-help");
    assert(word.len() != "tasks-help"@.len());
    lemma_task(word, task);
    lemma_fault_by_name(word, name, task);
}

proof fn lemma_steps_by_name(left: Seq<char>, right: Seq<char>, steps: Seq<Seq<Seq<char>>>)
    ensures
        config::steps_fault(left, steps) is None <==> config::steps_fault(right, steps) is None,
    decreases steps.len(),
{
    if steps.len() > 0 {
        lemma_steps_by_name(left, right, steps.drop_last());
    }
}

proof fn lemma_vars_by_name(
    left: Seq<char>,
    right: Seq<char>,
    names: Seq<Seq<char>>,
    vars: Map<Seq<char>, TaskVar>,
    mentioned: Seq<Seq<char>>,
)
    ensures
        config::vars_fault(left, names, vars) is None <==> config::vars_fault(
            right,
            names,
            vars,
        ) is None,
        config::unused_fault(left, names, mentioned) is None <==> config::unused_fault(
            right,
            names,
            mentioned,
        ) is None,
    decreases names.len(),
{
    if names.len() > 0 {
        lemma_vars_by_name(left, right, names.drop_last(), vars, mentioned);
    }
}

/// Whether a task has a fault does not depend on its name.
proof fn lemma_fault_by_name(left: Seq<char>, right: Seq<char>, task: Task)
    ensures
        config::task_fault(left, task) is None <==> config::task_fault(right, task) is None,
{
    if let TaskRun::Sequence(steps) = task.run {
        lemma_steps_by_name(left, right, text::rows(steps@));
    }
    lemma_vars_by_name(
        left,
        right,
        task.vars.keys(),
        task.vars@,
        config::referenced(task.run, true)->Ok_0,
    );
}

proof fn lemma_task(name: Seq<char>, task: Task)
    ensures
        config::named_task_fault(name, task) is None <==> sound_task(name, task),
        config::named_task_fault(name, task) matches Some(error) ==> describes_task(
            error,
            name,
            task,
        ),
{
    let keys = task.vars.keys();
    let mentioned = config::referenced(task.run, true)->Ok_0;
    lemma_blank(name);
    lemma_run(name, task.run);
    lemma_vars(name, keys, task.vars@);
    lemma_unused(name, keys, mentioned);
    name_map::lemma_keys(task.vars);
    if !has_text(name) || name == "tasks-help"@ {
    } else if config::run_fault(name, task.run) is Some {
        match task.run {
            TaskRun::String(line) => lemma_blank(line@),
            TaskRun::Command(words) => lemma_bad_words(name, words@),
            TaskRun::Sequence(steps) => {
                if steps@.len() > 0 {
                    let rows = text::rows(steps@);
                    let error = config::steps_fault(name, rows)->0;
                    lemma_steps(name, rows);
                    let at = choose|i: int|
                        0 <= i < rows.len() && config::argv_fault(name, #[trigger] rows[i])
                            == Some(error);
                    lemma_bad_words(name, steps@[at]@);
                    assert(steps@[at]@ == steps@[at]@);
                    if error is InvalidArgv {
                        let j = choose|j: int|
                            0 <= j < steps@[at]@.len() && !well_formed(
                                (#[trigger] steps@[at]@[j])@,
                            );
                        assert(!well_formed(steps@[at]@[j]@));
                    }
                }
            },
        }
    } else {
        config::lemma_run_templates_faultless(name, task.run);
        assert forall|var: Seq<char>|
            mentioned.contains(var) <==> #[trigger] mentions(task.run, var) by {
            lemma_mentions(task.run, var, true);
        }
        assert forall|var: Seq<char>| #[trigger]
            task.vars@.contains_key(var) implies (config::var_fault(
            name,
            var,
            task.vars@[var],
        ) is None && mentioned.contains(var) <==> sound_var(task.run, var, task.vars@[var])) by {
            lemma_blank(var);
            assert(mentioned.contains(var) <==> mentions(task.run, var));
            if let Some(description) = task.vars@[var].description {
                lemma_blank(description@);
            }
            if text::is_name(var) {
                assert(!text::is_white(var[0]));
            }
        }
        if config::vars_fault(name, keys, task.vars@) is Some {
            let error = config::vars_fault(name, keys, task.vars@)->0;
            let at = choose|i: int|
                0 <= i < keys.len() && config::var_fault(
                    name,
                    #[trigger] keys[i],
                    task.vars@[keys[i]],
                ) == Some(error);
            let var = keys[at];
            assert(keys.contains(var));
            assert(task.vars@.contains_key(var));
            lemma_blank(var);
            if let Some(description) = task.vars@[var].description {
                lemma_blank(description@);
            }
        } else if config::unused_fault(name, keys, mentioned) is Some {
            let error = config::unused_fault(name, keys, mentioned)->0;
            let at = choose|i: int|
                {
                    &&& 0 <= i < keys.len()
                    &&& !mentioned.contains(#[trigger] keys[i])
                    &&& error == (ConfigError::UnusedVar { task: name, name: keys[i] })
                };
            assert(keys.contains(keys[at]));
            assert(task.vars@.contains_key(keys[at]));
            assert(!mentions(task.run, keys[at]));
            assert forall|other: Seq<char>| #[trigger]
                task.vars@.contains_key(other) implies text::is_name(other) by {
                assert(keys.contains(other));
                let place = keys.index_of(other);
                assert(config::var_fault(name, keys[place], task.vars@[keys[place]]) is None);
            }
        } else {
            assert forall|var: Seq<char>| #[trigger]
                task.vars@.contains_key(var) implies sound_var(task.run, var, task.vars@[var]) by {
                assert(keys.contains(var));
                assert(keys[keys.index_of(var)] == var);
            }
        }
    }
}

/// Whether `error` says what is wrong with a configuration.
pub open spec fn describes(error: ConfigError<Seq<char>>, config: Config) -> bool {
    match error {
        ConfigError::EmptySshTarget => !has_text(config.ssh_target@),
        ConfigError::RelativeLocalRoot => {
            &&& has_text(config.ssh_target@)
            &&& !from_root(config.local_root@)
        },
        ConfigError::RelativeRemoteRoot => {
            &&& has_text(config.ssh_target@)
            &&& from_root(config.local_root@)
            &&& !from_root(config.remote_root@)
        },
        ConfigError::EmptyRemoteBinPath => {
            &&& has_text(config.ssh_target@)
            &&& from_root(config.local_root@)
            &&& from_root(config.remote_root@)
            &&& !has_text(config.remote_bin_path@)
        },
        _ => {
            &&& has_text(config.ssh_target@)
            &&& from_root(config.local_root@)
            &&& from_root(config.remote_root@)
            &&& has_text(config.remote_bin_path@)
            &&& exists|at: int| #[trigger] is_first_fault(error, config, at)
        },
    }
}

/// Whether `error` says what is wrong with the task at `at`, and no task before it has a
/// fault.
pub open spec fn is_first_fault(error: ConfigError<Seq<char>>, config: Config, at: int) -> bool {
    let keys = config.tasks.keys();
    &&& 0 <= at < keys.len()
    &&& config.tasks@.contains_key(keys[at])
    &&& describes_task(error, keys[at], config.tasks@[keys[at]])
    &&& forall|i: int|
        0 <= i < at ==> sound_task(#[trigger] keys[i], config.tasks@[keys[i]])
}

proof fn lemma_tasks(names: Seq<Seq<char>>, tasks: Map<Seq<char>, Task>)
    ensures
        config::tasks_fault(names, tasks) matches Some(error) ==> exists|i: int|
            {
                &&& 0 <= i < names.len()
                &&& config::named_task_fault(#[trigger] names[i], tasks[names[i]]) == Some(error)
                &&& config::tasks_fault(names.take(i), tasks) is None
            },
    decreases names.len(),
{
    if names.len() > 0 {
        let short = names.drop_last();
        lemma_tasks(short, tasks);
        let end = names.len() - 1;
        assert(names[end] == names.last());
        assert(names.take(end) =~= short);
        if let Some(error) = config::tasks_fault(short, tasks) {
            let at = choose|i: int|
                {
                    &&& 0 <= i < short.len()
                    &&& config::named_task_fault(#[trigger] short[i], tasks[short[i]]) == Some(
                        error,
                    )
                    &&& config::tasks_fault(short.take(i), tasks) is None
                };
            assert(short.take(at) =~= names.take(at));
            assert(config::named_task_fault(names[at], tasks[names[at]]) == Some(error));
        }
    }
}

proof fn lemma_faults(config: Config)
    ensures
        config::config_fault(config) is None <==> sound_config(config),
        config::config_fault(config) matches Some(error) ==> describes(error, config),
{
    let keys = config.tasks.keys();
    lemma_blank(config.ssh_target@);
    lemma_blank(config.remote_bin_path@);
    name_map::lemma_keys(config.tasks);
    config::lemma_tasks_faultless(keys, config.tasks@);
    lemma_tasks(keys, config.tasks@);
    assert forall|name: Seq<char>| #[trigger] config.tasks@.contains_key(name) implies (
    config::named_task_fault(name, config.tasks@[name]) is None <==> sound_task(
        name,
        config.tasks@[name],
    )) by {
        lemma_task(name, config.tasks@[name]);
    }
    if let Some(error) = config::tasks_fault(keys, config.tasks@) {
        let at = choose|i: int|
            {
                &&& 0 <= i < keys.len()
                &&& config::named_task_fault(#[trigger] keys[i], config.tasks@[keys[i]]) == Some(
                    error,
                )
                &&& config::tasks_fault(keys.take(i), config.tasks@) is None
            };
        assert(keys.contains(keys[at]));
        assert(config.tasks@.contains_key(keys[at]));
        lemma_task(keys[at], config.tasks@[keys[at]]);
        config::lemma_tasks_faultless(keys.take(at), config.tasks@);
        assert forall|i: int| 0 <= i < at implies sound_task(
            #[trigger] keys[i],
            config.tasks@[keys[i]],
        ) by {
            assert(keys.take(at)[i] == keys[i]);
            lemma_task(keys[i], config.tasks@[keys[i]]);
        }
        assert(is_first_fault(error, config, at));
    } else {
        assert forall|name: Seq<char>| #[trigger]
            config.tasks@.contains_key(name) implies sound_task(name, config.tasks@[name]) by {
            assert(keys.contains(name));
            assert(keys[keys.index_of(name)] == name);
        }
    }
    if sound_config(config) {
        assert forall|i: int| 0 <= i < keys.len() implies config::named_task_fault(
            #[trigger] keys[i],
            config.tasks@[keys[i]],
        ) is None by {
            assert(keys.contains(keys[i]));
        }
    }
}

/// A configuration passes its check just if it may be used, and otherwise the report says of
/// it what is wrong.
pub proof fn lemma_check(config: Config, result: Result<(), ConfigError>)
    requires
        call_ensures(Config::validate, (&config,), result),
    ensures
        result is Ok <==> sound_config(config),
        result matches Err(error) ==> describes(error@, config),
{
    lemma_faults(config);
}

/// A file is loaded just if what it writes may be used, and otherwise the report says what is
/// wrong with what it writes.
pub proof fn lemma_sound_files_are_loaded(
    raw: RawConfig,
    project_root: &str,
    loaded: Result<LoadedConfig, ConfigError>,
)
    requires
        call_ensures(load_config, (raw, project_root), loaded),
    ensures
        match loaded {
            Ok(loaded) => same_config(loaded.config, raw, project_root@) && sound_config(
                loaded.config,
            ),
            Err(error) => exists|config: Config|
                {
                    &&& #[trigger] same_config(config, raw, project_root@)
                    &&& !sound_config(config)
                    &&& describes(error@, config)
                },
        },
{
    match loaded {
        Ok(loaded) => {
            lemma_same_config(raw, project_root@, loaded.config);
            lemma_faults(loaded.config);
        },
        Err(error) => {
            let config = choose|config: Config| #[trigger]
                raw.resolves_to(project_root@, config) && config::config_fault(config) == Some(
                    error@,
                );
            lemma_same_config(raw, project_root@, config);
            lemma_faults(config);
        },
    }
}

/// A task passes its check just if its commands can be run and its variables may be
/// documented as they are.
pub proof fn lemma_task_check(task: Task, name: &str, result: Result<(), ConfigError>)
    requires
        call_ensures(Task::validate, (&task, name), result),
    ensures
        result is Ok <==> {
            &&& sound_run(task.run)
            &&& forall|var: Seq<char>| #[trigger]
                task.vars@.contains_key(var) ==> sound_var(task.run, var, task.vars@[var])
        },
{
    lemma_task_body(name@, task);
}

/// The words of a command pass their check just if they can be run.
pub proof fn lemma_words_check(name: &str, words: &[String], result: Result<(), ConfigError>)
    requires
        call_ensures(validate_argv, (name, words), result),
    ensures
        result is Ok <==> sound_words(words@),
{
    lemma_words(name@, words@);
}

/// A text passes the check of templates just if it can be read as one.
pub proof fn lemma_template_check(
    source: &str,
    parts: Result<Vec<TemplatePart>, TemplateError>,
    result: Result<(), TemplateError>,
)
    requires
        call_ensures(validate_template, (source,), result),
        call_ensures(parse_template, (source,), parts),
    ensures
        match (parts, result) {
            (Ok(_), Ok(())) => true,
            (Err(fault), Err(error)) => fault@ == error@,
            _ => false,
        },
{
}

/// The variables that a task refers to are those that its commands have a place for, each of
/// them once.
pub proof fn lemma_references(
    task: Task,
    client: Result<Vec<String>, TemplateError>,
    env: Result<Vec<String>, TemplateError>,
    name: Seq<char>,
)
    requires
        call_ensures(Task::referenced_client_vars, (&task,), client),
        call_ensures(Task::referenced_env_vars, (&task,), env),
    ensures
        client is Ok <==> all_well_formed(task.run),
        env is Ok <==> all_well_formed(task.run),
        client matches Ok(names) ==> {
            &&& setup::lists(names@, name) <==> mentions(task.run, name)
            &&& forall|i: int, j: int|
                0 <= i < j < names@.len() ==> (#[trigger] names@[i])@ != (#[trigger] names@[j])@
        },
        env matches Ok(names) ==> {
            &&& setup::lists(names@, name) <==> mentions_env(task.run, name)
            &&& forall|i: int, j: int|
                0 <= i < j < names@.len() ==> (#[trigger] names@[i])@ != (#[trigger] names@[j])@
        },
{
    lemma_all_well_formed(task.run);
    if all_well_formed(task.run) {
        lemma_mentions(task.run, name, true);
        lemma_mentions(task.run, name, false);
        config::lemma_referenced(task.run, true);
        config::lemma_referenced(task.run, false);
        let first = client->Ok_0@;
        let second = env->Ok_0@;
        setup::lemma_lists(first, name);
        setup::lemma_lists(second, name);
        assert forall|i: int, j: int| 0 <= i < j < first.len() implies (#[trigger] first[i])@ != (
        #[trigger] first[j])@ by {
            assert(text::texts(first)[i] != text::texts(first)[j]);
        }
        assert forall|i: int, j: int| 0 <= i < j < second.len() implies (#[trigger] second[i])@
            != (#[trigger] second[j])@ by {
            assert(text::texts(second)[i] != text::texts(second)[j]);
        }
    }
}

// ---- where a configuration is found ----

/// A directory that holds a configuration file ends the search, with the file in it; one that
/// holds none leads to the directory above it, or to the report that none was found, which
/// names where the search began.
pub proof fn lemma_search_goes_up(start: &str, dir: &str, present: bool, next: Discovery)
    requires
        call_ensures(discover_step, (start, dir, present), next),
        dir@.len() > 0,
    ensures
        present ==> (next matches Discovery::Found { path } && path@ == sync::with_slash(dir@)
            + ".sshpal.toml"@),
        !present && dir@ == seq!['/'] ==> (next matches Discovery::Missing { error } && error@ == (
        ConfigError::NotFound { start: start@ })),
        forall|names: Seq<Seq<char>>|
            !present && names.len() > 0 && #[trigger] sync::name_entries(names) && dir@ == seq![
                '/',
            ] + text::joined(names, seq!['/']) ==> (next matches Discovery::Ascend { dir: above }
                && above@ == seq!['/'] + text::joined(names.drop_last(), seq!['/'])),
{
    reveal_strlit(".sshpal.toml");
    assert(dir@ + paths::slash() =~= dir@.push('/'));
    if dir@ == seq!['/'] {
        let none = Seq::<Seq<char>>::empty();
        sync::lemma_absolute_components(none);
        assert(seq!['/'] + text::joined(none, seq!['/']) =~= dir@);
        assert(paths::components(dir@) =~= seq![seq!['/']]);
    }
    assert forall|names: Seq<Seq<char>>|
        !present && names.len() > 0 && #[trigger] sync::name_entries(names) && dir@ == seq!['/']
            + text::joined(names, seq!['/']) implies (next matches Discovery::Ascend { dir: above }
        && above@ == seq!['/'] + text::joined(names.drop_last(), seq!['/'])) by {
        sync::lemma_absolute_components(names);
        let list = paths::components(dir@);
        let last = names[names.len() - 1];
        assert(sync::names_entry(last));
        assert(list.last() == last);
        assert(last != paths::slash()) by {
            if last == paths::slash() {
                assert(last[0] == '/');
            }
        }
        assert(list.drop_last() =~= seq![paths::slash()] + names.drop_last());
        assert(list.drop_last().drop_first() =~= names.drop_last());
    }
}

/// The configuration of a directory is its file `.sshpal.toml`.
pub proof fn lemma_config_file(dir: &str, path: String)
    requires
        call_ensures(config_path, (dir,), path),
        dir@.len() > 0,
    ensures
        path@ == sync::with_slash(dir@) + ".sshpal.toml"@,
{
    reveal_strlit(".sshpal.toml");
    assert(dir@ + paths::slash() =~= dir@.push('/'));
}

} // verus!
