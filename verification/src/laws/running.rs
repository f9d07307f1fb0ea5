//! Running a task: the commands that it runs, and what it needs for them.
use vstd::prelude::*;

use crate::cli::{local_end, local_step, prepare_invocation, LocalEnd, LocalOutcome, LocalStep};
use crate::config;
use crate::config::{Task, TaskRun};
use crate::laws::loading;
use crate::laws::setup;
use crate::name_map::NameMap;
use crate::tasks;
use crate::tasks::{
    accept_words, documented_vars, forward_args, parse_invocation_args, prepare_task,
    render_template, task_cwd, DocumentedVar, Environment, InvocationArgs, PreparedTask, TaskError,
};
use crate::template::TemplateError;
use crate::text;
use crate::time_span::TimeSpan;

verus! {

// ---- where and with what a task runs ----

/// Whether two lists hold the same texts.
pub open spec fn same_words(left: Seq<String>, right: Seq<String>) -> bool {
    &&& left.len() == right.len()
    &&& forall|i: int| 0 <= i < left.len() ==> (#[trigger] left[i])@ == right[i]@
}

/// Whether `whole` is `front`, followed by `back`.
pub open spec fn is_followed_by(
    whole: Seq<String>,
    front: Seq<String>,
    back: Seq<String>,
) -> bool {
    &&& whole.len() == front.len() + back.len()
    &&& forall|i: int| 0 <= i < front.len() ==> (#[trigger] whole[i])@ == front[i]@
    &&& forall|i: int|
        0 <= i < back.len() ==> whole[front.len() + i]@ == (#[trigger] back[i])@
}

/// Two lists hold the same texts just if their texts are equal.
pub proof fn lemma_same_words(left: Seq<String>, right: Seq<String>)
    ensures
        same_words(left, right) <==> text::texts(left) == text::texts(right),
{
    let a = text::texts(left);
    let b = text::texts(right);
    assert(a.len() == left.len() && b.len() == right.len());
    if same_words(left, right) {
        assert(a =~= b);
    }
    if a == b {
        assert forall|i: int| 0 <= i < left.len() implies (#[trigger] left[i])@ == right[i]@ by {
            assert(a[i] == left[i]@ && b[i] == right[i]@);
        }
    }
}

proof fn lemma_followed(whole: Seq<String>, front: Seq<String>, back: Seq<String>)
    requires
        text::texts(whole) == text::texts(front) + text::texts(back),
    ensures
        is_followed_by(whole, front, back),
{
    let all = text::texts(whole);
    assert(all.len() == whole.len());
    assert forall|i: int| 0 <= i < front.len() implies (#[trigger] whole[i])@ == front[i]@ by {
        assert(all[i] == whole[i]@);
    }
    assert forall|i: int| 0 <= i < back.len() implies whole[front.len() + i]@ == (
    #[trigger] back[i])@ by {
        assert(all[front.len() + i] == whole[front.len() + i]@);
    }
}

/// Whether a task that is ready to run runs where and with what the configuration says: in
/// the local root or in its own directory, seen from there, with its environment variables
/// and its time limit.
pub open spec fn runs_as_configured(
    prepared: PreparedTask,
    task: Task,
    local_root: Seq<char>,
) -> bool {
    &&& setup::is_task_dir(prepared.cwd@, local_root, task.cwd)
    &&& prepared.env@ == task.env@
    &&& prepared.timeout == task.timeout
}

/// A task runs where and with what the configuration says, whatever it is invoked with.
pub proof fn lemma_task_runs_as_configured(
    task_name: &str,
    task: Task,
    local_root: &str,
    vars: NameMap<String>,
    forwarded: &[String],
    env: Environment,
    prepared: Result<PreparedTask, TaskError>,
)
    requires
        call_ensures(prepare_task, (task_name, &task, local_root, &vars, forwarded, &env), prepared),
    ensures
        prepared matches Ok(prepared) ==> {
            &&& runs_as_configured(prepared, task, local_root@)
            &&& task.cwd is None ==> prepared.cwd@ == local_root@
        },
{
    if let Ok(prepared) = prepared {
        setup::lemma_task_dir(local_root@, task, prepared.cwd@);
    }
}

/// The directory of a task is the local root, or its own directory, seen from there.
pub proof fn lemma_task_cwd(local_root: &str, task: Task, cwd: String)
    requires
        call_ensures(task_cwd, (local_root, &task), cwd),
    ensures
        setup::is_task_dir(cwd@, local_root@, task.cwd),
{
    setup::lemma_task_dir(local_root@, task, cwd@);
}

// ---- forwarded arguments ----

/// Whether `more` are the commands `steps`, with `args` behind the words of the last one.
pub open spec fn last_has_more(
    more: Seq<Vec<String>>,
    steps: Seq<Vec<String>>,
    args: Seq<String>,
) -> bool {
    &&& more.len() == steps.len()
    &&& forall|i: int|
        0 <= i < steps.len() - 1 ==> same_words((#[trigger] more[i])@, steps[i]@)
    &&& steps.len() > 0 ==> is_followed_by(more.last()@, steps.last()@, args)
}

proof fn lemma_with_forwarded(
    more: Seq<Vec<String>>,
    steps: Seq<Vec<String>>,
    args: Seq<String>,
)
    requires
        text::rows(more) == tasks::with_forwarded(text::rows(steps), text::texts(args)),
    ensures
        last_has_more(more, steps, args),
{
    let all = text::rows(more);
    let given = text::rows(steps);
    assert(all.len() == more.len());
    if steps.len() > 0 {
        assert(all.len() == given.len());
        assert forall|i: int| 0 <= i < steps.len() - 1 implies same_words(
            (#[trigger] more[i])@,
            steps[i]@,
        ) by {
            assert(all[i] == text::texts(more[i]@));
            assert(all[i] == given[i]);
            lemma_same_words(more[i]@, steps[i]@);
        }
        let end = steps.len() - 1;
        assert(all[end] == text::texts(more[end]@));
        assert(given.last() == text::texts(steps[end]@));
        assert(all[end] == given.last() + text::texts(args));
        lemma_followed(more.last()@, steps.last()@, args);
    }
}

/// Arguments are added behind the words of the last command, and nowhere else.
pub proof fn lemma_arguments_go_to_the_last(
    steps: Vec<Vec<String>>,
    args: &[String],
    result: Vec<Vec<String>>,
)
    requires
        call_ensures(forward_args, (steps, args), result),
    ensures
        last_has_more(result@, steps@, args@),
{
    lemma_with_forwarded(result@, steps@, args@);
}

/// Forwarded arguments change nothing but the last command: a task of any form can be
/// prepared with them just if it can be prepared without any, its last command then has
/// exactly these arguments behind its own words, and all else is the same.
pub proof fn lemma_arguments_are_forwarded(
    task_name: &str,
    task: Task,
    local_root: &str,
    vars: NameMap<String>,
    forwarded: &[String],
    none: &[String],
    env: Environment,
    with: Result<PreparedTask, TaskError>,
    without: Result<PreparedTask, TaskError>,
)
    requires
        none@.len() == 0,
        call_ensures(prepare_task, (task_name, &task, local_root, &vars, forwarded, &env), with),
        call_ensures(prepare_task, (task_name, &task, local_root, &vars, none, &env), without),
    ensures
        match (with, without) {
            (Ok(with), Ok(without)) => {
                &&& last_has_more(with.steps@, without.steps@, forwarded@)
                &&& with.cwd@ == without.cwd@
                &&& with.env@ == without.env@
                &&& with.timeout == without.timeout
            },
            (Err(with), Err(without)) => with@ == without@,
            _ => false,
        },
{
    let given = text::map_texts(vars@);
    let args = text::texts(forwarded@);
    let nothing = text::texts(none@);
    assert(nothing =~= Seq::<Seq<char>>::empty());
    if let (Ok(with), Ok(without)) = (with, without) {
        let bare = tasks::run_words(task_name@, task.run, given, env@.texts)->Ok_0;
        if bare.len() > 0 {
            tasks::lemma_forwarded_to_last(bare, nothing);
        }
        assert(text::rows(without.steps@) == bare);
        lemma_with_forwarded(with.steps@, without.steps@, forwarded@);
    }
}

// ---- what the commands are filled with ----

/// Whether `word` is what stands for the template `source` of a task: what filling its
/// placeholders gives.
pub open spec fn fills(
    word: Seq<char>,
    source: Seq<char>,
    task_name: &str,
    task: Task,
    vars: NameMap<String>,
    env: Environment,
) -> bool {
    forall|text: &str, filled: Result<String, TaskError>|
        text@ == source && #[trigger] call_ensures(
            render_template,
            (task_name, text, &task, &vars, &env),
            filled,
        ) ==> (filled matches Ok(filled) && filled@ == word)
}

/// Whether the first words of `words` are what stands for `sources`, each in its place, and
/// what follows them is `args`.
pub open spec fn fills_all(
    words: Seq<String>,
    sources: Seq<String>,
    args: Seq<String>,
    task_name: &str,
    task: Task,
    vars: NameMap<String>,
    env: Environment,
) -> bool {
    &&& words.len() == sources.len() + args.len()
    &&& forall|i: int|
        0 <= i < sources.len() ==> fills(
            (#[trigger] words[i])@,
            sources[i]@,
            task_name,
            task,
            vars,
            env,
        )
    &&& forall|i: int| 0 <= i < args.len() ==> words[sources.len() + i]@ == (#[trigger] args[i])@
}

proof fn lemma_fills(
    source: Seq<char>,
    task_name: &str,
    task: Task,
    vars: NameMap<String>,
    env: Environment,
)
    requires
        tasks::resolvable(source, task, vars@.dom(), env.texts@.dom()),
    ensures
        fills(
            tasks::rendered(source, text::map_texts(vars@), env@.texts),
            source,
            task_name,
            task,
            vars,
            env,
        ),
{
    let word = tasks::rendered(source, text::map_texts(vars@), env@.texts);
    assert forall|text: &str, filled: Result<String, TaskError>|
        text@ == source && #[trigger] call_ensures(
            render_template,
            (task_name, text, &task, &vars, &env),
            filled,
        ) implies (filled matches Ok(filled) && filled@ == word) by {
        assert(filled is Ok);
    }
}

proof fn lemma_fills_all(
    words: Seq<String>,
    sources: Seq<String>,
    args: Seq<String>,
    task_name: &str,
    task: Task,
    vars: NameMap<String>,
    env: Environment,
)
    requires
        text::texts(words) == tasks::rendered_all(
            text::texts(sources),
            text::map_texts(vars@),
            env@.texts,
        ) + text::texts(args),
        forall|i: int|
            0 <= i < sources.len() ==> tasks::resolvable(
                (#[trigger] sources[i])@,
                task,
                vars@.dom(),
                env.texts@.dom(),
            ),
    ensures
        fills_all(words, sources, args, task_name, task, vars, env),
{
    let all = text::texts(words);
    let given = text::texts(sources);
    assert(all.len() == words.len());
    assert(given.len() == sources.len());
    assert forall|i: int| 0 <= i < sources.len() implies fills(
        (#[trigger] words[i])@,
        sources[i]@,
        task_name,
        task,
        vars,
        env,
    ) by {
        assert(all[i] == words[i]@);
        assert(given[i] == sources[i]@);
        lemma_fills(sources[i]@, task_name, task, vars, env);
    }
    assert forall|i: int| 0 <= i < args.len() implies words[sources.len() + i]@ == (
    #[trigger] args[i])@ by {
        assert(all[sources.len() + i] == words[sources.len() + i]@);
        assert(text::texts(args)[i] == args[i]@);
    }
}

/// A task runs its own commands, one for one and in order: every word of a command is the
/// word of the configuration with its placeholders filled. A command line is filled first and
/// then split into words, of which there is at least one. The forwarded arguments stand behind
/// the last command.
pub proof fn lemma_commands_are_filled(
    task_name: &str,
    task: Task,
    local_root: &str,
    vars: NameMap<String>,
    forwarded: &[String],
    env: Environment,
    prepared: Result<PreparedTask, TaskError>,
)
    requires
        call_ensures(prepare_task, (task_name, &task, local_root, &vars, forwarded, &env), prepared),
    ensures
        prepared matches Ok(prepared) ==> {
            let steps = prepared.steps@;
            match task.run {
                TaskRun::String(line) => {
                    &&& steps.len() == 1
                    &&& exists|filled: Seq<char>, words: Seq<Seq<char>>|
                        {
                            &&& fills(filled, line@, task_name, task, vars, env)
                            &&& #[trigger] tasks::shell_split(filled) == Some(words)
                            &&& words.len() > 0
                            &&& steps[0]@.len() == #[trigger] words.len() + forwarded@.len()
                            &&& forall|i: int|
                                0 <= i < words.len() ==> (#[trigger] steps[0]@[i])@ == words[i]
                            &&& forall|i: int|
                                0 <= i < forwarded@.len() ==> steps[0]@[words.len() + i]@ == (
                                #[trigger] forwarded@[i])@
                        }
                },
                TaskRun::Command(argv) => {
                    &&& steps.len() == 1
                    &&& fills_all(steps[0]@, argv@, forwarded@, task_name, task, vars, env)
                },
                TaskRun::Sequence(rows) => {
                    &&& steps.len() == rows@.len()
                    &&& forall|i: int|
                        0 <= i < steps.len() ==> fills_all(
                            (#[trigger] steps[i])@,
                            rows@[i]@,
                            if i == steps.len() - 1 {
                                forwarded@
                            } else {
                                Seq::empty()
                            },
                            task_name,
                            task,
                            vars,
                            env,
                        )
                },
            }
        },
{
    if let Ok(prepared) = prepared {
        let given = text::map_texts(vars@);
        let around = env@;
        let args = text::texts(forwarded@);
        let steps = prepared.steps@;
        let all = text::rows(steps);
        assert(all.len() == steps.len());
        assert(given.dom() =~= vars@.dom());
        assert(around.texts.dom() =~= env.texts@.dom());
        tasks::lemma_words_resolvable(task_name@, task, given.dom(), around);
        let sources = config::run_steps(task.run);
        let bare = tasks::run_words(task_name@, task.run, given, around.texts)->Ok_0;
        assert(all == tasks::with_forwarded(bare, args));
        assert forall|i: int| 0 <= i < steps.len() implies all[i] == text::texts(
            (#[trigger] steps[i])@,
        ) by {}
        match task.run {
            TaskRun::String(line) => {
                let filled = tasks::rendered(line@, given, around.texts);
                let words = tasks::shell_split(filled)->0;
                assert(sources[0][0] == line@);
                lemma_fills(line@, task_name, task, vars, env);
                assert(bare == seq![words]);
                assert(all[0] == words + args);
                assert(all[0] == text::texts(steps[0]@));
                assert(args.len() == forwarded@.len());
                assert(steps[0]@.len() == words.len() + forwarded@.len());
                assert forall|i: int| 0 <= i < words.len() implies (#[trigger] steps[0]@[i])@
                    == words[i] by {
                    assert(all[0][i] == steps[0]@[i]@);
                }
                assert forall|i: int| 0 <= i < forwarded@.len() implies steps[0]@[words.len()
                    + i]@ == (#[trigger] forwarded@[i])@ by {
                    assert(all[0][words.len() + i] == steps[0]@[words.len() + i]@);
                    assert(args[i] == forwarded@[i]@);
                }
                assert(tasks::shell_split(filled) == Some(words));
            },
            TaskRun::Command(argv) => {
                assert(bare == seq![tasks::rendered_all(text::texts(argv@), given, around.texts)]);
                assert(all[0] == bare[0] + args);
                assert forall|i: int| 0 <= i < argv@.len() implies tasks::resolvable(
                    (#[trigger] argv@[i])@,
                    task,
                    vars@.dom(),
                    env.texts@.dom(),
                ) by {
                    assert(sources[0][i] == argv@[i]@);
                }
                lemma_fills_all(steps[0]@, argv@, forwarded@, task_name, task, vars, env);
            },
            TaskRun::Sequence(rows) => {
                assert forall|i: int| 0 <= i < steps.len() implies fills_all(
                    (#[trigger] steps[i])@,
                    rows@[i]@,
                    if i == steps.len() - 1 {
                        forwarded@
                    } else {
                        Seq::empty()
                    },
                    task_name,
                    task,
                    vars,
                    env,
                ) by {
                    let row = rows@[i]@;
                    let none = Seq::<String>::empty();
                    assert(text::rows(rows@)[i] == text::texts(row));
                    assert(bare[i] == tasks::rendered_all(
                        text::texts(row),
                        given,
                        around.texts,
                    ));
                    assert(text::texts(none) =~= Seq::<Seq<char>>::empty());
                    assert forall|j: int| 0 <= j < row.len() implies tasks::resolvable(
                        (#[trigger] row[j])@,
                        task,
                        vars@.dom(),
                        env.texts@.dom(),
                    ) by {
                        assert(sources[i][j] == row[j]@);
                    }
                    if i == steps.len() - 1 {
                        assert(all[i] == bare[i] + args);
                        lemma_fills_all(steps[i]@, row, forwarded@, task_name, task, vars, env);
                    } else {
                        assert(all[i] == bare[i]);
                        assert(bare[i] + text::texts(none) =~= bare[i]);
                        lemma_fills_all(steps[i]@, row, none, task_name, task, vars, env);
                    }
                }
            },
        }
    }
}

// ---- what a task needs ----

/// Whether a task can do without the variable `name`.
pub open spec fn can_spare(task: Task, name: Seq<char>) -> bool {
    task.vars@.contains_key(name) && task.vars@[name].optional
}

/// Whether a task knows the variable `name`: it documents it, or has a place for it.
pub open spec fn knows(task: Task, name: Seq<char>) -> bool {
    task.vars@.contains_key(name) || loading::mentions(task.run, name)
}

proof fn lemma_missing(list: Seq<DocumentedVar<Seq<char>>>, given: Set<Seq<char>>)
    ensures
        tasks::first_missing(list, given) matches Some(name) ==> exists|i: int|
            {
                &&& 0 <= i < list.len()
                &&& (#[trigger] list[i]).name == name
                &&& !list[i].optional
                &&& !given.contains(name)
                &&& forall|j: int|
                    0 <= j < i ==> (#[trigger] list[j]).optional || given.contains(list[j].name)
            },
        tasks::first_missing(list, given) is None ==> forall|j: int|
            0 <= j < list.len() ==> (#[trigger] list[j]).optional || given.contains(list[j].name),
    decreases list.len(),
{
    if list.len() > 0 {
        let short = list.drop_last();
        lemma_missing(short, given);
        let end = list.len() - 1;
        assert(list[end] == list.last());
        if let Some(name) = tasks::first_missing(short, given) {
            let at = choose|i: int|
                {
                    &&& 0 <= i < short.len()
                    &&& (#[trigger] short[i]).name == name
                    &&& !short[i].optional
                    &&& !given.contains(name)
                    &&& forall|j: int|
                        0 <= j < i ==> (#[trigger] short[j]).optional || given.contains(
                            short[j].name,
                        )
                };
            assert(list[at] == short[at]);
            assert forall|j: int| 0 <= j < at implies (#[trigger] list[j]).optional
                || given.contains(list[j].name) by {
                assert(list[j] == short[j]);
            }
        } else {
            assert forall|j: int| 0 <= j < end implies (#[trigger] list[j]).optional
                || given.contains(list[j].name) by {
                assert(list[j] == short[j]);
            }
        }
    }
}

proof fn lemma_absent(names: Seq<Seq<char>>, given: Set<Seq<char>>)
    ensures
        tasks::first_absent(names, given) matches Some(name) ==> names.contains(name)
            && !given.contains(name),
    decreases names.len(),
{
    if names.len() > 0 {
        let short = names.drop_last();
        lemma_absent(short, given);
        assert(names[names.len() - 1] == names.last());
        if let Some(name) = tasks::first_absent(short, given) {
            assert(names[short.index_of(name)] == name);
        }
    }
}

/// Whether a task is given all that it needs.
pub open spec fn is_complete(task: Task, vars: NameMap<String>, env: Environment) -> bool {
    &&& forall|name: Seq<char>| #[trigger]
        knows(task, name) ==> vars@.contains_key(name) || can_spare(task, name)
    &&& forall|name: Seq<char>| #[trigger]
        loading::mentions_env(task.run, name) ==> env.texts@.contains_key(name)
}

/// Whether `error` says of the task `task_name` what it lacks.
pub open spec fn describes_need(
    error: TaskError<Seq<char>>,
    task_name: Seq<char>,
    task: Task,
    vars: NameMap<String>,
    env: Environment,
) -> bool {
    match error {
        TaskError::MissingVar { task: told, name } => {
            &&& told == task_name
            &&& knows(task, name)
            &&& !can_spare(task, name)
            &&& !vars@.contains_key(name)
            &&& forall|other: Seq<char>|
                #[trigger] knows(task, other) && !can_spare(task, other) && !vars@.contains_key(
                    other,
                ) ==> other == name || text::text_before(name, other)
        },
        TaskError::MissingEnvVar { task: told, name, .. } => {
            &&& told == task_name
            &&& forall|other: Seq<char>| #[trigger]
                knows(task, other) ==> vars@.contains_key(other) || can_spare(task, other)
            &&& loading::mentions_env(task.run, name)
            &&& !env.texts@.contains_key(name)
        },
        TaskError::InvalidCommandString { task: told } => {
            &&& told == task_name
            &&& is_complete(task, vars, env)
            &&& task.run is String
        },
        TaskError::EmptyCommandString { task: told } => {
            &&& told == task_name
            &&& is_complete(task, vars, env)
            &&& task.run is String
        },
        _ => false,
    }
}

/// A task whose words are all templates is prepared just if it is given every variable that
/// it knows and cannot spare, and every environment variable that it has a place for is set.
/// Only a command line may still fail to split into words. The report names a variable that is
/// really missing, the first one of those by name. A task with a word that is no template is never prepared.
pub proof fn lemma_task_gets_what_it_needs(
    task_name: &str,
    task: Task,
    local_root: &str,
    vars: NameMap<String>,
    forwarded: &[String],
    env: Environment,
    prepared: Result<PreparedTask, TaskError>,
)
    requires
        call_ensures(prepare_task, (task_name, &task, local_root, &vars, forwarded, &env), prepared),
    ensures
        !loading::all_well_formed(task.run) ==> (prepared matches Err(error)
            && error@ is InvalidTemplate),
        loading::all_well_formed(task.run) ==> match prepared {
            Ok(_) => is_complete(task, vars, env),
            Err(error) => describes_need(error@, task_name@, task, vars, env),
        },
{
    loading::lemma_all_well_formed(task.run);
    if loading::all_well_formed(task.run) {
        lemma_needs(task_name, task, local_root, vars, forwarded, env, prepared);
    }
}

proof fn lemma_needs(
    task_name: &str,
    task: Task,
    local_root: &str,
    vars: NameMap<String>,
    forwarded: &[String],
    env: Environment,
    prepared: Result<PreparedTask, TaskError>,
)
    requires
        call_ensures(prepare_task, (task_name, &task, local_root, &vars, forwarded, &env), prepared),
        config::first_fault(config::run_templates(task.run)) is None,
    ensures
        match prepared {
            Ok(_) => is_complete(task, vars, env),
            Err(error) => describes_need(error@, task_name@, task, vars, env),
        },
{
    let given = text::map_texts(vars@);
    let around = env@;
    let mentioned = config::referenced(task.run, true)->Ok_0;
    let needed = config::referenced(task.run, false)->Ok_0;
    assert(given.dom() =~= vars@.dom());
    assert(around.texts.dom() =~= env.texts@.dom());
    tasks::lemma_inputs_suffice(task_name@, task, given.dom(), around);
    let list = tasks::var_listing(task, mentioned);
    tasks::lemma_var_listing(task, mentioned);
    assert forall|name: Seq<char>| #[trigger] knows(task, name) <==> task.vars@.contains_key(name)
        || mentioned.contains(name) by {
        loading::lemma_mentions(task.run, name, true);
    }
    assert forall|name: Seq<char>|
        needed.contains(name) <==> #[trigger] loading::mentions_env(task.run, name) by {
        loading::lemma_mentions(task.run, name, false);
    }
    assert forall|name: Seq<char>|
        #[trigger] can_spare(task, name) == tasks::var_entry(task, name).optional by {}
    lemma_missing(list, given.dom());
    lemma_absent(needed, around.texts.dom());
    match tasks::inputs_fault(task_name@, task, given.dom(), around) {
        None => {
            assert forall|name: Seq<char>| #[trigger] knows(task, name) implies vars@.contains_key(
                name,
            ) || can_spare(task, name) by {
                assert(tasks::var_entry(task, name).optional == can_spare(task, name));
            }
        },
        Some(error) => {
            if let Some(name) = tasks::first_missing(list, given.dom()) {
                let at = choose|i: int|
                    {
                        &&& 0 <= i < list.len()
                        &&& (#[trigger] list[i]).name == name
                        &&& !list[i].optional
                        &&& !given.dom().contains(name)
                        &&& forall|j: int|
                            0 <= j < i ==> (#[trigger] list[j]).optional || given.dom().contains(
                                list[j].name,
                            )
                    };
                assert(list[at] == tasks::var_entry(task, name));
                assert(knows(task, name));
                assert(!can_spare(task, name));
                assert forall|other: Seq<char>|
                    #[trigger] knows(task, other) && !can_spare(task, other)
                        && !vars@.contains_key(other) implies other == name || text::text_before(
                    name,
                    other,
                ) by {
                    let entry = tasks::var_entry(task, other);
                    assert(list.contains(entry));
                    let place = list.index_of(entry);
                    assert(list[place] == entry);
                    assert(!entry.optional);
                    if place < at {
                        assert(list[place].optional || given.dom().contains(list[place].name));
                    } else if at < place {
                        assert(list[at].optional == list[place].optional);
                    }
                }
            } else {
                assert forall|other: Seq<char>| #[trigger]
                    knows(task, other) implies vars@.contains_key(other) || can_spare(
                    task,
                    other,
                ) by {
                    let entry = tasks::var_entry(task, other);
                    assert(list.contains(entry));
                    let place = list.index_of(entry);
                    assert(list[place] == entry);
                }
            }
        },
    }
}

/// Whether `var` is the entry of one of the variables of a task, with what the configuration
/// says of it.
pub open spec fn tells_of(var: DocumentedVar, task: Task) -> bool {
    let name = var.name@;
    &&& knows(task, name)
    &&& var.documented == task.vars@.contains_key(name)
    &&& var.optional == can_spare(task, name)
    &&& if var.documented {
        match (var.description, task.vars@[name].description) {
            (Some(told), Some(given)) => told@ == given@,
            (None, None) => true,
            _ => false,
        }
    } else {
        var.description is None
    }
}

/// The variables of a task are all that it knows, each once, with what the configuration says
/// of it; those that it needs come first, and both groups are in the order of the names.
pub proof fn lemma_all_variables_are_listed(
    task: Task,
    vars: Result<Vec<DocumentedVar>, TemplateError>,
)
    requires
        call_ensures(documented_vars, (&task,), vars),
    ensures
        !loading::all_well_formed(task.run) ==> vars is Err,
        loading::all_well_formed(task.run) ==> {
            &&& vars matches Ok(vars)
            &&& forall|i: int| 0 <= i < vars@.len() ==> tells_of(#[trigger] vars@[i], task)
            &&& forall|name: Seq<char>| #[trigger]
                knows(task, name) ==> exists|i: int|
                    0 <= i < vars@.len() && (#[trigger] vars@[i]).name@ == name
            &&& forall|i: int, j: int|
                0 <= i < j < vars@.len() ==> {
                    ||| !(#[trigger] vars@[i]).optional && (#[trigger] vars@[j]).optional
                    ||| vars@[i].optional == vars@[j].optional && text::text_before(
                        vars@[i].name@,
                        vars@[j].name@,
                    )
                }
        },
{
    loading::lemma_all_well_formed(task.run);
    if loading::all_well_formed(task.run) {
        lemma_listed(task, vars);
    }
}

proof fn lemma_listed(task: Task, vars: Result<Vec<DocumentedVar>, TemplateError>)
    requires
        call_ensures(documented_vars, (&task,), vars),
        config::first_fault(config::run_templates(task.run)) is None,
    ensures
        vars is Ok,
        ({
            let found = vars->Ok_0@;
            &&& forall|i: int| 0 <= i < found.len() ==> tells_of(#[trigger] found[i], task)
            &&& forall|name: Seq<char>| #[trigger]
                knows(task, name) ==> exists|i: int|
                    0 <= i < found.len() && (#[trigger] found[i]).name@ == name
            &&& forall|i: int, j: int|
                0 <= i < j < found.len() ==> {
                    ||| !(#[trigger] found[i]).optional && (#[trigger] found[j]).optional
                    ||| found[i].optional == found[j].optional && text::text_before(
                        found[i].name@,
                        found[j].name@,
                    )
                }
        }),
{
    let mentioned = config::referenced(task.run, true)->Ok_0;
    config::lemma_referenced(task.run, true);
    tasks::lemma_var_listing(task, mentioned);
    let list = tasks::var_listing(task, mentioned);
    let found = vars->Ok_0@;
    assert(vars is Ok);
    assert(list == tasks::var_views(found));
    assert(list.len() == found.len());
    assert forall|i: int| 0 <= i < found.len() implies list[i] == (#[trigger] found[i])@ by {}
    assert forall|name: Seq<char>| #[trigger] knows(task, name) <==> task.vars@.contains_key(name)
        || mentioned.contains(name) by {
        loading::lemma_mentions(task.run, name, true);
    }
    assert forall|i: int| 0 <= i < found.len() implies tells_of(#[trigger] found[i], task) by {
        assert(list[i] == found[i]@);
        assert(list[i] == tasks::var_entry(task, list[i].name));
        assert(knows(task, found[i].name@));
    }
    assert forall|name: Seq<char>| #[trigger] knows(task, name) implies exists|i: int|
        0 <= i < found.len() && (#[trigger] found[i]).name@ == name by {
        let entry = tasks::var_entry(task, name);
        assert(list.contains(entry));
        let at = list.index_of(entry);
        assert(list[at] == found[at]@);
        assert(found[at].name@ == name);
    }
    assert forall|i: int, j: int| 0 <= i < j < found.len() implies {
        ||| !(#[trigger] found[i]).optional && (#[trigger] found[j]).optional
        ||| found[i].optional == found[j].optional && text::text_before(
            found[i].name@,
            found[j].name@,
        )
    } by {
        assert(list[i] == found[i]@ && list[j] == found[j]@);
    }
}

// ---- the arguments of an invocation ----

/// Whether `arg` gives `value` to the variable `name`: `name=value`, where the name holds no
/// `=`.
pub open spec fn gives(arg: Seq<char>, name: Seq<char>, value: Seq<char>) -> bool {
    &&& arg == name.push('=') + value
    &&& forall|i: int| 0 <= i < name.len() ==> #[trigger] name[i] != '='
}

proof fn lemma_gives(arg: Seq<char>, name: Seq<char>, value: Seq<char>)
    requires
        gives(arg, name, value),
    ensures
        arg.contains('='),
        tasks::pair_name(arg) == name,
        tasks::pair_value(arg) == value,
{
    let at = name.len() as int;
    assert(arg[at] == '=');
    assert forall|i: int| 0 <= i < at implies arg[i] != '=' by {
        assert(arg[i] == name[i]);
    }
    tasks::lemma_equals_sign(arg, 0);
    assert(tasks::equals_sign(arg, 0) == at);
    assert(arg.take(at) =~= name);
    assert(arg.skip(at + 1) =~= value);
}

proof fn lemma_pair_gives(arg: Seq<char>)
    requires
        arg.contains('='),
    ensures
        gives(arg, tasks::pair_name(arg), tasks::pair_value(arg)),
{
    tasks::lemma_equals_sign(arg, 0);
    let at = tasks::equals_sign(arg, 0);
    let name = tasks::pair_name(arg);
    let value = tasks::pair_value(arg);
    assert(arg =~= name.push('=') + value);
}

proof fn lemma_pairs_hold(args: Seq<Seq<char>>)
    ensures
        tasks::pairs_fault(args) is None <==> forall|i: int|
            0 <= i < args.len() ==> tasks::pair_fault(#[trigger] args[i]) is None,
        tasks::pairs_fault(args) matches Some(error) ==> exists|i: int|
            0 <= i < args.len() && tasks::pair_fault(#[trigger] args[i]) == Some(error),
        forall|name: Seq<char>| #[trigger]
            tasks::pair_vars(args).contains_key(name) ==> exists|i: int|
                {
                    &&& 0 <= i < args.len()
                    &&& tasks::pair_name(#[trigger] args[i]) == name
                    &&& tasks::pair_vars(args)[name] == tasks::pair_value(args[i])
                    &&& forall|j: int|
                        i < j < args.len() ==> tasks::pair_name(#[trigger] args[j]) != name
                },
        forall|i: int|
            0 <= i < args.len() ==> tasks::pair_vars(args).contains_key(
                tasks::pair_name(#[trigger] args[i]),
            ),
    decreases args.len(),
{
    if args.len() > 0 {
        let short = args.drop_last();
        let last = args.last();
        let end = args.len() - 1;
        lemma_pairs_hold(short);
        assert(args[end] == last);
        assert forall|i: int| 0 <= i < short.len() implies #[trigger] short[i] == args[i] by {}
        if let Some(error) = tasks::pairs_fault(short) {
            let at = choose|i: int|
                0 <= i < short.len() && tasks::pair_fault(#[trigger] short[i]) == Some(error);
            assert(tasks::pair_fault(args[at]) == Some(error));
        } else {
            assert forall|i: int| 0 <= i < short.len() implies tasks::pair_fault(
                #[trigger] args[i],
            ) is None by {
                assert(tasks::pair_fault(short[i]) is None);
            }
        }
        let vars = tasks::pair_vars(args);
        let held = tasks::pair_vars(short);
        assert forall|name: Seq<char>| #[trigger] vars.contains_key(name) implies exists|i: int|
            {
                &&& 0 <= i < args.len()
                &&& tasks::pair_name(#[trigger] args[i]) == name
                &&& vars[name] == tasks::pair_value(args[i])
                &&& forall|j: int|
                    i < j < args.len() ==> tasks::pair_name(#[trigger] args[j]) != name
            } by {
            if name == tasks::pair_name(last) {
                assert(tasks::pair_name(args[end]) == name);
            } else {
                assert(held.contains_key(name));
                let at = choose|i: int|
                    {
                        &&& 0 <= i < short.len()
                        &&& tasks::pair_name(#[trigger] short[i]) == name
                        &&& held[name] == tasks::pair_value(short[i])
                        &&& forall|j: int|
                            i < j < short.len() ==> tasks::pair_name(#[trigger] short[j]) != name
                    };
                assert(tasks::pair_name(args[at]) == name);
                assert forall|j: int| at < j < args.len() implies tasks::pair_name(
                    #[trigger] args[j],
                ) != name by {
                    if j < short.len() {
                        assert(tasks::pair_name(short[j]) != name);
                    }
                }
            }
        }
        assert forall|i: int| 0 <= i < args.len() implies vars.contains_key(
            tasks::pair_name(#[trigger] args[i]),
        ) by {
            if i < short.len() {
                assert(held.contains_key(tasks::pair_name(short[i])));
            }
        }
    }
}

/// Whether the arguments before `place` are all before the first `--`, which stands at
/// `place`, or is nowhere where `place` is the end.
pub open spec fn ends_variables(args: Seq<String>, place: int) -> bool {
    &&& 0 <= place <= args.len()
    &&& forall|i: int| 0 <= i < place ==> (#[trigger] args[i])@ != seq!['-', '-']
    &&& place < args.len() ==> args[place]@ == seq!['-', '-']
}

/// Whether `arg` is `name=value` with a valid name, and `vars` has a value for that name.
pub open spec fn sets_one(arg: Seq<char>, vars: Map<Seq<char>, String>) -> bool {
    exists|name: Seq<char>, value: Seq<char>|
        {
            &&& #[trigger] gives(arg, name, value)
            &&& text::is_name(name)
            &&& vars.contains_key(name)
        }
}

/// Whether one of the first `place` arguments gives `value` to the variable `name`, and none
/// of those behind it gives it another one.
pub open spec fn is_last_given(
    args: Seq<String>,
    place: int,
    name: Seq<char>,
    value: Seq<char>,
) -> bool {
    exists|i: int|
        {
            &&& 0 <= i < place
            &&& gives((#[trigger] args[i])@, name, value)
            &&& forall|j: int, other: Seq<char>|
                i < j < place ==> !#[trigger] gives(args[j]@, name, other)
        }
}

/// Whether `error` says what is wrong with an argument that should be `name=value`.
pub open spec fn describes_argument(error: TaskError<Seq<char>>, arg: Seq<char>) -> bool {
    match error {
        TaskError::InvalidArgument { arg: told } => told == arg && !arg.contains('='),
        TaskError::InvalidVariable { name } => {
            &&& exists|value: Seq<char>| #[trigger] gives(arg, name, value)
            &&& !text::is_name(name)
        },
        _ => false,
    }
}

proof fn lemma_describes_argument(error: TaskError<Seq<char>>, arg: Seq<char>)
    requires
        tasks::pair_fault(arg) == Some(error),
    ensures
        describes_argument(error, arg),
{
    if arg.contains('=') {
        lemma_pair_gives(arg);
        assert(gives(arg, tasks::pair_name(arg), tasks::pair_value(arg)));
    }
}

proof fn lemma_sets_one(arg: Seq<char>, vars: Map<Seq<char>, String>)
    requires
        tasks::pair_fault(arg) is None,
        vars.contains_key(tasks::pair_name(arg)),
    ensures
        sets_one(arg, vars),
{
    lemma_pair_gives(arg);
}

proof fn lemma_last_given(args: Seq<String>, place: int, at: int, name: Seq<char>, value: Seq<char>)
    requires
        0 <= at < place <= args.len(),
        args[at]@.contains('='),
        tasks::pair_name(args[at]@) == name,
        tasks::pair_value(args[at]@) == value,
        forall|j: int| at < j < place ==> tasks::pair_name((#[trigger] args[j])@) != name,
    ensures
        is_last_given(args, place, name, value),
{
    lemma_pair_gives(args[at]@);
    assert forall|j: int, other: Seq<char>| at < j < place implies !#[trigger] gives(
        args[j]@,
        name,
        other,
    ) by {
        if gives(args[j]@, name, other) {
            lemma_gives(args[j]@, name, other);
        }
    }
}

/// What stands before the first `--` sets variables, of which the last value for a name holds,
/// and what stands behind it is forwarded as it is. An argument before it that is not
/// `name=value` with a valid name is refused, and nothing else is.
pub proof fn lemma_arguments_are_read(
    args: &[String],
    place: int,
    parsed: Result<InvocationArgs, TaskError>,
)
    requires
        call_ensures(parse_invocation_args, (args,), parsed),
        ends_variables(args@, place),
    ensures
        match parsed {
            Ok(parsed) => {
                &&& place < args@.len() ==> same_words(
                    parsed.forwarded_args@,
                    args@.skip(place + 1),
                )
                &&& place == args@.len() ==> parsed.forwarded_args@.len() == 0
                &&& forall|i: int|
                    0 <= i < place ==> sets_one((#[trigger] args@[i])@, parsed.vars@)
                &&& forall|name: Seq<char>| #[trigger]
                    parsed.vars@.contains_key(name) ==> is_last_given(
                        args@,
                        place,
                        name,
                        parsed.vars@[name]@,
                    )
            },
            Err(error) => exists|i: int|
                0 <= i < place && describes_argument(error@, (#[trigger] args@[i])@),
        },
{
    let all = text::texts(args@);
    assert(all.len() == args@.len());
    assert forall|i: int| 0 <= i < all.len() implies all[i] == (#[trigger] args@[i])@ by {}
    assert forall|i: int| 0 <= i < place implies all[i] != tasks::separator() by {
        assert(args@[i]@ == all[i]);
    }
    tasks::lemma_separator_place(all, 0, place);
    let front = all.take(place);
    lemma_pairs_hold(front);
    assert forall|i: int| 0 <= i < place implies front[i] == (#[trigger] args@[i])@ by {}
    match parsed {
        Ok(parsed) => {
            let vars = text::map_texts(parsed.vars@);
            assert(vars == tasks::pair_vars(front));
            if place < args@.len() {
                assert(text::texts(args@.skip(place + 1)) =~= all.skip(place + 1));
                lemma_same_words(parsed.forwarded_args@, args@.skip(place + 1));
            } else {
                assert(text::texts(parsed.forwarded_args@).len() == parsed.forwarded_args@.len());
            }
            assert forall|i: int| 0 <= i < place implies sets_one(
                (#[trigger] args@[i])@,
                parsed.vars@,
            ) by {
                assert(front[i] == args@[i]@);
                assert(vars.contains_key(tasks::pair_name(front[i])));
                lemma_sets_one(front[i], parsed.vars@);
            }
            assert forall|name: Seq<char>| #[trigger]
                parsed.vars@.contains_key(name) implies is_last_given(
                args@,
                place,
                name,
                parsed.vars@[name]@,
            ) by {
                assert(vars.contains_key(name));
                assert(vars[name] == parsed.vars@[name]@);
                let at = choose|i: int|
                    {
                        &&& 0 <= i < front.len()
                        &&& tasks::pair_name(#[trigger] front[i]) == name
                        &&& vars[name] == tasks::pair_value(front[i])
                        &&& forall|j: int|
                            i < j < front.len() ==> tasks::pair_name(#[trigger] front[j]) != name
                    };
                assert(tasks::pair_fault(front[at]) is None);
                assert(front[at] == args@[at]@);
                assert forall|j: int| at < j < place implies tasks::pair_name(
                    (#[trigger] args@[j])@,
                ) != name by {
                    assert(front[j] == args@[j]@);
                }
                lemma_last_given(args@, place, at, name, parsed.vars@[name]@);
            }
        },
        Err(error) => {
            let at = choose|i: int|
                0 <= i < front.len() && tasks::pair_fault(#[trigger] front[i]) == Some(error@);
            assert(front[at] == args@[at]@);
            lemma_describes_argument(error@, args@[at]@);
        },
    }
}

// ---- a run on this machine ----

/// Whether two lists of commands have the same words.
pub open spec fn same_steps(left: Seq<Vec<String>>, right: Seq<Vec<String>>) -> bool {
    &&& left.len() == right.len()
    &&& forall|i: int| 0 <= i < left.len() ==> same_words((#[trigger] left[i])@, right[i]@)
}

/// Whether two preparations come to the same: the same commands, run in the same directory
/// with the same environment variables and the same time limit, or the same report.
pub open spec fn same_preparation(
    left: Result<PreparedTask, TaskError>,
    right: Result<PreparedTask, TaskError>,
) -> bool {
    match (left, right) {
        (Ok(left), Ok(right)) => {
            &&& same_steps(left.steps@, right.steps@)
            &&& left.cwd@ == right.cwd@
            &&& left.env@ == right.env@
            &&& left.timeout == right.timeout
        },
        (Err(left), Err(right)) => left@ == right@,
        _ => false,
    }
}

/// What the preparation of a task has to give is given once.
pub proof fn lemma_same_preparation(
    task_name: Seq<char>,
    task: Task,
    local_root: Seq<char>,
    vars: Map<Seq<char>, Seq<char>>,
    forwarded: Seq<Seq<char>>,
    env: tasks::EnvironmentView,
    left: Result<PreparedTask, TaskError>,
    right: Result<PreparedTask, TaskError>,
)
    requires
        tasks::prepares(task_name, task, local_root, vars, forwarded, env, left),
        tasks::prepares(task_name, task, local_root, vars, forwarded, env, right),
    ensures
        same_preparation(left, right),
{
    if let (Ok(left), Ok(right)) = (left, right) {
        let a = text::rows(left.steps@);
        let b = text::rows(right.steps@);
        assert(a.len() == left.steps@.len() && b.len() == right.steps@.len());
        assert forall|i: int| 0 <= i < left.steps@.len() implies same_words(
            (#[trigger] left.steps@[i])@,
            right.steps@[i]@,
        ) by {
            assert(a[i] == text::texts(left.steps@[i]@));
            assert(b[i] == text::texts(right.steps@[i]@));
            lemma_same_words(left.steps@[i]@, right.steps@[i]@);
        }
    }
}

/// A task that is invoked here is prepared with the variables and the forwarded arguments that
/// were read from the invocation, and runs as configured. Arguments that cannot be read are
/// reported, and so is a task that there is not.
pub proof fn lemma_invocation_is_prepared(
    tasks: NameMap<Task>,
    local_root: &str,
    task_name: &str,
    args: &[String],
    env: Environment,
    parsed: Result<InvocationArgs, TaskError>,
    forwarded: &[String],
    alone: Result<PreparedTask, TaskError>,
    prepared: Result<PreparedTask, TaskError>,
)
    requires
        call_ensures(prepare_invocation, (&tasks, local_root, task_name, args, &env), prepared),
        call_ensures(parse_invocation_args, (args,), parsed),
        parsed matches Ok(parsed) ==> forwarded@ == parsed.forwarded_args@ && call_ensures(
            prepare_task,
            (task_name, &tasks@[task_name@], local_root, &parsed.vars, forwarded, &env),
            alone,
        ),
    ensures
        match parsed {
            Err(fault) => prepared matches Err(error) && error@ == fault@,
            Ok(parsed) => if tasks@.contains_key(task_name@) {
                &&& same_preparation(prepared, alone)
                &&& prepared matches Ok(prepared) ==> runs_as_configured(
                    prepared,
                    tasks@[task_name@],
                    local_root@,
                )
            } else {
                prepared matches Err(error) && error@ == (TaskError::UnknownTask {
                    task: task_name@,
                })
            },
        },
{
    if let Ok(parsed) = parsed {
        if tasks@.contains_key(task_name@) {
            lemma_same_preparation(
                task_name@,
                tasks@[task_name@],
                local_root@,
                text::map_texts(parsed.vars@),
                text::texts(parsed.forwarded_args@),
                env@,
                prepared,
                alone,
            );
            if let Ok(prepared) = prepared {
                setup::lemma_task_dir(local_root@, tasks@[task_name@], prepared.cwd@);
            }
        }
    }
}

/// The words of a command line are taken as they are, but there has to be one.
pub proof fn lemma_words_are_accepted(
    task_name: &str,
    words: Option<Vec<String>>,
    argv: Result<Vec<String>, TaskError>,
)
    requires
        call_ensures(accept_words, (task_name, words), argv),
    ensures
        match words {
            None => argv matches Err(error) && error@ == (TaskError::InvalidCommandString {
                task: task_name@,
            }),
            Some(words) => if words@.len() == 0 {
                argv matches Err(error) && error@ == (TaskError::EmptyCommandString {
                    task: task_name@,
                })
            } else {
                argv matches Ok(argv) && same_words(argv@, words@)
            },
        },
{
    if let Some(words) = words {
        assert(text::texts(words@).len() == words@.len());
        if let Ok(argv) = argv {
            lemma_same_words(argv@, words@);
        }
    }
}

/// The commands of a task run one after another, each with the program that is its first word
/// and the arguments that are the others. The first that does not succeed ends the run with
/// its code; after the last one the code is 0. A command without words cannot be run.
pub proof fn lemma_commands_run_in_order(
    steps: &[Vec<String>],
    finished: usize,
    last: i32,
    next: LocalStep,
)
    requires
        call_ensures(local_step, (steps, finished, last), next),
    ensures
        if last != 0 {
            next matches LocalStep::Exit { code } && code == last
        } else if finished >= steps@.len() {
            next matches LocalStep::Exit { code } && code == 0
        } else if steps@[finished as int]@.len() == 0 {
            next matches LocalStep::Exit { code } && code == 1
        } else {
            &&& next matches LocalStep::Spawn { program, args }
            &&& program@ == steps@[finished as int]@[0]@
            &&& same_words(args@, steps@[finished as int]@.skip(1))
        },
{
    let rows = text::rows(steps@);
    assert(rows.len() == steps@.len());
    if last == 0 && finished < steps@.len() {
        let argv = steps@[finished as int]@;
        assert(rows[finished as int] == text::texts(argv));
        assert(text::texts(argv).len() == argv.len());
        if let LocalStep::Spawn { program, args } = next {
            assert(text::texts(argv)[0] == argv[0]@);
            assert(text::texts(argv.skip(1)) =~= text::texts(argv).skip(1));
            lemma_same_words(args@, argv.skip(1));
        }
    }
}

/// A command ends with its own code, or with 1 where a signal ended it, and the user is told
/// nothing. One that ran for too long ends with 124, and the user is told of which task and
/// after how long.
pub proof fn lemma_local_end(
    task_name: &str,
    end: LocalEnd,
    span: String,
    outcome: LocalOutcome,
)
    requires
        call_ensures(local_end, (task_name, end), outcome),
        end matches LocalEnd::TimedOut { timeout } ==> call_ensures(
            TimeSpan::text,
            (&timeout,),
            span,
        ),
    ensures
        match end {
            LocalEnd::Exited { code: Some(code) } => outcome.code == code
                && outcome.message is None,
            LocalEnd::Exited { code: None } => outcome.code == 1 && outcome.message is None,
            LocalEnd::TimedOut { .. } => {
                &&& outcome.code == 124
                &&& outcome.message matches Some(message)
                &&& message@ == "task `"@ + task_name@ + "` timed out after "@ + span@ + "\n"@
            },
        },
{
}

} // verus!
