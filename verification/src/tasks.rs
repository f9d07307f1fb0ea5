//! Tasks as they are invoked: their variables, their arguments, the commands that they run
//! and the help text that describes them.
use vstd::prelude::*;

use crate::config;
use crate::config::{Task, TaskRun};
use crate::name_map;
use crate::name_map::NameMap;
use crate::paths;
use crate::paths::join_path;
use crate::template;
use crate::template::{parse_template, Placeholder, TemplateError, TemplatePart};
use crate::text;
use crate::text::{chars_of, is_valid_name, join, same_text, text_between};
use crate::time_span::TimeSpan;

verus! {

/// The name under which the help text of all tasks is asked for.
pub const TASKS_HELP_NAME: &'static str = "tasks-help";

/// The name under which the health report is asked for.
pub const CHECKHEALTH_NAME: &'static str = "checkhealth";

/// A task that is ready to run.
#[derive(Debug, Clone, PartialEq, Eq)]
pub struct PreparedTask {
    /// The words of each command, in the order in which the commands run.
    pub steps: Vec<Vec<String>>,
    /// The directory in which the commands run.
    pub cwd: String,
    /// Environment variables that are set for the commands.
    pub env: NameMap<String>,
    /// How long one command may take.
    pub timeout: Option<TimeSpan>,
}

/// A variable of a task, as the help text shows it.
#[derive(Debug, Clone, PartialEq, Eq)]
pub struct DocumentedVar<S = String> {
    pub name: S,
    pub description: Option<S>,
    /// Whether the task can be invoked without it.
    pub optional: bool,
    /// Whether the configuration says anything of it.
    pub documented: bool,
}

impl View for DocumentedVar<String> {
    type V = DocumentedVar<Seq<char>>;

    open spec fn view(&self) -> DocumentedVar<Seq<char>> {
        DocumentedVar {
            name: self.name@,
            description: text::maybe_text(self.description),
            optional: self.optional,
            documented: self.documented,
        }
    }
}

/// What was given to a task when it was invoked.
#[derive(Debug, Clone, PartialEq, Eq)]
pub struct InvocationArgs {
    pub vars: NameMap<String>,
    /// The arguments for the last command.
    pub forwarded_args: Vec<String>,
}

/// The environment variables of a process.
#[derive(Debug, Clone, PartialEq, Eq)]
pub struct Environment {
    /// The values that are valid Unicode.
    pub texts: NameMap<String>,
    /// The values that are not, as they are shown to a reader.
    pub invalid: NameMap<String>,
}

/// What an environment holds.
#[verifier::ext_equal]
pub struct EnvironmentView {
    pub texts: Map<Seq<char>, Seq<char>>,
    pub invalid: Map<Seq<char>, Seq<char>>,
}

impl View for Environment {
    type V = EnvironmentView;

    open spec fn view(&self) -> EnvironmentView {
        EnvironmentView {
            texts: text::map_texts(self.texts@),
            invalid: text::map_texts(self.invalid@),
        }
    }
}

impl Environment {
    /// An environment without variables.
    pub fn new() -> (env: Environment)
        ensures
            env@.texts == Map::<Seq<char>, Seq<char>>::empty(),
            env@.invalid == Map::<Seq<char>, Seq<char>>::empty(),
    {
        let env = Environment { texts: NameMap::new(), invalid: NameMap::new() };
        assert(env@.texts =~= Map::<Seq<char>, Seq<char>>::empty());
        assert(env@.invalid =~= Map::<Seq<char>, Seq<char>>::empty());
        env
    }
}

/// Why a task cannot be run.
#[derive(Debug, PartialEq, Eq)]
pub enum TaskError<S = String> {
    /// There is no task of this name.
    UnknownTask { task: S },
    /// An argument before `--` is not `name=value`.
    InvalidArgument { arg: S },
    /// The name in `name=value` is none.
    InvalidVariable { name: S },
    /// A template of the task is malformed.
    InvalidTemplate { cause: TemplateError<S> },
    /// A template of the task is malformed, which was found when it was filled.
    UnfillableTemplate { task: S, cause: TemplateError<S> },
    /// A variable that the task needs was not given.
    MissingVar { task: S, name: S },
    /// An environment variable that the task needs is not set, or its value is not valid
    /// Unicode and is shown as `invalid`.
    MissingEnvVar { task: S, name: S, invalid: Option<S> },
    /// A quote of the command line is not closed.
    InvalidCommandString { task: S },
    /// The command line holds no word.
    EmptyCommandString { task: S },
}

impl View for TaskError<String> {
    type V = TaskError<Seq<char>>;

    open spec fn view(&self) -> TaskError<Seq<char>> {
        match self {
            TaskError::UnknownTask { task } => TaskError::UnknownTask { task: task@ },
            TaskError::InvalidArgument { arg } => TaskError::InvalidArgument { arg: arg@ },
            TaskError::InvalidVariable { name } => TaskError::InvalidVariable { name: name@ },
            TaskError::InvalidTemplate { cause } => TaskError::InvalidTemplate { cause: cause@ },
            TaskError::UnfillableTemplate { task, cause } => {
                TaskError::UnfillableTemplate { task: task@, cause: cause@ }
            },
            TaskError::MissingVar { task, name } => {
                TaskError::MissingVar { task: task@, name: name@ }
            },
            TaskError::MissingEnvVar { task, name, invalid } => {
                TaskError::MissingEnvVar {
                    task: task@,
                    name: name@,
                    invalid: text::maybe_text(*invalid),
                }
            },
            TaskError::InvalidCommandString { task } => {
                TaskError::InvalidCommandString { task: task@ }
            },
            TaskError::EmptyCommandString { task } => {
                TaskError::EmptyCommandString { task: task@ }
            },
        }
    }
}

impl TaskError<Seq<char>> {
    /// The sentence that reports the error.
    pub open spec fn text(self) -> Seq<char> {
        match self {
            TaskError::UnknownTask { task } => "unknown task `"@ + task + "`"@,
            TaskError::InvalidArgument { arg } => {
                "invalid task argument `"@ + arg + "`; use name=value before `--`"@
            },
            TaskError::InvalidVariable { name } => {
                "invalid task variable `"@ + name + "`; names must match [A-Za-z_][A-Za-z0-9_]*"@
            },
            TaskError::InvalidTemplate { cause } => cause.text(),
            TaskError::UnfillableTemplate { task, cause: _ } => {
                "task `"@ + task + "` has invalid template"@
            },
            TaskError::MissingVar { task, name } => {
                "task `"@ + task + "` requires var `"@ + name + "`"@
            },
            TaskError::MissingEnvVar { task, name, invalid: _ } => {
                "task `"@ + task + "` requires env var `"@ + name + "`"@
            },
            TaskError::InvalidCommandString { task } => {
                "task `"@ + task + "` produced an invalid command string"@
            },
            TaskError::EmptyCommandString { task } => {
                "task `"@ + task + "` produced an empty command string"@
            },
        }
    }

    /// The sentence that reports the error, followed by its cause where it has one.
    pub open spec fn full_text(self) -> Seq<char> {
        match self {
            TaskError::UnfillableTemplate { task: _, cause } => {
                self.text() + ": "@ + cause.text()
            },
            TaskError::MissingEnvVar { task: _, name: _, invalid } => match invalid {
                None => self.text() + ": environment variable not found"@,
                Some(shown) => {
                    self.text() + ": environment variable was not valid unicode: "@ + shown
                },
            },
            TaskError::InvalidCommandString { .. } => self.text() + ": missing closing quote"@,
            _ => self.text(),
        }
    }
}

/// A sentence about the task `task`.
fn about_task(task: &str, rest: &str) -> (message: String)
    ensures
        message@ == "task `"@ + task@ + rest@,
{
    "task `".to_owned().concat(task).concat(rest)
}

impl TaskError<String> {
    /// The sentence that reports the error.
    pub fn message(&self) -> (message: String)
        ensures
            message@ == self@.text(),
    {
        match self {
            TaskError::UnknownTask { task } => {
                "unknown task `".to_owned().concat(task.as_str()).concat("`")
            },
            TaskError::InvalidArgument { arg } => {
                "invalid task argument `".to_owned().concat(arg.as_str()).concat(
                    "`; use name=value before `--`",
                )
            },
            TaskError::InvalidVariable { name } => {
                "invalid task variable `".to_owned().concat(name.as_str()).concat(
                    "`; names must match [A-Za-z_][A-Za-z0-9_]*",
                )
            },
            TaskError::InvalidTemplate { cause } => cause.message(),
            TaskError::UnfillableTemplate { task, cause: _ } => {
                about_task(task.as_str(), "` has invalid template")
            },
            TaskError::MissingVar { task, name } => {
                about_task(task.as_str(), "` requires var `").concat(name.as_str()).concat("`")
            },
            TaskError::MissingEnvVar { task, name, invalid: _ } => {
                about_task(task.as_str(), "` requires env var `").concat(name.as_str()).concat("`")
            },
            TaskError::InvalidCommandString { task } => {
                about_task(task.as_str(), "` produced an invalid command string")
            },
            TaskError::EmptyCommandString { task } => {
                about_task(task.as_str(), "` produced an empty command string")
            },
        }
    }

    /// The sentence that reports the error, followed by its cause where it has one.
    pub fn full_message(&self) -> (message: String)
        ensures
            message@ == self@.full_text(),
    {
        match self {
            TaskError::UnfillableTemplate { task: _, cause } => {
                self.message().concat(": ").concat(cause.message().as_str())
            },
            TaskError::MissingEnvVar { task: _, name: _, invalid } => match invalid {
                None => self.message().concat(": environment variable not found"),
                Some(shown) => {
                    self.message().concat(": environment variable was not valid unicode: ").concat(
                        shown.as_str(),
                    )
                },
            },
            TaskError::InvalidCommandString { .. } => {
                self.message().concat(": missing closing quote")
            },
            _ => self.message(),
        }
    }
}

// ---- the arguments of an invocation ----

/// The place of the first `=`, from `from` on; the length where there is none.
pub open spec fn equals_sign(arg: Seq<char>, from: int) -> int
    decreases arg.len() - from,
{
    if from >= arg.len() {
        arg.len() as int
    } else if arg[from] == '=' {
        from
    } else {
        equals_sign(arg, from + 1)
    }
}

/// What stands before the first `=` of an argument.
pub open spec fn pair_name(arg: Seq<char>) -> Seq<char> {
    arg.take(equals_sign(arg, 0))
}

/// What stands behind the first `=` of an argument.
pub open spec fn pair_value(arg: Seq<char>) -> Seq<char> {
    arg.skip(equals_sign(arg, 0) + 1)
}

/// What is wrong with an argument that should be `name=value`.
pub open spec fn pair_fault(arg: Seq<char>) -> Option<TaskError<Seq<char>>> {
    if !arg.contains('=') {
        Some(TaskError::InvalidArgument { arg })
    } else if !text::is_name(pair_name(arg)) {
        Some(TaskError::InvalidVariable { name: pair_name(arg) })
    } else {
        None
    }
}

/// The first thing wrong with arguments that should be `name=value`.
pub open spec fn pairs_fault(args: Seq<Seq<char>>) -> Option<TaskError<Seq<char>>>
    decreases args.len(),
{
    if args.len() == 0 {
        None
    } else {
        match pairs_fault(args.drop_last()) {
            Some(error) => Some(error),
            None => pair_fault(args.last()),
        }
    }
}

/// The variables that arguments `name=value` set. Of two values for one name the later one
/// holds.
pub open spec fn pair_vars(args: Seq<Seq<char>>) -> Map<Seq<char>, Seq<char>>
    decreases args.len(),
{
    if args.len() == 0 {
        Map::empty()
    } else {
        pair_vars(args.drop_last()).insert(pair_name(args.last()), pair_value(args.last()))
    }
}

/// The argument that ends the variables.
pub open spec fn separator() -> Seq<char> {
    seq!['-', '-']
}

/// The place of the first separator, from `from` on; the length where there is none.
pub open spec fn separator_place(args: Seq<Seq<char>>, from: int) -> int
    decreases args.len() - from,
{
    if from >= args.len() {
        args.len() as int
    } else if args[from] == separator() {
        from
    } else {
        separator_place(args, from + 1)
    }
}

/// The variables and the forwarded arguments of an invocation, or what is wrong with it:
/// what stands before the first `--` sets variables, what stands behind it is forwarded.
pub open spec fn invocation(args: Seq<Seq<char>>) -> Result<
    (Map<Seq<char>, Seq<char>>, Seq<Seq<char>>),
    TaskError<Seq<char>>,
> {
    let place = separator_place(args, 0);
    match pairs_fault(args.take(place)) {
        Some(error) => Err(error),
        None => Ok(
            (
                pair_vars(args.take(place)),
                if place < args.len() {
                    args.skip(place + 1)
                } else {
                    Seq::empty()
                },
            ),
        ),
    }
}

pub proof fn lemma_equals_sign(arg: Seq<char>, from: int)
    requires
        0 <= from <= arg.len(),
    ensures
        from <= equals_sign(arg, from) <= arg.len(),
        equals_sign(arg, from) < arg.len() ==> arg[equals_sign(arg, from)] == '=',
        forall|i: int| from <= i < equals_sign(arg, from) ==> arg[i] != '=',
    decreases arg.len() - from,
{
    if from < arg.len() && arg[from] != '=' {
        lemma_equals_sign(arg, from + 1);
    }
}

pub proof fn lemma_separator_place(args: Seq<Seq<char>>, from: int, place: int)
    requires
        0 <= from <= place <= args.len(),
        forall|i: int| from <= i < place ==> args[i] != separator(),
        place < args.len() ==> args[place] == separator(),
    ensures
        separator_place(args, from) == place,
    decreases place - from,
{
    if from < place {
        lemma_separator_place(args, from + 1, place);
    }
}

proof fn lemma_separator_bound(args: Seq<Seq<char>>, from: int)
    requires
        0 <= from <= args.len(),
    ensures
        from <= separator_place(args, from) <= args.len(),
        separator_place(args, from) < args.len() ==> args[separator_place(args, from)]
            == separator(),
    decreases args.len() - from,
{
    if from < args.len() && args[from] != separator() {
        lemma_separator_bound(args, from + 1);
    }
}

proof fn lemma_pairs_fault_stays(args: Seq<Seq<char>>, at: int)
    requires
        0 <= at <= args.len(),
        pairs_fault(args.take(at)) is Some,
    ensures
        pairs_fault(args) == pairs_fault(args.take(at)),
    decreases args.len() - at,
{
    if at == args.len() {
        assert(args.take(at) == args);
    } else {
        assert(args.take(at + 1).drop_last() == args.take(at));
        lemma_pairs_fault_stays(args, at + 1);
    }
}

/// Whether `name` can be the name of a variable.
pub fn is_valid_invocation_name(name: &str) -> (valid: bool)
    ensures
        valid == text::is_name(name@),
{
    is_valid_name(name)
}

/// The name and the value of an argument `name=value`.
fn split_pair(arg: &str) -> (pair: Option<(String, String)>)
    ensures
        match pair {
            Some((name, value)) => {
                &&& arg@.contains('=')
                &&& name@ == pair_name(arg@)
                &&& value@ == pair_value(arg@)
            },
            None => !arg@.contains('='),
        },
{
    let chars = chars_of(arg);
    let mut index: usize = 0;
    while index < chars.len()
        invariant
            chars@ == arg@,
            index <= chars.len(),
            equals_sign(arg@, 0) == equals_sign(arg@, index as int),
            forall|i: int| 0 <= i < index ==> arg@[i] != '=',
        decreases chars.len() - index,
    {
        if chars[index] == '=' {
            assert(arg@[index as int] == '=');
            let name = text_between(chars.as_slice(), 0, index);
            let value = text_between(chars.as_slice(), index + 1, chars.len());
            assert(name@ == pair_name(arg@));
            assert(value@ == pair_value(arg@));
            return Some((name, value));
        }
        index = index + 1;
    }
    None
}

/// Reads the arguments of an invocation.
pub fn parse_invocation_args(args: &[String]) -> (parsed: Result<InvocationArgs, TaskError>)
    ensures
        match parsed {
            Ok(parsed) => invocation(text::texts(args@)) == Ok::<_, TaskError<Seq<char>>>(
                (text::map_texts(parsed.vars@), text::texts(parsed.forwarded_args@)),
            ),
            Err(error) => invocation(text::texts(args@)) == Err::<
                (Map<Seq<char>, Seq<char>>, Seq<Seq<char>>),
                _,
            >(error@),
        },
{
    let ghost all = text::texts(args@);
    let mut vars: NameMap<String> = NameMap::new();
    let mut forwarded_args: Vec<String> = Vec::new();
    let mut after_separator = false;
    let mut index: usize = 0;
    let ghost mut place: int = 0;
    proof {
        assert(text::map_texts(vars@) =~= Map::<Seq<char>, Seq<char>>::empty());
    }
    while index < args.len()
        invariant
            all == text::texts(args@),
            index <= args.len(),
            0 <= place <= index,
            forall|i: int| 0 <= i < place ==> all[i] != separator(),
            !after_separator ==> place == index,
            !after_separator ==> forwarded_args@.len() == 0,
            after_separator ==> place < index && all[place] == separator(),
            after_separator ==> text::texts(forwarded_args@) == all.subrange(
                place + 1,
                index as int,
            ),
            pairs_fault(all.take(place)) is None,
            text::map_texts(vars@) == pair_vars(all.take(place)),
        decreases args.len() - index,
    {
        let arg = &args[index];
        assert(arg@ == all[index as int]);
        if after_separator {
            let ghost held = forwarded_args@;
            forwarded_args.push(arg.clone());
            proof {
                assert(text::texts(forwarded_args@) =~= text::texts(held).push(arg@));
                assert(all.subrange(place + 1, index + 1) =~= all.subrange(
                    place + 1,
                    index as int,
                ).push(arg@));
            }
        } else if same_text(arg.as_str(), "--") {
            proof {
                reveal_strlit("--");
                assert("--"@ =~= separator());
                assert(text::texts(forwarded_args@) =~= all.subrange(place + 1, index + 1));
            }
            after_separator = true;
        } else {
            proof {
                reveal_strlit("--");
                assert("--"@ =~= separator());
                assert(all.take(index + 1).drop_last() == all.take(index as int));
                lemma_separator_bound(all, 0);
                assert(all.take(separator_place(all, 0)).take(index + 1) == all.take(index + 1));
            }
            match split_pair(arg.as_str()) {
                None => {
                    proof {
                        lemma_pairs_fault_stays(all.take(separator_place(all, 0)), index + 1);
                    }
                    return Err(TaskError::InvalidArgument { arg: arg.clone() });
                },
                Some((name, value)) => {
                    if !is_valid_invocation_name(name.as_str()) {
                        proof {
                            lemma_pairs_fault_stays(all.take(separator_place(all, 0)), index + 1);
                        }
                        return Err(TaskError::InvalidVariable { name });
                    }
                    let ghost held = vars@;
                    let ghost given = value;
                    vars.insert(name, value);
                    proof {
                        assert(text::map_texts(vars@) =~= text::map_texts(held).insert(
                            name@,
                            given@,
                        ));
                        place = place + 1;
                    }
                },
            }
        }
        index = index + 1;
    }
    proof {
        lemma_separator_place(all, 0, place);
        if after_separator {
            assert(all.subrange(place + 1, index as int) =~= all.skip(place + 1));
        } else {
            assert(text::texts(forwarded_args@) =~= Seq::<Seq<char>>::empty());
        }
    }
    Ok(InvocationArgs { vars, forwarded_args })
}

/// The argument that gives `value` to the variable `name`.
pub open spec fn written_pair(name: Seq<char>, value: Seq<char>) -> Seq<char> {
    name.push('=') + value
}

/// The arguments that give each of `names` the value at the same place.
pub open spec fn written_pairs(names: Seq<Seq<char>>, values: Seq<Seq<char>>) -> Seq<Seq<char>> {
    Seq::new(names.len(), |i: int| written_pair(names[i], values[i]))
}

/// The map that gives each of `names` the value at the same place, or the last one where
/// a name occurs twice.
pub open spec fn values_by_name(names: Seq<Seq<char>>, values: Seq<Seq<char>>) -> Map<
    Seq<char>,
    Seq<char>,
>
    decreases names.len(),
{
    if names.len() == 0 {
        Map::empty()
    } else {
        values_by_name(names.drop_last(), values.drop_last()).insert(names.last(), values.last())
    }
}

proof fn lemma_written_pair(name: Seq<char>, value: Seq<char>)
    requires
        text::is_name(name),
    ensures
        written_pair(name, value) != separator(),
        pair_fault(written_pair(name, value)) is None,
        pair_name(written_pair(name, value)) == name,
        pair_value(written_pair(name, value)) == value,
{
    let arg = written_pair(name, value);
    assert(arg[name.len() as int] == '=');
    assert forall|i: int| 0 <= i < name.len() implies arg[i] != '=' by {
        assert(arg[i] == name[i]);
        assert(text::is_name_char(name[i]));
    }
    lemma_equals_sign(arg, 0);
    assert(equals_sign(arg, 0) == name.len());
    assert(arg.take(name.len() as int) =~= name);
    assert(arg.skip(name.len() as int + 1) =~= value);
    if arg == separator() {
        assert(separator()[name.len() as int] == '-');
    }
}

proof fn lemma_written_pairs(names: Seq<Seq<char>>, values: Seq<Seq<char>>)
    requires
        names.len() == values.len(),
        forall|i: int| 0 <= i < names.len() ==> text::is_name(#[trigger] names[i]),
    ensures
        pairs_fault(written_pairs(names, values)) is None,
        pair_vars(written_pairs(names, values)) == values_by_name(names, values),
    decreases names.len(),
{
    if names.len() > 0 {
        let short = names.drop_last();
        assert forall|i: int| 0 <= i < short.len() implies text::is_name(#[trigger] short[i]) by {
            assert(short[i] == names[i]);
        }
        lemma_written_pairs(short, values.drop_last());
        assert(text::is_name(names[names.len() - 1]));
        lemma_written_pair(names.last(), values.last());
        assert(written_pairs(names, values).drop_last() =~= written_pairs(
            short,
            values.drop_last(),
        ));
    }
}

/// What an invocation writes is what is read: arguments `name=value` set their variables,
/// whatever the values hold, and all that stands behind `--` is forwarded as it is.
pub proof fn lemma_invocation_reads_back(
    names: Seq<Seq<char>>,
    values: Seq<Seq<char>>,
    forwarded: Seq<Seq<char>>,
)
    requires
        names.len() == values.len(),
        forall|i: int| 0 <= i < names.len() ==> text::is_name(#[trigger] names[i]),
    ensures
        invocation(written_pairs(names, values).push(separator()) + forwarded) == Ok::<
            _,
            TaskError<Seq<char>>,
        >((values_by_name(names, values), forwarded)),
        invocation(written_pairs(names, values)) == Ok::<_, TaskError<Seq<char>>>(
            (values_by_name(names, values), Seq::<Seq<char>>::empty()),
        ),
{
    let pairs = written_pairs(names, values);
    lemma_written_pairs(names, values);
    assert forall|i: int| 0 <= i < pairs.len() implies pairs[i] != separator() by {
        assert(text::is_name(names[i]));
        lemma_written_pair(names[i], values[i]);
    }
    let args = pairs.push(separator()) + forwarded;
    lemma_separator_place(args, 0, pairs.len() as int);
    lemma_separator_place(pairs, 0, pairs.len() as int);
    assert(args.take(pairs.len() as int) =~= pairs);
    assert(pairs.take(pairs.len() as int) =~= pairs);
    assert(args.skip(pairs.len() as int + 1) =~= forwarded);
}

// ---- the variables of a task ----

/// The entry of the variable `name` among the variables of `task`.
pub open spec fn var_entry(task: Task, name: Seq<char>) -> DocumentedVar<Seq<char>> {
    if task.vars@.contains_key(name) {
        DocumentedVar {
            name,
            description: text::maybe_text(task.vars@[name].description),
            optional: task.vars@[name].optional,
            documented: true,
        }
    } else {
        DocumentedVar { name, description: None, optional: false, documented: false }
    }
}

/// The variables of a task that are optional, or those that are not: the documented ones
/// and those that its commands mention.
pub open spec fn var_names(task: Task, mentioned: Seq<Seq<char>>, optional: bool) -> Set<
    Seq<char>,
> {
    Set::new(
        |name: Seq<char>|
            (task.vars@.contains_key(name) || mentioned.contains(name)) && var_entry(
                task,
                name,
            ).optional == optional,
    )
}

/// The entries of variables.
pub open spec fn var_entries(task: Task, names: Seq<Seq<char>>) -> Seq<DocumentedVar<Seq<char>>> {
    names.map_values(|name: Seq<char>| var_entry(task, name))
}

/// The variables of a task, where its commands mention `mentioned`: first those that it
/// needs, and then the optional ones, each in the order of their names.
pub open spec fn var_listing(task: Task, mentioned: Seq<Seq<char>>) -> Seq<
    DocumentedVar<Seq<char>>,
> {
    var_entries(task, name_map::in_order(var_names(task, mentioned, false))) + var_entries(
        task,
        name_map::in_order(var_names(task, mentioned, true)),
    )
}

/// The variables of a task, or the first thing wrong with its templates.
pub open spec fn task_vars(task: Task) -> Result<
    Seq<DocumentedVar<Seq<char>>>,
    TemplateError<Seq<char>>,
> {
    match config::referenced(task.run, true) {
        Ok(mentioned) => Ok(var_listing(task, mentioned)),
        Err(error) => Err(error),
    }
}

/// What the entries of a list say.
pub open spec fn var_views(list: Seq<DocumentedVar>) -> Seq<DocumentedVar<Seq<char>>> {
    list.map_values(|var: DocumentedVar| var@)
}

/// The items up to a place and the one at it are the items up to the next place.
proof fn lemma_take_contains(keys: Seq<Seq<char>>, at: int)
    requires
        0 <= at < keys.len(),
    ensures
        forall|key: Seq<char>| #[trigger]
            keys.take(at + 1).contains(key) <==> keys.take(at).contains(key) || key == keys[at],
{
    let short = keys.take(at);
    assert forall|key: Seq<char>| #[trigger] keys.take(at + 1).contains(key) <==> short.contains(key)
        || key == keys[at] by {
        if short.contains(key) {
            assert(keys.take(at + 1)[short.index_of(key)] == key);
        }
        if key == keys[at] {
            assert(keys.take(at + 1)[at] == key);
        }
        if keys.take(at + 1).contains(key) && key != keys[at] {
            let i = keys.take(at + 1).index_of(key);
            assert(short[i] == key);
        }
    }
}

/// The entry of the variable `name` among the variables of `task`.
fn documented_var(task: &Task, name: &str) -> (var: DocumentedVar)
    ensures
        var@ == var_entry(*task, name@),
{
    match task.vars.get(name) {
        Some(var) => DocumentedVar {
            name: name.to_owned(),
            description: var.description.clone(),
            optional: var.optional,
            documented: true,
        },
        None => DocumentedVar {
            name: name.to_owned(),
            description: None,
            optional: false,
            documented: false,
        },
    }
}

/// Adds the entries of the variables in `names` to `vars`.
fn add_documented(vars: &mut Vec<DocumentedVar>, task: &Task, names: &NameMap<()>)
    ensures
        var_views(final(vars)@) == var_views(old(vars)@) + var_entries(*task, names.keys()),
        name_map::ascending(names.keys()),
        forall|key: Seq<char>| #[trigger] names@.contains_key(key) <==> names.keys().contains(key),
{
    let count = names.len();
    let ghost held = vars@;
    assert(var_entries(*task, names.keys().take(0)) =~= Seq::empty());
    for index in 0..count
        invariant
            count == names.keys().len(),
            var_views(vars@) == var_views(held) + var_entries(
                *task,
                names.keys().take(index as int),
            ),
    {
        let ghost before = vars@;
        let var = documented_var(task, names.name_at(index).as_str());
        vars.push(var);
        proof {
            let keys = names.keys();
            assert(var_views(vars@) =~= var_views(before).push(var_entry(*task, keys[index as int])));
            assert(var_entries(*task, keys.take(index + 1)) =~= var_entries(
                *task,
                keys.take(index as int),
            ).push(var_entry(*task, keys[index as int])));
        }
    }
    assert(names.keys().take(count as int) =~= names.keys());
}

/// The variables of `task`: the documented ones and those that its commands mention.
pub fn documented_vars(task: &Task) -> (vars: Result<Vec<DocumentedVar>, TemplateError>)
    ensures
        match vars {
            Ok(vars) => task_vars(*task) == Ok::<_, TemplateError<Seq<char>>>(var_views(vars@)),
            Err(error) => task_vars(*task) == Err::<Seq<DocumentedVar<Seq<char>>>, _>(error@),
        },
{
    let mentioned = match task.referenced_client_vars() {
        Ok(mentioned) => mentioned,
        Err(error) => return Err(error),
    };
    let ghost named = text::texts(mentioned@);
    let mut required: NameMap<()> = NameMap::new();
    let mut optional: NameMap<()> = NameMap::new();
    let count = task.vars.len();
    let ghost keys = task.vars.keys();
    for index in 0..count
        invariant
            count == keys.len(),
            keys == task.vars.keys(),
            forall|key: Seq<char>| #[trigger]
                required@.contains_key(key) <==> keys.take(index as int).contains(key) && !var_entry(
                    *task,
                    key,
                ).optional,
            forall|key: Seq<char>| #[trigger]
                optional@.contains_key(key) <==> keys.take(index as int).contains(key) && var_entry(
                    *task,
                    key,
                ).optional,
    {
        let name = task.vars.name_at(index);
        proof {
            lemma_take_contains(keys, index as int);
        }
        if task.vars.value_at(index).optional {
            optional.insert(name.clone(), ());
        } else {
            required.insert(name.clone(), ());
        }
    }
    assert(keys.take(count as int) =~= keys);
    for index in 0..mentioned.len()
        invariant
            named == text::texts(mentioned@),
            keys == task.vars.keys(),
            forall|key: Seq<char>| #[trigger]
                task.vars@.contains_key(key) <==> keys.contains(key),
            forall|key: Seq<char>| #[trigger]
                required@.contains_key(key) <==> (keys.contains(key) || named.take(
                    index as int,
                ).contains(key)) && !var_entry(*task, key).optional,
    {
        let name = &mentioned[index];
        proof {
            assert(named[index as int] == name@);
            lemma_take_contains(named, index as int);
        }
        if !task.vars.contains_key(name.as_str()) {
            required.insert(name.clone(), ());
        }
    }
    let mut vars: Vec<DocumentedVar> = Vec::new();
    add_documented(&mut vars, task, &required);
    add_documented(&mut vars, task, &optional);
    proof {
        assert(named.take(mentioned@.len() as int) =~= named);
    }
    proof {
        assert forall|key: Seq<char>| required.keys().contains(key) <==> var_names(
            *task,
            named,
            false,
        ).contains(key) by {
            assert(required@.contains_key(key) <==> required.keys().contains(key));
            assert(task.vars@.contains_key(key) <==> keys.contains(key));
        }
        assert forall|key: Seq<char>| optional.keys().contains(key) <==> var_names(
            *task,
            named,
            true,
        ).contains(key) by {
            assert(optional@.contains_key(key) <==> optional.keys().contains(key));
            assert(task.vars@.contains_key(key) <==> keys.contains(key));
        }
        name_map::lemma_in_order(required.keys(), var_names(*task, named, false));
        name_map::lemma_in_order(optional.keys(), var_names(*task, named, true));
        assert(var_views(vars@) =~= var_listing(*task, named));
    }
    Ok(vars)
}

// ---- a task that is ready to run ----

/// The first variable of a list that a task needs and that is not given.
pub open spec fn first_missing(
    list: Seq<DocumentedVar<Seq<char>>>,
    given: Set<Seq<char>>,
) -> Option<Seq<char>>
    decreases list.len(),
{
    if list.len() == 0 {
        None
    } else {
        match first_missing(list.drop_last(), given) {
            Some(name) => Some(name),
            None => if list.last().optional || given.contains(list.last().name) {
                None
            } else {
                Some(list.last().name)
            },
        }
    }
}

/// The first of some names that is not given.
pub open spec fn first_absent(names: Seq<Seq<char>>, given: Set<Seq<char>>) -> Option<Seq<char>>
    decreases names.len(),
{
    if names.len() == 0 {
        None
    } else {
        match first_absent(names.drop_last(), given) {
            Some(name) => Some(name),
            None => if given.contains(names.last()) {
                None
            } else {
                Some(names.last())
            },
        }
    }
}

/// That the environment `env` does not have the variable `name` that a task needs.
pub open spec fn env_fault(
    task_name: Seq<char>,
    name: Seq<char>,
    env: EnvironmentView,
) -> TaskError<Seq<char>> {
    TaskError::MissingEnvVar {
        task: task_name,
        name,
        invalid: if env.invalid.contains_key(name) {
            Some(env.invalid[name])
        } else {
            None
        },
    }
}

/// Why a task cannot be run with the variables `vars` in the environment `env`: a template
/// is malformed, a variable that it needs is not given, or an environment variable that it
/// mentions is not set or not valid Unicode.
pub open spec fn inputs_fault(
    task_name: Seq<char>,
    task: Task,
    vars: Set<Seq<char>>,
    env: EnvironmentView,
) -> Option<TaskError<Seq<char>>> {
    match task_vars(task) {
        Err(cause) => Some(TaskError::InvalidTemplate { cause }),
        Ok(list) => match first_missing(list, vars) {
            Some(name) => Some(TaskError::MissingVar { task: task_name, name }),
            None => match first_absent(
                config::referenced(task.run, false)->Ok_0,
                env.texts.dom(),
            ) {
                Some(name) => Some(env_fault(task_name, name, env)),
                None => None,
            },
        },
    }
}

/// What stands for a part of a template. A variable that is not given stands for nothing.
pub open spec fn part_text(
    part: TemplatePart<Seq<char>>,
    vars: Map<Seq<char>, Seq<char>>,
    env: Map<Seq<char>, Seq<char>>,
) -> Seq<char> {
    match part {
        TemplatePart::Literal(literal) => literal,
        TemplatePart::Placeholder(Placeholder::Client(name)) => if vars.contains_key(name) {
            vars[name]
        } else {
            Seq::empty()
        },
        TemplatePart::Placeholder(Placeholder::Env(name)) => env[name],
    }
}

/// The parts of a template, each with what stands for it.
pub open spec fn filled(
    parts: Seq<TemplatePart<Seq<char>>>,
    vars: Map<Seq<char>, Seq<char>>,
    env: Map<Seq<char>, Seq<char>>,
) -> Seq<char>
    decreases parts.len(),
{
    if parts.len() == 0 {
        Seq::empty()
    } else {
        filled(parts.drop_last(), vars, env) + part_text(parts.last(), vars, env)
    }
}

/// A template with its placeholders filled.
pub open spec fn rendered(
    source: Seq<char>,
    vars: Map<Seq<char>, Seq<char>>,
    env: Map<Seq<char>, Seq<char>>,
) -> Seq<char> {
    filled(template::template_parts(source)->Ok_0, vars, env)
}

/// Templates with their placeholders filled.
pub open spec fn rendered_all(
    sources: Seq<Seq<char>>,
    vars: Map<Seq<char>, Seq<char>>,
    env: Map<Seq<char>, Seq<char>>,
) -> Seq<Seq<char>> {
    sources.map_values(|source: Seq<char>| rendered(source, vars, env))
}

/// Why a part of a template cannot be filled: its variable is needed and not given, or its
/// environment variable is not set or not valid Unicode.
pub open spec fn part_fault(
    task_name: Seq<char>,
    part: TemplatePart<Seq<char>>,
    task: Task,
    vars: Set<Seq<char>>,
    env: EnvironmentView,
) -> Option<TaskError<Seq<char>>> {
    match part {
        TemplatePart::Literal(_) => None,
        TemplatePart::Placeholder(Placeholder::Client(name)) => if vars.contains(name)
            || var_entry(task, name).optional {
            None
        } else {
            Some(TaskError::MissingVar { task: task_name, name })
        },
        TemplatePart::Placeholder(Placeholder::Env(name)) => if env.texts.contains_key(name) {
            None
        } else {
            Some(env_fault(task_name, name, env))
        },
    }
}

/// Why the first part of a template that cannot be filled cannot be.
pub open spec fn parts_fault(
    task_name: Seq<char>,
    parts: Seq<TemplatePart<Seq<char>>>,
    task: Task,
    vars: Set<Seq<char>>,
    env: EnvironmentView,
) -> Option<TaskError<Seq<char>>>
    decreases parts.len(),
{
    if parts.len() == 0 {
        None
    } else {
        match parts_fault(task_name, parts.drop_last(), task, vars, env) {
            Some(error) => Some(error),
            None => part_fault(task_name, parts.last(), task, vars, env),
        }
    }
}

/// A template of a task with its placeholders filled, or why it cannot be filled.
pub open spec fn rendering(
    task_name: Seq<char>,
    source: Seq<char>,
    task: Task,
    vars: Map<Seq<char>, Seq<char>>,
    env: EnvironmentView,
) -> Result<Seq<char>, TaskError<Seq<char>>> {
    match template::template_parts(source) {
        Err(cause) => Err(TaskError::UnfillableTemplate { task: task_name, cause }),
        Ok(parts) => match parts_fault(task_name, parts, task, vars.dom(), env) {
            Some(error) => Err(error),
            None => Ok(rendered(source, vars, env.texts)),
        },
    }
}

/// Why the first one of some templates that cannot be filled cannot be.
pub open spec fn words_fault(
    task_name: Seq<char>,
    sources: Seq<Seq<char>>,
    task: Task,
    vars: Map<Seq<char>, Seq<char>>,
    env: EnvironmentView,
) -> Option<TaskError<Seq<char>>>
    decreases sources.len(),
{
    if sources.len() == 0 {
        None
    } else {
        match words_fault(task_name, sources.drop_last(), task, vars, env) {
            Some(error) => Some(error),
            None => match rendering(task_name, sources.last(), task, vars, env) {
                Ok(_) => None,
                Err(error) => Some(error),
            },
        }
    }
}

/// Whether a template can be filled: it is well formed, each variable in it is given or
/// optional, and each environment variable in it is set.
pub open spec fn resolvable(
    source: Seq<char>,
    task: Task,
    vars: Set<Seq<char>>,
    env: Set<Seq<char>>,
) -> bool {
    &&& template::template_parts(source) is Ok
    &&& forall|name: Seq<char>| #[trigger]
        config::part_names(template::template_parts(source)->Ok_0, true).contains(name)
            ==> vars.contains(name) || var_entry(task, name).optional
    &&& forall|name: Seq<char>| #[trigger]
        config::part_names(template::template_parts(source)->Ok_0, false).contains(name)
            ==> env.contains(name)
}

/// What `shell_words::split` makes of a command line: its words, or nothing where a quote
/// is not closed.
pub uninterp spec fn shell_split(command: Seq<char>) -> Option<Seq<Seq<char>>>;

/// The words of a command line, once it was split: there has to be at least one.
pub open spec fn accepted_words(task_name: Seq<char>, words: Option<Seq<Seq<char>>>) -> Result<
    Seq<Seq<char>>,
    TaskError<Seq<char>>,
> {
    match words {
        None => Err(TaskError::InvalidCommandString { task: task_name }),
        Some(words) => if words.len() == 0 {
            Err(TaskError::EmptyCommandString { task: task_name })
        } else {
            Ok(words)
        },
    }
}

/// The words of each command of a task. The placeholders of a command line are filled
/// before it is split.
pub open spec fn run_words(
    task_name: Seq<char>,
    run: TaskRun,
    vars: Map<Seq<char>, Seq<char>>,
    env: Map<Seq<char>, Seq<char>>,
) -> Result<Seq<Seq<Seq<char>>>, TaskError<Seq<char>>> {
    match run {
        TaskRun::String(command) => match accepted_words(
            task_name,
            shell_split(rendered(command@, vars, env)),
        ) {
            Ok(words) => Ok(seq![words]),
            Err(error) => Err(error),
        },
        TaskRun::Command(argv) => Ok(seq![rendered_all(text::texts(argv@), vars, env)]),
        TaskRun::Sequence(steps) => Ok(
            text::rows(steps@).map_values(|argv: Seq<Seq<char>>| rendered_all(argv, vars, env)),
        ),
    }
}

/// Commands with arguments added to the last one.
pub open spec fn with_forwarded(steps: Seq<Seq<Seq<char>>>, args: Seq<Seq<char>>) -> Seq<
    Seq<Seq<char>>,
> {
    if steps.len() == 0 {
        steps
    } else {
        steps.drop_last().push(steps.last() + args)
    }
}

/// The commands of a task that is run with the variables `vars` in the environment `env`,
/// or why it cannot be run.
pub open spec fn prepared_steps(
    task_name: Seq<char>,
    task: Task,
    vars: Map<Seq<char>, Seq<char>>,
    forwarded: Seq<Seq<char>>,
    env: EnvironmentView,
) -> Result<Seq<Seq<Seq<char>>>, TaskError<Seq<char>>> {
    match inputs_fault(task_name, task, vars.dom(), env) {
        Some(error) => Err(error),
        None => match run_words(task_name, task.run, vars, env.texts) {
            Ok(steps) => Ok(with_forwarded(steps, forwarded)),
            Err(error) => Err(error),
        },
    }
}

/// The directory in which a task runs.
pub open spec fn working_dir(local_root: Seq<char>, task: Task) -> Seq<char> {
    match task.cwd {
        Some(cwd) => paths::path_joined(local_root, cwd@),
        None => local_root,
    }
}

/// Whether `prepared` is what the preparation of a task has to give: its commands, where and
/// with what they run, or why it cannot be run.
pub open spec fn prepares(
    task_name: Seq<char>,
    task: Task,
    local_root: Seq<char>,
    vars: Map<Seq<char>, Seq<char>>,
    forwarded: Seq<Seq<char>>,
    env: EnvironmentView,
    prepared: Result<PreparedTask, TaskError>,
) -> bool {
    let steps = prepared_steps(task_name, task, vars, forwarded, env);
    match prepared {
        Ok(prepared) => {
            &&& steps == Ok::<_, TaskError<Seq<char>>>(text::rows(prepared.steps@))
            &&& prepared.cwd@ == working_dir(local_root, task)
            &&& prepared.env@ == task.env@
            &&& prepared.timeout == task.timeout
        },
        Err(error) => steps == Err::<Seq<Seq<Seq<char>>>, _>(error@),
    }
}

proof fn lemma_first_missing_stays(
    list: Seq<DocumentedVar<Seq<char>>>,
    given: Set<Seq<char>>,
    at: int,
)
    requires
        0 <= at <= list.len(),
        first_missing(list.take(at), given) is Some,
    ensures
        first_missing(list, given) == first_missing(list.take(at), given),
    decreases list.len() - at,
{
    if at == list.len() {
        assert(list.take(at) == list);
    } else {
        assert(list.take(at + 1).drop_last() == list.take(at));
        lemma_first_missing_stays(list, given, at + 1);
    }
}

proof fn lemma_first_absent_stays(names: Seq<Seq<char>>, given: Set<Seq<char>>, at: int)
    requires
        0 <= at <= names.len(),
        first_absent(names.take(at), given) is Some,
    ensures
        first_absent(names, given) == first_absent(names.take(at), given),
    decreases names.len() - at,
{
    if at == names.len() {
        assert(names.take(at) == names);
    } else {
        assert(names.take(at + 1).drop_last() == names.take(at));
        lemma_first_absent_stays(names, given, at + 1);
    }
}

/// No name of a list is absent just if all of them are given.
pub proof fn lemma_none_absent(names: Seq<Seq<char>>, given: Set<Seq<char>>)
    ensures
        first_absent(names, given) is None <==> forall|name: Seq<char>| #[trigger]
            names.contains(name) ==> given.contains(name),
    decreases names.len(),
{
    if names.len() > 0 {
        let short = names.drop_last();
        lemma_none_absent(short, given);
        assert forall|name: Seq<char>| #[trigger] names.contains(name) <==> short.contains(name)
            || name == names.last() by {
            if short.contains(name) {
                assert(names[short.index_of(name)] == name);
            }
            if name == names.last() {
                assert(names[names.len() - 1] == name);
            }
            if names.contains(name) && name != names.last() {
                assert(short[names.index_of(name)] == name);
            }
        }
        if first_absent(names, given) is None {
            assert forall|name: Seq<char>| #[trigger] names.contains(name) implies given.contains(
                name,
            ) by {
                assert(short.contains(name) || name == names.last());
            }
        }
        if forall|name: Seq<char>| #[trigger] names.contains(name) ==> given.contains(name) {
            assert forall|name: Seq<char>| #[trigger] short.contains(name) implies given.contains(
                name,
            ) by {
                assert(names.contains(name));
            }
            assert(names.contains(names.last()));
        }
    }
}

proof fn lemma_flat_contains(steps: Seq<Seq<Seq<char>>>, row: int, word: Seq<char>)
    requires
        0 <= row < steps.len(),
        steps[row].contains(word),
    ensures
        config::flat(steps).contains(word),
    decreases steps.len(),
{
    let short = steps.drop_last();
    let before = config::flat(short);
    if row == steps.len() - 1 {
        let i = steps.last().index_of(word);
        assert((before + steps.last())[before.len() + i] == word);
    } else {
        assert(short[row] == steps[row]);
        lemma_flat_contains(short, row, word);
        assert((before + steps.last())[before.index_of(word)] == word);
    }
}

/// The templates of a task whose inputs have no fault can all be filled.
pub proof fn lemma_words_resolvable(
    task_name: Seq<char>,
    task: Task,
    vars: Set<Seq<char>>,
    env: EnvironmentView,
)
    requires
        inputs_fault(task_name, task, vars, env) is None,
    ensures
        forall|row: int, at: int|
            0 <= row < config::run_steps(task.run).len() && 0 <= at < config::run_steps(
                task.run,
            )[row].len() ==> resolvable(
                #[trigger] config::run_steps(task.run)[row][at],
                task,
                vars,
                env.texts.dom(),
            ),
{
    let steps = config::run_steps(task.run);
    let sources = config::run_templates(task.run);
    config::lemma_no_fault(sources);
    config::lemma_referenced(task.run, true);
    config::lemma_referenced(task.run, false);
    lemma_inputs_suffice(task_name, task, vars, env);
    assert forall|row: int, at: int|
        0 <= row < steps.len() && 0 <= at < steps[row].len() implies resolvable(
        #[trigger] steps[row][at],
        task,
        vars,
        env.texts.dom(),
    ) by {
        let word = steps[row][at];
        assert(steps[row].contains(word));
        lemma_flat_contains(steps, row, word);
        let place = sources.index_of(word);
        assert(template::template_parts(sources[place]) is Ok);
        let parts = template::template_parts(sources[place])->Ok_0;
        assert forall|name: Seq<char>| #[trigger]
            config::part_names(parts, true).contains(name) implies vars.contains(name) || var_entry(
            task,
            name,
        ).optional by {
            assert(config::referenced(task.run, true)->Ok_0.contains(name));
        }
        assert forall|name: Seq<char>| #[trigger]
            config::part_names(parts, false).contains(name) implies env.texts.dom().contains(
            name,
        ) by {
            assert(config::referenced(task.run, false)->Ok_0.contains(name));
        }
    }
}

/// The error of `shell_words`.
#[verifier::external_type_specification]
#[verifier::external_body]
pub struct ExParseError(shell_words::ParseError);

/// `shell_words::split`: the result depends on the command line alone. It fails just where
/// a quote is not closed.
#[verifier::external_body]
fn split_words(command: &str) -> (words: Result<Vec<String>, shell_words::ParseError>)
    ensures
        (match words {
            Ok(words) => Some(text::texts(words@)),
            Err(_) => None,
        }) == shell_split(command@),
{
    shell_words::split(command)
}

/// Accepts the words of a command line, which are none where it could not be split.
pub fn accept_words(task_name: &str, words: Option<Vec<String>>) -> (argv: Result<
    Vec<String>,
    TaskError,
>)
    ensures
        ({
            let given = match words {
                Some(words) => Some(text::texts(words@)),
                None => None,
            };
            match argv {
                Ok(argv) => accepted_words(task_name@, given) == Ok::<_, TaskError<Seq<char>>>(
                    text::texts(argv@),
                ),
                Err(error) => accepted_words(task_name@, given) == Err::<Seq<Seq<char>>, _>(error@),
            }
        }),
{
    match words {
        None => Err(TaskError::InvalidCommandString { task: task_name.to_owned() }),
        Some(words) => if words.len() == 0 {
            Err(TaskError::EmptyCommandString { task: task_name.to_owned() })
        } else {
            Ok(words)
        },
    }
}

/// Splits the command line of the task `task_name` into words.
fn split_string_run(task_name: &str, command: &str) -> (argv: Result<Vec<String>, TaskError>)
    ensures
        match argv {
            Ok(argv) => accepted_words(task_name@, shell_split(command@)) == Ok::<
                _,
                TaskError<Seq<char>>,
            >(text::texts(argv@)),
            Err(error) => accepted_words(task_name@, shell_split(command@)) == Err::<
                Seq<Seq<char>>,
                _,
            >(error@),
        },
{
    let words = match split_words(command) {
        Ok(words) => Some(words),
        Err(_) => None,
    };
    accept_words(task_name, words)
}

proof fn lemma_parts_fault_stays(
    task_name: Seq<char>,
    parts: Seq<TemplatePart<Seq<char>>>,
    task: Task,
    vars: Set<Seq<char>>,
    env: EnvironmentView,
    at: int,
)
    requires
        0 <= at <= parts.len(),
        parts_fault(task_name, parts.take(at), task, vars, env) is Some,
    ensures
        parts_fault(task_name, parts, task, vars, env) == parts_fault(
            task_name,
            parts.take(at),
            task,
            vars,
            env,
        ),
    decreases parts.len() - at,
{
    if at == parts.len() {
        assert(parts.take(at) == parts);
    } else {
        assert(parts.take(at + 1).drop_last() == parts.take(at));
        lemma_parts_fault_stays(task_name, parts, task, vars, env, at + 1);
    }
}

proof fn lemma_words_fault_stays(
    task_name: Seq<char>,
    sources: Seq<Seq<char>>,
    task: Task,
    vars: Map<Seq<char>, Seq<char>>,
    env: EnvironmentView,
    at: int,
)
    requires
        0 <= at <= sources.len(),
        words_fault(task_name, sources.take(at), task, vars, env) is Some,
    ensures
        words_fault(task_name, sources, task, vars, env) == words_fault(
            task_name,
            sources.take(at),
            task,
            vars,
            env,
        ),
    decreases sources.len() - at,
{
    if at == sources.len() {
        assert(sources.take(at) == sources);
    } else {
        assert(sources.take(at + 1).drop_last() == sources.take(at));
        lemma_words_fault_stays(task_name, sources, task, vars, env, at + 1);
    }
}

/// The name in a placeholder of a template, or nothing for other parts.
spec fn part_name(part: TemplatePart<Seq<char>>, client: bool) -> Option<Seq<char>> {
    match part {
        TemplatePart::Placeholder(Placeholder::Client(name)) => if client {
            Some(name)
        } else {
            None
        },
        TemplatePart::Placeholder(Placeholder::Env(name)) => if client {
            None
        } else {
            Some(name)
        },
        TemplatePart::Literal(_) => None,
    }
}

proof fn lemma_part_names_next(parts: Seq<TemplatePart<Seq<char>>>, client: bool)
    requires
        parts.len() > 0,
    ensures
        forall|name: Seq<char>| #[trigger]
            config::part_names(parts, client).contains(name) <==> config::part_names(
                parts.drop_last(),
                client,
            ).contains(name) || part_name(parts.last(), client) == Some(name),
{
    let before = config::part_names(parts.drop_last(), client);
    let all = config::part_names(parts, client);
    assert forall|name: Seq<char>| #[trigger] all.contains(name) <==> before.contains(name)
        || part_name(parts.last(), client) == Some(name) by {
        if before.contains(name) {
            assert(all[before.index_of(name)] == name);
        }
        if part_name(parts.last(), client) == Some(name) {
            assert(all[before.len() as int] == name);
        }
        if all.contains(name) && part_name(parts.last(), client) != Some(name) {
            let at = all.index_of(name);
            assert(before[at] == name);
        }
    }
}

proof fn lemma_no_parts_fault(
    task_name: Seq<char>,
    parts: Seq<TemplatePart<Seq<char>>>,
    task: Task,
    vars: Set<Seq<char>>,
    env: EnvironmentView,
)
    ensures
        parts_fault(task_name, parts, task, vars, env) is None <==> {
            &&& forall|name: Seq<char>| #[trigger]
                config::part_names(parts, true).contains(name) ==> vars.contains(name)
                    || var_entry(task, name).optional
            &&& forall|name: Seq<char>| #[trigger]
                config::part_names(parts, false).contains(name) ==> env.texts.dom().contains(name)
        },
    decreases parts.len(),
{
    if parts.len() > 0 {
        let short = parts.drop_last();
        let last = parts.last();
        lemma_no_parts_fault(task_name, short, task, vars, env);
        lemma_part_names_next(parts, true);
        lemma_part_names_next(parts, false);
        let given = |name: Seq<char>| vars.contains(name) || var_entry(task, name).optional;
        let set = |name: Seq<char>| env.texts.dom().contains(name);
        if parts_fault(task_name, parts, task, vars, env) is Some {
            if parts_fault(task_name, short, task, vars, env) is Some {
                if exists|name: Seq<char>| #[trigger]
                    config::part_names(short, true).contains(name) && !given(name) {
                    let name = choose|name: Seq<char>| #[trigger]
                        config::part_names(short, true).contains(name) && !given(name);
                    assert(config::part_names(parts, true).contains(name));
                } else {
                    let name = choose|name: Seq<char>| #[trigger]
                        config::part_names(short, false).contains(name) && !set(name);
                    assert(config::part_names(parts, false).contains(name));
                }
            } else if part_name(last, true) is Some {
                assert(config::part_names(parts, true).contains(part_name(last, true)->0));
            } else {
                assert(config::part_names(parts, false).contains(part_name(last, false)->0));
            }
        } else {
            assert forall|name: Seq<char>| #[trigger]
                config::part_names(parts, true).contains(name) implies vars.contains(name)
                || var_entry(task, name).optional by {
                assert(config::part_names(short, true).contains(name) || part_name(last, true)
                    == Some(name));
            }
            assert forall|name: Seq<char>| #[trigger]
                config::part_names(parts, false).contains(name) implies env.texts.dom().contains(
                name,
            ) by {
                assert(config::part_names(short, false).contains(name) || part_name(last, false)
                    == Some(name));
            }
        }
    }
}

/// A template can be filled just if it is well formed, each variable in it is given or
/// optional, and each environment variable in it is set.
pub proof fn lemma_rendering(
    task_name: Seq<char>,
    source: Seq<char>,
    task: Task,
    vars: Map<Seq<char>, Seq<char>>,
    env: EnvironmentView,
)
    ensures
        rendering(task_name, source, task, vars, env) is Ok <==> resolvable(
            source,
            task,
            vars.dom(),
            env.texts.dom(),
        ),
{
    if let Ok(parts) = template::template_parts(source) {
        lemma_no_parts_fault(task_name, parts, task, vars.dom(), env);
    }
}

proof fn lemma_words_faultless(
    task_name: Seq<char>,
    sources: Seq<Seq<char>>,
    task: Task,
    vars: Map<Seq<char>, Seq<char>>,
    env: EnvironmentView,
)
    requires
        forall|i: int|
            0 <= i < sources.len() ==> resolvable(
                #[trigger] sources[i],
                task,
                vars.dom(),
                env.texts.dom(),
            ),
    ensures
        words_fault(task_name, sources, task, vars, env) is None,
    decreases sources.len(),
{
    if sources.len() > 0 {
        let short = sources.drop_last();
        assert forall|i: int| 0 <= i < short.len() implies resolvable(
            #[trigger] short[i],
            task,
            vars.dom(),
            env.texts.dom(),
        ) by {
            assert(short[i] == sources[i]);
        }
        lemma_words_faultless(task_name, short, task, vars, env);
        assert(resolvable(sources[sources.len() - 1], task, vars.dom(), env.texts.dom()));
        lemma_rendering(task_name, sources.last(), task, vars, env);
    }
}

/// That the environment `env` does not have the variable `name` that a task needs.
fn missing_env_var(task_name: &str, name: &str, env: &Environment) -> (error: TaskError)
    ensures
        error@ == env_fault(task_name@, name@, env@),
{
    let invalid = match env.invalid.get(name) {
        Some(shown) => Some(shown.clone()),
        None => None,
    };
    TaskError::MissingEnvVar { task: task_name.to_owned(), name: name.to_owned(), invalid }
}

/// Fills the placeholders of the template `source` of the task `task_name`.
pub fn render_template(
    task_name: &str,
    source: &str,
    task: &Task,
    vars: &NameMap<String>,
    env: &Environment,
) -> (result: Result<String, TaskError>)
    ensures
        match result {
            Ok(result) => rendering(task_name@, source@, *task, text::map_texts(vars@), env@)
                == Ok::<_, TaskError<Seq<char>>>(result@),
            Err(error) => rendering(task_name@, source@, *task, text::map_texts(vars@), env@)
                == Err::<Seq<char>, _>(error@),
        },
        result is Ok <==> resolvable(source@, *task, vars@.dom(), env.texts@.dom()),
{
    let ghost given = text::map_texts(vars@);
    let ghost around = env@;
    proof {
        assert(given.dom() =~= vars@.dom());
        assert(around.texts.dom() =~= env.texts@.dom());
        lemma_rendering(task_name@, source@, *task, given, around);
    }
    let parts = match parse_template(source) {
        Ok(parts) => parts,
        Err(cause) => {
            return Err(TaskError::UnfillableTemplate { task: task_name.to_owned(), cause });
        },
    };
    let ghost views = template::part_views(parts@);
    let mut result = String::new();
    for index in 0..parts.len()
        invariant
            given == text::map_texts(vars@),
            given.dom() == vars@.dom(),
            around == env@,
            around.texts.dom() == env.texts@.dom(),
            views == template::part_views(parts@),
            template::template_parts(source@) == Ok::<_, TemplateError<Seq<char>>>(views),
            rendering(task_name@, source@, *task, given, around) is Ok <==> resolvable(
                source@,
                *task,
                vars@.dom(),
                env.texts@.dom(),
            ),
            parts_fault(task_name@, views.take(index as int), *task, given.dom(), around) is None,
            result@ == filled(views.take(index as int), given, around.texts),
    {
        proof {
            assert(views.take(index + 1).drop_last() == views.take(index as int));
            assert(views[index as int] == parts@[index as int]@);
            if parts_fault(
                task_name@,
                views.take(index + 1),
                *task,
                given.dom(),
                around,
            ) is Some {
                lemma_parts_fault_stays(
                    task_name@,
                    views,
                    *task,
                    given.dom(),
                    around,
                    index + 1,
                );
            }
        }
        match &parts[index] {
            TemplatePart::Literal(literal) => {
                result.append(literal.as_str());
            },
            TemplatePart::Placeholder(Placeholder::Client(name)) => {
                match vars.get(name.as_str()) {
                    Some(value) => {
                        result.append(value.as_str());
                    },
                    None => {
                        if !documented_var(task, name.as_str()).optional {
                            return Err(
                                TaskError::MissingVar {
                                    task: task_name.to_owned(),
                                    name: name.clone(),
                                },
                            );
                        }
                        assert(result@ + Seq::<char>::empty() == result@);
                    },
                }
            },
            TemplatePart::Placeholder(Placeholder::Env(name)) => {
                match env.texts.get(name.as_str()) {
                    Some(value) => {
                        result.append(value.as_str());
                    },
                    None => {
                        return Err(missing_env_var(task_name, name.as_str(), env));
                    },
                }
            },
        }
    }
    assert(views.take(parts@.len() as int) == views);
    Ok(result)
}

/// Fills the placeholders of all words of a command.
fn render_argv(
    task_name: &str,
    argv: &[String],
    task: &Task,
    vars: &NameMap<String>,
    env: &Environment,
) -> (result: Result<Vec<String>, TaskError>)
    ensures
        ({
            let sources = text::texts(argv@);
            let given = text::map_texts(vars@);
            match result {
                Ok(words) => {
                    &&& words_fault(task_name@, sources, *task, given, env@) is None
                    &&& text::texts(words@) == rendered_all(sources, given, env@.texts)
                },
                Err(error) => words_fault(task_name@, sources, *task, given, env@) == Some(error@),
            }
        }),
{
    let ghost given = text::map_texts(vars@);
    let ghost sources = text::texts(argv@);
    let mut words: Vec<String> = Vec::new();
    for index in 0..argv.len()
        invariant
            given == text::map_texts(vars@),
            sources == text::texts(argv@),
            words@.len() == index,
            words_fault(task_name@, sources.take(index as int), *task, given, env@) is None,
            forall|i: int|
                0 <= i < index ==> (#[trigger] words@[i])@ == rendered(
                    argv@[i]@,
                    given,
                    env@.texts,
                ),
    {
        proof {
            assert(sources[index as int] == argv@[index as int]@);
            assert(sources.take(index + 1).drop_last() == sources.take(index as int));
        }
        match render_template(task_name, argv[index].as_str(), task, vars, env) {
            Ok(word) => words.push(word),
            Err(error) => {
                proof {
                    lemma_words_fault_stays(task_name@, sources, *task, given, env@, index + 1);
                }
                return Err(error);
            },
        }
    }
    assert(sources.take(argv@.len() as int) == sources);
    assert(text::texts(words@) =~= rendered_all(sources, given, env@.texts));
    Ok(words)
}

/// Checks that the variables `vars` and the environment `env` have all that `task` needs.
fn validate_client_vars(
    task_name: &str,
    task: &Task,
    vars: &NameMap<String>,
    env: &Environment,
) -> (result: Result<(), TaskError>)
    ensures
        match result {
            Ok(()) => inputs_fault(task_name@, *task, vars@.dom(), env@) is None,
            Err(error) => inputs_fault(task_name@, *task, vars@.dom(), env@) == Some(error@),
        },
{
    let documented = match documented_vars(task) {
        Ok(documented) => documented,
        Err(cause) => return Err(TaskError::InvalidTemplate { cause }),
    };
    let ghost list = var_views(documented@);
    for index in 0..documented.len()
        invariant
            list == var_views(documented@),
            task_vars(*task) == Ok::<_, TemplateError<Seq<char>>>(list),
            first_missing(list.take(index as int), vars@.dom()) is None,
    {
        let var = &documented[index];
        proof {
            assert(list[index as int] == var@);
            assert(list.take(index + 1).drop_last() == list.take(index as int));
        }
        if !var.optional && !vars.contains_key(var.name.as_str()) {
            proof {
                lemma_first_missing_stays(list, vars@.dom(), index + 1);
            }
            return Err(
                TaskError::MissingVar { task: task_name.to_owned(), name: var.name.clone() },
            );
        }
    }
    assert(list.take(documented@.len() as int) == list);
    let mentioned = match task.referenced_env_vars() {
        Ok(mentioned) => mentioned,
        Err(cause) => return Err(TaskError::InvalidTemplate { cause }),
    };
    let ghost names = text::texts(mentioned@);
    for index in 0..mentioned.len()
        invariant
            list == var_views(documented@),
            task_vars(*task) == Ok::<_, TemplateError<Seq<char>>>(list),
            first_missing(list, vars@.dom()) is None,
            names == text::texts(mentioned@),
            config::referenced(task.run, false) == Ok::<_, TemplateError<Seq<char>>>(names),
            first_absent(names.take(index as int), env@.texts.dom()) is None,
    {
        let name = &mentioned[index];
        proof {
            assert(names[index as int] == name@);
            assert(names.take(index + 1).drop_last() == names.take(index as int));
        }
        if !env.texts.contains_key(name.as_str()) {
            proof {
                lemma_first_absent_stays(names, env@.texts.dom(), index + 1);
            }
            return Err(missing_env_var(task_name, name.as_str(), env));
        }
    }
    assert(names.take(mentioned@.len() as int) == names);
    Ok(())
}

/// The directory in which `task` runs.
pub fn task_cwd(local_root: &str, task: &Task) -> (cwd: String)
    ensures
        cwd@ == working_dir(local_root@, *task),
{
    match &task.cwd {
        Some(cwd) => join_path(local_root, cwd.as_str()),
        None => local_root.to_owned(),
    }
}

/// Adds `args` to the last one of the commands `steps`.
pub fn forward_args(steps: Vec<Vec<String>>, args: &[String]) -> (result: Vec<Vec<String>>)
    ensures
        text::rows(result@) == with_forwarded(text::rows(steps@), text::texts(args@)),
{
    let ghost given = text::rows(steps@);
    let mut result = steps;
    match result.pop() {
        None => result,
        Some(last) => {
            let ghost before = text::texts(last@);
            let ghost kept = result@;
            assert(text::rows(kept) =~= given.drop_last());
            assert(given.last() == before);
            let mut last = last;
            for index in 0..args.len()
                invariant
                    text::texts(last@) == before + text::texts(args@).take(index as int),
            {
                let ghost held = last@;
                last.push(args[index].clone());
                proof {
                    let all = text::texts(args@);
                    assert(text::texts(last@) =~= text::texts(held).push(all[index as int]));
                    assert(all.take(index + 1) =~= all.take(index as int).push(all[index as int]));
                }
            }
            result.push(last);
            proof {
                assert(text::texts(args@).take(args@.len() as int) =~= text::texts(args@));
                assert(text::rows(result@) =~= text::rows(kept).push(text::texts(last@)));
            }
            result
        },
    }
}

/// Prepares the task `task_name` for a run with the variables `vars`, in the environment
/// `env`. The arguments `forwarded_args` are added to the last command.
pub fn prepare_task(
    task_name: &str,
    task: &Task,
    local_root: &str,
    vars: &NameMap<String>,
    forwarded_args: &[String],
    env: &Environment,
) -> (prepared: Result<PreparedTask, TaskError>)
    ensures
        prepares(
            task_name@,
            *task,
            local_root@,
            text::map_texts(vars@),
            text::texts(forwarded_args@),
            env@,
            prepared,
        ),
{
    let ghost given = text::map_texts(vars@);
    let ghost around = env@.texts;
    assert(given.dom() =~= vars@.dom());
    match validate_client_vars(task_name, task, vars, env) {
        Ok(()) => {},
        Err(error) => return Err(error),
    }
    proof {
        lemma_words_resolvable(task_name@, *task, given.dom(), env@);
        assert(env@.texts.dom() =~= env.texts@.dom());
    }
    let mut steps: Vec<Vec<String>> = Vec::new();
    match &task.run {
        TaskRun::String(command) => {
            proof {
                assert(resolvable(
                    config::run_steps(task.run)[0][0],
                    *task,
                    given.dom(),
                    around.dom(),
                ));
                lemma_rendering(task_name@, command@, *task, given, env@);
            }
            let line = match render_template(task_name, command.as_str(), task, vars, env) {
                Ok(line) => line,
                Err(error) => return Err(error),
            };
            match split_string_run(task_name, line.as_str()) {
                Ok(argv) => steps.push(argv),
                Err(error) => return Err(error),
            }
        },
        TaskRun::Command(argv) => {
            proof {
                let sources = config::run_steps(task.run)[0];
                assert forall|i: int| 0 <= i < sources.len() implies resolvable(
                    #[trigger] sources[i],
                    *task,
                    given.dom(),
                    around.dom(),
                ) by {
                    assert(config::run_steps(task.run)[0][i] == sources[i]);
                }
                lemma_words_faultless(task_name@, sources, *task, given, env@);
            }
            match render_argv(task_name, argv.as_slice(), task, vars, env) {
                Ok(words) => steps.push(words),
                Err(error) => return Err(error),
            }
        },
        TaskRun::Sequence(rows) => {
            for row in 0..rows.len()
                invariant
                    given == text::map_texts(vars@),
                    around == env@.texts,
                    task.run == TaskRun::Sequence(*rows),
                    forall|row: int, at: int|
                        0 <= row < config::run_steps(task.run).len() && 0 <= at
                            < config::run_steps(task.run)[row].len() ==> resolvable(
                            #[trigger] config::run_steps(task.run)[row][at],
                            *task,
                            given.dom(),
                            around.dom(),
                        ),
                    steps@.len() == row,
                    forall|i: int|
                        0 <= i < row ==> text::texts((#[trigger] steps@[i])@) == rendered_all(
                            text::texts(rows@[i]@),
                            given,
                            around,
                        ),
            {
                let argv = &rows[row];
                proof {
                    let sources = config::run_steps(task.run)[row as int];
                    assert(sources == text::texts(argv@));
                    assert forall|i: int| 0 <= i < sources.len() implies resolvable(
                        #[trigger] sources[i],
                        *task,
                        given.dom(),
                        around.dom(),
                    ) by {
                        assert(config::run_steps(task.run)[row as int][i] == sources[i]);
                    }
                    lemma_words_faultless(task_name@, sources, *task, given, env@);
                }
                match render_argv(task_name, argv.as_slice(), task, vars, env) {
                    Ok(words) => steps.push(words),
                    Err(error) => {
                        assert(false);
                        return Err(error);
                    },
                }
            }
        },
    }
    proof {
        match &task.run {
            TaskRun::String(_) => {
                assert(text::rows(steps@) =~= seq![text::texts(steps@[0]@)]);
            },
            TaskRun::Command(_) => {
                assert(text::rows(steps@) =~= seq![text::texts(steps@[0]@)]);
            },
            TaskRun::Sequence(rows) => {
                assert(text::rows(steps@) =~= text::rows(rows@).map_values(
                    |argv: Seq<Seq<char>>| rendered_all(argv, given, around),
                ));
            },
        }
    }
    let steps = forward_args(steps, forwarded_args);
    let env = task.env.clone();
    assert(env@ =~= task.env@);
    Ok(PreparedTask { steps, cwd: task_cwd(local_root, task), env, timeout: task.timeout })
}

// ---- the help text ----

/// The characters that a shell does not take as they are.
pub open spec fn is_shell_special(ch: char) -> bool {
    ||| ch == '\n' || ch == '\t' || ch == ' '
    ||| ch == '\'' || ch == '"' || ch == '\\' || ch == '`' || ch == '$'
    ||| ch == '|' || ch == '&' || ch == ';' || ch == '<' || ch == '>' || ch == '(' || ch == ')'
    ||| ch == '*' || ch == '?' || ch == '[' || ch == '#' || ch == '~' || ch == '=' || ch == '%'
}

/// A word as it is written for a shell: as it is where that is safe, and in single quotes
/// otherwise.
pub open spec fn shell_quoted(word: Seq<char>) -> Seq<char> {
    if word.len() > 0 && forall|i: int| 0 <= i < word.len() ==> !is_shell_special(#[trigger] word[i]) {
        word
    } else {
        seq!['\''] + text::replaced(word, seq!['\''], seq!['\'', '\\', '\'', '\'']) + seq!['\'']
    }
}

/// A command as it would be typed.
pub open spec fn argv_line(argv: Seq<Seq<char>>) -> Seq<char> {
    text::joined(argv.map_values(|word: Seq<char>| shell_quoted(word)), " "@)
}

/// The commands of a task as they would be typed, before their placeholders are filled.
pub open spec fn run_line(run: TaskRun) -> Seq<char> {
    match run {
        TaskRun::String(command) => command@,
        TaskRun::Command(argv) => argv_line(text::texts(argv@)),
        TaskRun::Sequence(steps) => text::joined(
            text::rows(steps@).map_values(|argv: Seq<Seq<char>>| argv_line(argv)),
            " && "@,
        ),
    }
}

/// How the variables of a task are given, in its usage line.
pub open spec fn usage_vars(list: Seq<DocumentedVar<Seq<char>>>) -> Seq<char>
    decreases list.len(),
{
    if list.len() == 0 {
        Seq::empty()
    } else {
        usage_vars(list.drop_last()) + (if list.last().optional {
            " ["@ + list.last().name + "=<value>]"@
        } else {
            " "@ + list.last().name + "=<value>"@
        })
    }
}

/// What the help text says of a variable.
pub open spec fn var_detail(var: DocumentedVar<Seq<char>>) -> Seq<char> {
    if !var.documented {
        if var.optional {
            "undocumented (optional, inferred)"@
        } else {
            "undocumented (required, inferred)"@
        }
    } else {
        match var.description {
            Some(description) => description + (if var.optional {
                " (optional)"@
            } else {
                " (required)"@
            }),
            None => if var.optional {
                "optional"@
            } else {
                "required"@
            },
        }
    }
}

/// The line of a variable in the help text.
pub open spec fn var_line(var: DocumentedVar<Seq<char>>) -> Seq<char> {
    "    "@ + var.name + "=<value>  "@ + var_detail(var)
}

/// The lines of a task in the help text.
pub open spec fn task_lines(command_name: Seq<char>, name: Seq<char>, task: Task) -> Seq<
    Seq<char>,
> {
    let list = task_vars(task)->Ok_0;
    seq![name] + (match task.description {
        Some(description) => seq!["  "@ + description@],
        None => Seq::empty(),
    }) + seq![
        "  usage: "@ + command_name + " "@ + name + usage_vars(list) + " [-- <args...>]"@,
        "  run: "@ + run_line(task.run),
    ] + (if list.len() > 0 {
        seq!["  vars:"@] + list.map_values(|var: DocumentedVar<Seq<char>>| var_line(var))
    } else {
        Seq::empty()
    })
}

/// The lines of all tasks, with an empty line between two tasks.
pub open spec fn help_lines(
    command_name: Seq<char>,
    names: Seq<Seq<char>>,
    tasks: Map<Seq<char>, Task>,
) -> Seq<Seq<char>>
    decreases names.len(),
{
    if names.len() == 0 {
        Seq::empty()
    } else {
        help_lines(command_name, names.drop_last(), tasks) + (if names.len() > 1 {
            seq![Seq::empty()]
        } else {
            Seq::empty()
        }) + task_lines(command_name, names.last(), tasks[names.last()])
    }
}

/// The help text of the tasks `names`.
pub open spec fn help_text(
    command_name: Seq<char>,
    names: Seq<Seq<char>>,
    tasks: Map<Seq<char>, Task>,
) -> Seq<char> {
    if names.len() == 0 {
        "no tasks defined"@
    } else {
        text::joined(help_lines(command_name, names, tasks), "\n"@)
    }
}

/// The first malformed template of the tasks `names`.
pub open spec fn help_fault(names: Seq<Seq<char>>, tasks: Map<Seq<char>, Task>) -> Option<
    TemplateError<Seq<char>>,
>
    decreases names.len(),
{
    if names.len() == 0 {
        None
    } else {
        match help_fault(names.drop_last(), tasks) {
            Some(error) => Some(error),
            None => config::first_fault(config::run_templates(tasks[names.last()].run)),
        }
    }
}

proof fn lemma_help_fault_stays(names: Seq<Seq<char>>, tasks: Map<Seq<char>, Task>, at: int)
    requires
        0 <= at <= names.len(),
        help_fault(names.take(at), tasks) is Some,
    ensures
        help_fault(names, tasks) == help_fault(names.take(at), tasks),
    decreases names.len() - at,
{
    if at == names.len() {
        assert(names.take(at) == names);
    } else {
        assert(names.take(at + 1).drop_last() == names.take(at));
        lemma_help_fault_stays(names, tasks, at + 1);
    }
}

/// `shell_words::quote`: a word that is not empty and holds no character that is special
/// to a shell comes back as it is. Any other word comes back in single quotes, and a single
/// quote in it as `'\''`.
#[verifier::external_body]
fn quote_word(word: &str) -> (quoted: String)
    ensures
        quoted@ == shell_quoted(word@),
{
    shell_words::quote(word).into_owned()
}

/// A command as it would be typed.
fn argv_preview(argv: &[String]) -> (line: String)
    ensures
        line@ == argv_line(text::texts(argv@)),
{
    let mut words: Vec<String> = Vec::new();
    for index in 0..argv.len()
        invariant
            words@.len() == index,
            forall|i: int| 0 <= i < index ==> (#[trigger] words@[i])@ == shell_quoted(argv@[i]@),
    {
        words.push(quote_word(argv[index].as_str()));
    }
    assert(text::texts(words@) =~= text::texts(argv@).map_values(
        |word: Seq<char>| shell_quoted(word),
    ));
    join(words.as_slice(), " ")
}

/// The commands of `task` as they would be typed, before their placeholders are filled.
pub fn run_preview(task: &Task) -> (line: String)
    ensures
        line@ == run_line(task.run),
{
    match &task.run {
        TaskRun::String(command) => command.clone(),
        TaskRun::Command(argv) => argv_preview(argv.as_slice()),
        TaskRun::Sequence(steps) => {
            let mut lines: Vec<String> = Vec::new();
            for index in 0..steps.len()
                invariant
                    lines@.len() == index,
                    forall|i: int|
                        0 <= i < index ==> (#[trigger] lines@[i])@ == argv_line(
                            text::texts(steps@[i]@),
                        ),
            {
                lines.push(argv_preview(steps[index].as_slice()));
            }
            assert(text::texts(lines@) =~= text::rows(steps@).map_values(
                |argv: Seq<Seq<char>>| argv_line(argv),
            ));
            join(lines.as_slice(), " && ")
        },
    }
}

/// How the variables `vars` are given, in the usage line.
fn usage_var_suffix(vars: &[DocumentedVar]) -> (suffix: String)
    ensures
        suffix@ == usage_vars(var_views(vars@)),
{
    let ghost list = var_views(vars@);
    let mut suffix = String::new();
    for index in 0..vars.len()
        invariant
            list == var_views(vars@),
            suffix@ == usage_vars(list.take(index as int)),
    {
        let var = &vars[index];
        proof {
            assert(list[index as int] == var@);
            assert(list.take(index + 1).drop_last() == list.take(index as int));
        }
        let piece = if var.optional {
            " [".to_owned().concat(var.name.as_str()).concat("=<value>]")
        } else {
            " ".to_owned().concat(var.name.as_str()).concat("=<value>")
        };
        suffix.append(piece.as_str());
    }
    assert(list.take(vars@.len() as int) == list);
    suffix
}

/// The line of `var` in the help text.
fn var_help(var: &DocumentedVar) -> (line: String)
    ensures
        line@ == var_line(var@),
{
    let detail = if !var.documented {
        if var.optional {
            "undocumented (optional, inferred)".to_owned()
        } else {
            "undocumented (required, inferred)".to_owned()
        }
    } else {
        match &var.description {
            Some(description) => if var.optional {
                description.clone().concat(" (optional)")
            } else {
                description.clone().concat(" (required)")
            },
            None => if var.optional {
                "optional".to_owned()
            } else {
                "required".to_owned()
            },
        }
    };
    "    ".to_owned().concat(var.name.as_str()).concat("=<value>  ").concat(detail.as_str())
}

/// Adds `line` to `lines`.
fn add_line(lines: &mut Vec<String>, line: String)
    ensures
        text::texts(final(lines)@) == text::texts(old(lines)@).push(line@),
{
    let ghost held = lines@;
    lines.push(line);
    assert(text::texts(lines@) =~= text::texts(held).push(line@));
}

/// Adds the lines of the task `name` to `lines`.
fn add_task_help(lines: &mut Vec<String>, command_name: &str, name: &str, task: &Task) -> (result:
    Result<(), TemplateError>)
    ensures
        match result {
            Ok(()) => {
                &&& config::first_fault(config::run_templates(task.run)) is None
                &&& text::texts(final(lines)@) == text::texts(old(lines)@) + task_lines(
                    command_name@,
                    name@,
                    *task,
                )
            },
            Err(error) => config::first_fault(config::run_templates(task.run)) == Some(error@),
        },
{
    let vars = match documented_vars(task) {
        Ok(vars) => vars,
        Err(error) => return Err(error),
    };
    let ghost held = text::texts(lines@);
    let ghost list = var_views(vars@);
    let ghost wanted = task_lines(command_name@, name@, *task);
    add_line(lines, name.to_owned());
    if let Some(description) = &task.description {
        add_line(lines, "  ".to_owned().concat(description.as_str()));
    }
    let suffix = usage_var_suffix(vars.as_slice());
    add_line(
        lines,
        "  usage: ".to_owned().concat(command_name).concat(" ").concat(name).concat(
            suffix.as_str(),
        ).concat(" [-- <args...>]"),
    );
    add_line(lines, "  run: ".to_owned().concat(run_preview(task).as_str()));
    if vars.len() == 0 {
        assert(text::texts(lines@) =~= held + wanted);
        return Ok(());
    }
    add_line(lines, "  vars:".to_owned());
    let ghost head = text::texts(lines@);
    let ghost mapped = list.map_values(|var: DocumentedVar<Seq<char>>| var_line(var));
    for index in 0..vars.len()
        invariant
            list == var_views(vars@),
            mapped == list.map_values(|var: DocumentedVar<Seq<char>>| var_line(var)),
            text::texts(lines@) == head + mapped.take(index as int),
    {
        let line = var_help(&vars[index]);
        proof {
            assert(list[index as int] == vars@[index as int]@);
            assert(mapped.take(index + 1) =~= mapped.take(index as int).push(line@));
        }
        add_line(lines, line);
    }
    proof {
        assert(mapped.take(vars@.len() as int) =~= mapped);
        assert(text::texts(lines@) =~= held + wanted);
    }
    Ok(())
}

/// The help text of `tasks`, for invocations through `command_name`.
pub fn task_help(command_name: &str, tasks: &NameMap<Task>) -> (help: Result<
    String,
    TemplateError,
>)
    ensures
        match help {
            Ok(help) => {
                &&& help_fault(tasks.keys(), tasks@) is None
                &&& help@ == help_text(command_name@, tasks.keys(), tasks@)
            },
            Err(error) => help_fault(tasks.keys(), tasks@) == Some(error@),
        },
{
    let count = tasks.len();
    if count == 0 {
        return Ok("no tasks defined".to_owned());
    }
    let ghost keys = tasks.keys();
    let mut lines: Vec<String> = Vec::new();
    assert(text::texts(lines@) =~= help_lines(command_name@, keys.take(0), tasks@));
    for index in 0..count
        invariant
            keys == tasks.keys(),
            count == keys.len(),
            help_fault(keys.take(index as int), tasks@) is None,
            text::texts(lines@) == help_lines(command_name@, keys.take(index as int), tasks@),
    {
        proof {
            assert(keys.take(index + 1).drop_last() == keys.take(index as int));
        }
        let ghost before = text::texts(lines@);
        if index > 0 {
            add_line(&mut lines, String::new());
        }
        proof {
            assert(text::texts(lines@) =~= before + (if index > 0 {
                seq![Seq::<char>::empty()]
            } else {
                Seq::empty()
            }));
        }
        match add_task_help(
            &mut lines,
            command_name,
            tasks.name_at(index).as_str(),
            tasks.value_at(index),
        ) {
            Ok(()) => {},
            Err(error) => {
                proof {
                    lemma_help_fault_stays(keys, tasks@, index + 1);
                }
                return Err(error);
            },
        }
    }
    assert(keys.take(count as int) == keys);
    Ok(join(lines.as_slice(), "\n"))
}

// ---- what holds of tasks ----

/// The listing of a task's variables is complete and in order: it has the documented
/// variables and those that the commands mention, each of them once, with what is known of
/// it; the ones that are needed come first, and the names ascend in both groups.
pub proof fn lemma_var_listing(task: Task, mentioned: Seq<Seq<char>>)
    ensures
        ({
            let list = var_listing(task, mentioned);
            &&& forall|i: int|
                0 <= i < list.len() ==> {
                    &&& #[trigger] list[i] == var_entry(task, list[i].name)
                    &&& task.vars@.contains_key(list[i].name) || mentioned.contains(list[i].name)
                }
            &&& forall|name: Seq<char>|
                #![trigger var_entry(task, name)]
                task.vars@.contains_key(name) || mentioned.contains(name) ==> list.contains(
                    var_entry(task, name),
                )
            &&& forall|i: int, j: int|
                0 <= i < j < list.len() ==> {
                    ||| !(#[trigger] list[i]).optional && (#[trigger] list[j]).optional
                    ||| list[i].optional == list[j].optional && text::text_before(
                        list[i].name,
                        list[j].name,
                    )
                }
        }),
{
    let list = var_listing(task, mentioned);
    let needed = var_names(task, mentioned, false);
    let spare = var_names(task, mentioned, true);
    let cover = task.vars.keys() + mentioned;
    name_map::lemma_keys(task.vars);
    assert forall|key: Seq<char>|
        task.vars@.contains_key(key) || mentioned.contains(key) implies #[trigger] cover.contains(
        key,
    ) by {
        if task.vars.keys().contains(key) {
            assert(cover[task.vars.keys().index_of(key)] == key);
        } else {
            assert(cover[task.vars.keys().len() + mentioned.index_of(key)] == key);
        }
    }
    name_map::lemma_in_order_exists(cover, needed);
    name_map::lemma_in_order_exists(cover, spare);
    let first = name_map::in_order(needed);
    let second = name_map::in_order(spare);
    assert forall|i: int| 0 <= i < list.len() implies {
        &&& #[trigger] list[i] == var_entry(task, list[i].name)
        &&& task.vars@.contains_key(list[i].name) || mentioned.contains(list[i].name)
        &&& list[i].optional == (i >= first.len())
        &&& list[i].name == if i < first.len() {
            first[i]
        } else {
            second[i - first.len()]
        }
    } by {
        if i < first.len() {
            assert(first.contains(first[i]));
            assert(needed.contains(first[i]));
        } else {
            let at = i - first.len();
            assert(second.contains(second[at]));
            assert(spare.contains(second[at]));
        }
    }
    assert forall|name: Seq<char>|
        #![trigger var_entry(task, name)]
        task.vars@.contains_key(name) || mentioned.contains(name) implies list.contains(
        var_entry(task, name),
    ) by {
        if var_entry(task, name).optional {
            assert(spare.contains(name));
            assert(second.contains(name));
            assert(list[first.len() + second.index_of(name)] == var_entry(task, name));
        } else {
            assert(needed.contains(name));
            assert(first.contains(name));
            assert(list[first.index_of(name)] == var_entry(task, name));
        }
    }
    assert forall|i: int, j: int| 0 <= i < j < list.len() implies {
        ||| !(#[trigger] list[i]).optional && (#[trigger] list[j]).optional
        ||| list[i].optional == list[j].optional && text::text_before(list[i].name, list[j].name)
    } by {
        if j < first.len() {
            assert(text::text_before(first[i], first[j]));
        } else if i >= first.len() {
            assert(text::text_before(second[i - first.len()], second[j - first.len()]));
        }
    }
}

proof fn lemma_none_missing(list: Seq<DocumentedVar<Seq<char>>>, given: Set<Seq<char>>)
    ensures
        first_missing(list, given) is None <==> forall|i: int|
            0 <= i < list.len() ==> (#[trigger] list[i]).optional || given.contains(list[i].name),
    decreases list.len(),
{
    if list.len() > 0 {
        let short = list.drop_last();
        lemma_none_missing(short, given);
        let last = list[list.len() - 1];
        if first_missing(list, given) is None {
            assert forall|i: int| 0 <= i < list.len() implies (#[trigger] list[i]).optional
                || given.contains(list[i].name) by {
                if i < short.len() {
                    assert(short[i] == list[i]);
                }
            }
        }
        if forall|i: int|
            0 <= i < list.len() ==> (#[trigger] list[i]).optional || given.contains(list[i].name) {
            assert forall|i: int| 0 <= i < short.len() implies (#[trigger] short[i]).optional
                || given.contains(short[i].name) by {
                assert(short[i] == list[i]);
            }
            assert(last.optional || given.contains(last.name));
        }
    }
}

/// A task whose templates are well formed can be run just if every variable that it
/// documents or mentions is given or optional, and every environment variable that it
/// mentions is set.
pub proof fn lemma_inputs_suffice(
    task_name: Seq<char>,
    task: Task,
    vars: Set<Seq<char>>,
    env: EnvironmentView,
)
    requires
        config::first_fault(config::run_templates(task.run)) is None,
    ensures
        inputs_fault(task_name, task, vars, env) is None <==> {
            &&& forall|name: Seq<char>|
                #![trigger var_entry(task, name)]
                task.vars@.contains_key(name) || config::referenced(
                    task.run,
                    true,
                )->Ok_0.contains(name) ==> var_entry(task, name).optional || vars.contains(name)
            &&& forall|name: Seq<char>| #[trigger]
                config::referenced(task.run, false)->Ok_0.contains(name) ==> env.texts.contains_key(
                    name,
                )
        },
{
    let mentioned = config::referenced(task.run, true)->Ok_0;
    let list = var_listing(task, mentioned);
    lemma_var_listing(task, mentioned);
    lemma_none_missing(list, vars);
    lemma_none_absent(config::referenced(task.run, false)->Ok_0, env.texts.dom());
    let all_given = forall|name: Seq<char>|
        #![trigger var_entry(task, name)]
        task.vars@.contains_key(name) || mentioned.contains(name) ==> var_entry(
            task,
            name,
        ).optional || vars.contains(name);
    if first_missing(list, vars) is None {
        assert forall|name: Seq<char>|
            #![trigger var_entry(task, name)]
            task.vars@.contains_key(name) || mentioned.contains(name) implies var_entry(
            task,
            name,
        ).optional || vars.contains(name) by {
            let entry = var_entry(task, name);
            assert(list.contains(entry));
            assert(list[list.index_of(entry)] == entry);
        }
    }
    if all_given {
        assert forall|i: int| 0 <= i < list.len() implies (#[trigger] list[i]).optional
            || vars.contains(list[i].name) by {
            assert(list[i] == var_entry(task, list[i].name));
        }
    }
}

/// A valid task can be run whenever its inputs are there, unless its command line, once
/// filled, does not split into words.
pub proof fn lemma_valid_task_runs(
    task_name: Seq<char>,
    task: Task,
    vars: Map<Seq<char>, Seq<char>>,
    forwarded: Seq<Seq<char>>,
    env: EnvironmentView,
)
    requires
        config::task_fault(task_name, task) is None,
    ensures
        match prepared_steps(task_name, task, vars, forwarded, env) {
            Ok(steps) => steps.len() == config::run_steps(task.run).len(),
            Err(error) => {
                ||| error is MissingVar
                ||| error is MissingEnvVar
                ||| task.run is String && (error is InvalidCommandString
                    || error is EmptyCommandString)
            },
        },
{
    config::lemma_run_templates_faultless(task_name, task.run);
}

/// The help text of a valid configuration can always be written.
pub proof fn lemma_valid_config_helps(config: config::Config)
    requires
        config::config_fault(config) is None,
    ensures
        help_fault(config.tasks.keys(), config.tasks@) is None,
{
    config::lemma_tasks_faultless(config.tasks.keys(), config.tasks@);
    lemma_no_help_fault(config.tasks.keys(), config.tasks@);
}

proof fn lemma_no_help_fault(names: Seq<Seq<char>>, tasks: Map<Seq<char>, Task>)
    requires
        forall|i: int|
            0 <= i < names.len() ==> config::named_task_fault(
                #[trigger] names[i],
                tasks[names[i]],
            ) is None,
    ensures
        help_fault(names, tasks) is None,
    decreases names.len(),
{
    if names.len() > 0 {
        let short = names.drop_last();
        assert forall|i: int| 0 <= i < short.len() implies config::named_task_fault(
            #[trigger] short[i],
            tasks[short[i]],
        ) is None by {
            assert(short[i] == names[i]);
        }
        lemma_no_help_fault(short, tasks);
        let last = names[names.len() - 1];
        assert(config::named_task_fault(last, tasks[last]) is None);
        config::lemma_run_templates_faultless(last, tasks[last].run);
    }
}

/// Forwarded arguments reach the last command only, behind its own words.
pub proof fn lemma_forwarded_to_last(steps: Seq<Seq<Seq<char>>>, args: Seq<Seq<char>>)
    requires
        steps.len() > 0,
    ensures
        with_forwarded(steps, args).len() == steps.len(),
        with_forwarded(steps, args).last() == steps.last() + args,
        forall|i: int|
            0 <= i < steps.len() - 1 ==> #[trigger] with_forwarded(steps, args)[i] == steps[i],
        args.len() == 0 ==> with_forwarded(steps, args) == steps,
{
    if args.len() == 0 {
        assert(steps.last() + args == steps.last());
        assert(with_forwarded(steps, args) =~= steps);
    }
}

/// A template is filled part by part: literals stay as they are, and each placeholder
/// stands for its value, whatever characters that value holds.
pub proof fn lemma_rendered_parts(
    parts: Seq<TemplatePart<Seq<char>>>,
    vars: Map<Seq<char>, Seq<char>>,
    env: Map<Seq<char>, Seq<char>>,
)
    requires
        template::canonical(parts),
    ensures
        rendered(template::template_source(parts), vars, env) == filled(parts, vars, env),
{
    template::lemma_template_writes(parts);
}

/// Any text can be written as a template that stands for it: with its braces doubled.
pub proof fn lemma_escaped_renders(
    literal: Seq<char>,
    vars: Map<Seq<char>, Seq<char>>,
    env: Map<Seq<char>, Seq<char>>,
)
    ensures
        template::template_parts(template::escaped(literal)) is Ok,
        rendered(template::escaped(literal), vars, env) == literal,
{
    let parts: Seq<TemplatePart<Seq<char>>> = if literal.len() == 0 {
        Seq::empty()
    } else {
        seq![TemplatePart::Literal(literal)]
    };
    template::lemma_template_writes(parts);
    reveal_with_fuel(template::template_source, 2);
    reveal_with_fuel(filled, 2);
    if literal.len() == 0 {
        assert(literal == Seq::<char>::empty());
    } else {
        assert(parts.drop_last() == Seq::<TemplatePart<Seq<char>>>::empty());
        assert(Seq::<char>::empty() + template::escaped(literal) == template::escaped(literal));
        assert(Seq::<char>::empty() + literal == literal);
    }
}

} // verus!
