//! The local server: which requests it takes, when a task may start, and what it sends
//! back while the task runs.
use vstd::prelude::*;

use crate::config::Task;
use crate::encoding;
use crate::encoding::encode_json_string;
use crate::helper::{HELPER_SCRIPT, PORT_MARK};
use crate::name_map::NameMap;
use crate::tasks;
use crate::tasks::{
    prepare_task, task_help, Environment, EnvironmentView, PreparedTask, TaskError,
    CHECKHEALTH_NAME, TASKS_HELP_NAME,
};
use crate::text;
use crate::text::{
    decimal_text, join, replace_all, same_text, signed_decimal_text, trim_end,
};
use crate::time_span;
use crate::time_span::TimeSpan;

verus! {

/// A request to run a task.
#[derive(Debug, Clone, PartialEq, Eq)]
pub struct RpcRequest {
    pub task: String,
    pub vars: NameMap<String>,
    /// The arguments for the last command.
    pub args: Vec<String>,
    /// What the remote machine wrote for the local one to see.
    pub sync_token: Option<String>,
}

/// What is sent back while a task runs.
#[derive(Debug, Clone, PartialEq, Eq)]
pub enum RpcEvent<S = String> {
    /// Output of the task, in base64.
    Stdout { chunk_b64: S },
    /// Error output of the task, in base64.
    Stderr { chunk_b64: S },
    /// The task has ended.
    Exit { code: i32 },
}

impl View for RpcEvent<String> {
    type V = RpcEvent<Seq<char>>;

    open spec fn view(&self) -> RpcEvent<Seq<char>> {
        match self {
            RpcEvent::Stdout { chunk_b64 } => RpcEvent::Stdout { chunk_b64: chunk_b64@ },
            RpcEvent::Stderr { chunk_b64 } => RpcEvent::Stderr { chunk_b64: chunk_b64@ },
            RpcEvent::Exit { code } => RpcEvent::Exit { code: *code },
        }
    }
}

/// What a JSON text of output starts with.
pub open spec fn stdout_head() -> Seq<char> {
    "{\"type\":\"stdout\",\"chunk_b64\":"@
}

/// What a JSON text of error output starts with.
pub open spec fn stderr_head() -> Seq<char> {
    "{\"type\":\"stderr\",\"chunk_b64\":"@
}

/// What the JSON text of the end of a task starts with.
pub open spec fn exit_head() -> Seq<char> {
    "{\"type\":\"exit\",\"code\":"@
}

/// An event as a JSON object.
pub open spec fn event_json(event: RpcEvent<Seq<char>>) -> Seq<char> {
    match event {
        RpcEvent::Stdout { chunk_b64 } => {
            stdout_head() + encoding::json_string(chunk_b64) + "}"@
        },
        RpcEvent::Stderr { chunk_b64 } => {
            stderr_head() + encoding::json_string(chunk_b64) + "}"@
        },
        RpcEvent::Exit { code } => exit_head() + text::signed_decimal(code as int) + "}"@,
    }
}

impl RpcEvent<String> {
    /// The event as a JSON object.
    pub fn to_json(&self) -> (json: String)
        ensures
            json@ == event_json(self@),
    {
        match self {
            RpcEvent::Stdout { chunk_b64 } => {
                "{\"type\":\"stdout\",\"chunk_b64\":".to_owned().concat(
                    encode_json_string(chunk_b64.as_str()).as_str(),
                ).concat("}")
            },
            RpcEvent::Stderr { chunk_b64 } => {
                "{\"type\":\"stderr\",\"chunk_b64\":".to_owned().concat(
                    encode_json_string(chunk_b64.as_str()).as_str(),
                ).concat("}")
            },
            RpcEvent::Exit { code } => {
                "{\"type\":\"exit\",\"code\":".to_owned().concat(
                    signed_decimal_text(*code).as_str(),
                ).concat("}")
            },
        }
    }
}

/// What stands in a JSON text between `head` and the brace that closes it.
pub open spec fn json_body(json: Seq<char>, head: Seq<char>) -> Option<Seq<char>> {
    if head.len() < json.len() && json.take(head.len() as int) == head && json.last() == '}' {
        Some(json.subrange(head.len() as int, json.len() - 1))
    } else {
        None
    }
}

/// The text that a JSON string stands for.
pub open spec fn string_value(json: Seq<char>) -> Option<Seq<char>> {
    if json.len() >= 2 && json[0] == '"' && json.last() == '"' {
        encoding::json_text(json.subrange(1, json.len() - 1))
    } else {
        None
    }
}

/// The event that a JSON text stands for.
pub open spec fn json_event(json: Seq<char>) -> Option<RpcEvent<Seq<char>>> {
    match (json_body(json, stdout_head()), json_body(json, stderr_head()), json_body(
        json,
        exit_head(),
    )) {
        (Some(body), _, _) => match string_value(body) {
            Some(chunk_b64) => Some(RpcEvent::Stdout { chunk_b64 }),
            None => None,
        },
        (None, Some(body), _) => match string_value(body) {
            Some(chunk_b64) => Some(RpcEvent::Stderr { chunk_b64 }),
            None => None,
        },
        (None, None, Some(body)) => match text::signed_value(body) {
            Some(code) => Some(RpcEvent::Exit { code: code as i32 }),
            None => None,
        },
        (None, None, None) => None,
    }
}

proof fn lemma_string_value(text: Seq<char>)
    ensures
        string_value(encoding::json_string(text)) == Some(text),
        !encoding::json_string(text).contains('\n'),
{
    let json = encoding::json_string(text);
    let contents = encoding::json_contents(text);
    encoding::lemma_json_reads_back(text);
    assert(json.subrange(1, json.len() - 1) =~= contents);
    if json.contains('\n') {
        let at = json.index_of('\n');
        assert(0 < at < json.len() - 1);
        assert(contents[at - 1] == '\n');
    }
}

proof fn lemma_json_body(head: Seq<char>, body: Seq<char>)
    ensures
        json_body(head + body + "}"@, head) == Some(body),
        !head.contains('\n') && !body.contains('\n') ==> !(head + body + "}"@).contains('\n'),
{
    reveal_strlit("}");
    let json = head + body + "}"@;
    assert(json.take(head.len() as int) =~= head);
    assert(json.subrange(head.len() as int, json.len() - 1) =~= body);
    if !head.contains('\n') && !body.contains('\n') && json.contains('\n') {
        let at = json.index_of('\n');
        if at < head.len() {
            assert(head[at] == '\n');
        } else if at < head.len() + body.len() {
            assert(body[at - head.len()] == '\n');
        } else {
            assert("}"@[0] == '\n');
        }
    }
}

/// The three heads differ, and stand on one line.
proof fn lemma_heads()
    ensures
        stdout_head().len() == 29,
        stderr_head().len() == 29,
        exit_head().len() == 22,
        stdout_head()[12] == 'o',
        stderr_head()[12] == 'e',
        stdout_head()[9] == 's',
        stderr_head()[9] == 's',
        exit_head()[9] == 'e',
        !stdout_head().contains('\n'),
        !stderr_head().contains('\n'),
        !exit_head().contains('\n'),
{
    reveal_strlit("{\"type\":\"stdout\",\"chunk_b64\":");
    reveal_strlit("{\"type\":\"stderr\",\"chunk_b64\":");
    reveal_strlit("{\"type\":\"exit\",\"code\":");
}

/// An event is read back from its JSON text, which stands on one line.
pub proof fn lemma_event_reads_back(event: RpcEvent<Seq<char>>)
    ensures
        json_event(event_json(event)) == Some(event),
        !event_json(event).contains('\n'),
{
    let json = event_json(event);
    lemma_heads();
    match event {
        RpcEvent::Stdout { chunk_b64 } => {
            lemma_string_value(chunk_b64);
            lemma_json_body(stdout_head(), encoding::json_string(chunk_b64));
        },
        RpcEvent::Stderr { chunk_b64 } => {
            lemma_string_value(chunk_b64);
            lemma_json_body(stderr_head(), encoding::json_string(chunk_b64));
            assert(json.take(29)[12] == stderr_head()[12]);
        },
        RpcEvent::Exit { code } => {
            let body = text::signed_decimal(code as int);
            text::lemma_signed_decimal_reads_back(code as int);
            text::lemma_signed_decimal_plain(code as int);
            lemma_json_body(exit_head(), body);
            assert(json[9] == exit_head()[9]);
            if json.len() > 29 {
                assert(json.take(29)[9] == json[9]);
            }
        },
    }
}

/// A request was refused: the HTTP status and the body of the answer.
#[derive(Debug, PartialEq, Eq)]
pub struct RpcResponseError {
    pub status: u16,
    pub message: String,
}

impl RpcResponseError {
    /// The refusal with this status and this body.
    pub fn new(status: u16, message: String) -> (error: RpcResponseError)
        ensures
            error.status == status,
            error.message == message,
    {
        RpcResponseError { status, message }
    }

    /// Whether the refusal has this status and this body.
    pub open spec fn says(self, status: u16, message: Seq<char>) -> bool {
        self.status == status && self.message@ == message
    }
}

/// The status for a request that cannot be carried out.
pub const STATUS_BAD_REQUEST: u16 = 400;

/// The status for a task that does not exist.
pub const STATUS_NOT_FOUND: u16 = 404;

/// The status for files that did not arrive in time.
pub const STATUS_REQUEST_TIMEOUT: u16 = 408;

/// The status for a fault of the server.
pub const STATUS_INTERNAL_SERVER_ERROR: u16 = 500;

// ---- which requests are taken ----

/// A request that was taken.
#[derive(Debug, PartialEq, Eq)]
pub enum Admission {
    /// The task runs at once.
    Run { task: PreparedTask },
    /// The task runs as soon as `token` has arrived.
    AwaitSync { task: PreparedTask, token: String },
}

/// Whether a task of this name runs without waiting for files.
pub open spec fn skips_sync(name: Seq<char>) -> bool {
    name == TASKS_HELP_NAME@ || name == CHECKHEALTH_NAME@
}

/// Whether `answer` is the answer to `request`: a task that does not exist or cannot be
/// prepared is refused, and so is a request that should wait for files and names no token.
pub open spec fn answers(
    tasks: Map<Seq<char>, Task>,
    local_root: Seq<char>,
    request: RpcRequest,
    env: EnvironmentView,
    answer: Result<Admission, RpcResponseError>,
) -> bool {
    let name = request.task@;
    if !tasks.contains_key(name) {
        answer matches Err(error) && error.says(
            STATUS_NOT_FOUND,
            TaskError::UnknownTask { task: name }.text(),
        )
    } else {
        let vars = text::map_texts(request.vars@);
        let forwarded = text::texts(request.args@);
        match tasks::prepared_steps(name, tasks[name], vars, forwarded, env) {
            Err(fault) => answer matches Err(error) && error.says(STATUS_BAD_REQUEST, fault.text()),
            Ok(_) => if skips_sync(name) {
                answer matches Ok(Admission::Run { task }) && tasks::prepares(
                    name,
                    tasks[name],
                    local_root,
                    vars,
                    forwarded,
                    env,
                    Ok(task),
                )
            } else {
                match request.sync_token {
                    None => answer matches Err(error) && error.says(
                        STATUS_BAD_REQUEST,
                        "missing sync token for remote task execution"@,
                    ),
                    Some(expected) => answer matches Ok(Admission::AwaitSync { task, token })
                        && token@ == expected@ && tasks::prepares(
                        name,
                        tasks[name],
                        local_root,
                        vars,
                        forwarded,
                        env,
                        Ok(task),
                    ),
                }
            },
        }
    }
}

/// Decides on a request to run one of `tasks`, in the environment `env`.
pub fn admit_request(
    tasks: &NameMap<Task>,
    local_root: &str,
    request: &RpcRequest,
    env: &Environment,
) -> (answer: Result<Admission, RpcResponseError>)
    ensures
        answers(tasks@, local_root@, *request, env@, answer),
{
    let task = match tasks.get(request.task.as_str()) {
        Some(task) => task,
        None => {
            let error = TaskError::UnknownTask { task: request.task.clone() };
            return Err(RpcResponseError::new(STATUS_NOT_FOUND, error.message()));
        },
    };
    let prepared = match prepare_task(
        request.task.as_str(),
        task,
        local_root,
        &request.vars,
        request.args.as_slice(),
        env,
    ) {
        Ok(prepared) => prepared,
        Err(error) => {
            return Err(RpcResponseError::new(STATUS_BAD_REQUEST, error.message()));
        },
    };
    if same_text(request.task.as_str(), TASKS_HELP_NAME) || same_text(
        request.task.as_str(),
        CHECKHEALTH_NAME,
    ) {
        return Ok(Admission::Run { task: prepared });
    }
    match &request.sync_token {
        Some(token) => Ok(Admission::AwaitSync { task: prepared, token: token.clone() }),
        None => Err(
            RpcResponseError::new(
                STATUS_BAD_REQUEST,
                "missing sync token for remote task execution".to_owned(),
            ),
        ),
    }
}

/// A task runs at once only if it is one of those that need no files, and otherwise only
/// after the token that the request named: a request without a token is refused.
pub proof fn lemma_tasks_wait_for_files(
    tasks: Map<Seq<char>, Task>,
    local_root: Seq<char>,
    request: RpcRequest,
    env: EnvironmentView,
    answer: Result<Admission, RpcResponseError>,
)
    requires
        answers(tasks, local_root, request, env, answer),
        !skips_sync(request.task@),
    ensures
        match answer {
            Ok(Admission::Run { .. }) => false,
            Ok(Admission::AwaitSync { token, .. }) => request.sync_token matches Some(named)
                && token@ == named@,
            Err(error) => error.status == STATUS_NOT_FOUND || error.status == STATUS_BAD_REQUEST,
        },
        request.sync_token is None ==> answer is Err,
{
}

/// The answer to a request for the help text of `tasks`.
pub fn help_response(tasks: &NameMap<Task>) -> (answer: Result<String, RpcResponseError>)
    ensures
        match answer {
            Ok(help) => {
                &&& tasks::help_fault(tasks.keys(), tasks@) is None
                &&& help@ == tasks::help_text("sshpal-run"@, tasks.keys(), tasks@)
            },
            Err(error) => {
                &&& tasks::help_fault(tasks.keys(), tasks@) is Some
                &&& error.says(
                    STATUS_INTERNAL_SERVER_ERROR,
                    tasks::help_fault(tasks.keys(), tasks@)->0.text(),
                )
            },
        },
{
    match task_help("sshpal-run", tasks) {
        Ok(help) => Ok(help),
        Err(error) => Err(RpcResponseError::new(STATUS_INTERNAL_SERVER_ERROR, error.message())),
    }
}

// ---- waiting for files ----

/// How long to wait between two looks at the sentinel file, in milliseconds.
pub const SYNC_POLL_MILLIS: u64 = 100;

/// What to do after a look at the sentinel file.
#[derive(Debug, PartialEq, Eq)]
pub enum SyncStep {
    /// The files have arrived.
    Synced,
    /// Look again.
    Wait,
    /// The time is up.
    TimedOut { error: RpcResponseError },
}

/// Whether the sentinel file shows the token: white space at its end does not count.
pub open spec fn shows_token(contents: Option<Seq<char>>, token: Seq<char>) -> bool {
    contents matches Some(contents) && text::without_trailing_white(contents) == token
}

/// What is said when the files did not arrive in time.
pub open spec fn sync_timeout_text(timeout: TimeSpan, sentinel: Seq<char>) -> Seq<char> {
    "timed out waiting "@ + time_span::duration_text(timeout.whole_secs(), timeout.extra_nanos())
        + " for synced sentinel `"@ + sentinel
        + "`; remote changes likely have not propagated to the local machine yet"@
}

/// What to do after a look at the file `sentinel`, which held `contents` if it could be
/// read. A token that has arrived counts even when the time is up.
pub fn sync_step(
    contents: &Option<String>,
    token: &str,
    expired: bool,
    timeout: &TimeSpan,
    sentinel: &str,
) -> (step: SyncStep)
    ensures
        match step {
            SyncStep::Synced => shows_token(text::maybe_text(*contents), token@),
            SyncStep::Wait => !shows_token(text::maybe_text(*contents), token@) && !expired,
            SyncStep::TimedOut { error } => {
                &&& !shows_token(text::maybe_text(*contents), token@)
                &&& expired
                &&& error.says(STATUS_REQUEST_TIMEOUT, sync_timeout_text(*timeout, sentinel@))
            },
        },
{
    if let Some(contents) = contents {
        if same_text(trim_end(contents.as_str()).as_str(), token) {
            return SyncStep::Synced;
        }
    }
    if !expired {
        return SyncStep::Wait;
    }
    let message = "timed out waiting ".to_owned().concat(timeout.text().as_str()).concat(
        " for synced sentinel `",
    ).concat(sentinel).concat(
        "`; remote changes likely have not propagated to the local machine yet",
    );
    SyncStep::TimedOut { error: RpcResponseError::new(STATUS_REQUEST_TIMEOUT, message) }
}

/// A token is recognised in a file that holds it and then any white space, such as the line
/// end that follows it.
pub proof fn lemma_token_recognised(token: Seq<char>, white: Seq<char>)
    requires
        token.len() > 0 ==> !text::is_white(token.last()),
        text::blank(white),
    ensures
        shows_token(Some(token + white), token),
    decreases white.len(),
{
    if white.len() == 0 {
        assert(token + white =~= token);
    } else {
        let short = white.drop_last();
        assert(text::is_white(white[white.len() - 1]));
        assert forall|i: int| 0 <= i < short.len() implies text::is_white(#[trigger] short[i]) by {
            assert(short[i] == white[i]);
        }
        lemma_token_recognised(token, short);
        assert((token + white).drop_last() =~= token + short);
    }
}

// ---- what the server says ----

/// The arguments of an invocation, as the server notes them.
pub open spec fn args_note(args: Seq<Seq<char>>) -> Seq<char> {
    if args.len() == 0 {
        Seq::empty()
    } else {
        " with args ["@ + text::joined(args, ", "@) + "]"@
    }
}

/// The arguments of an invocation, as the server notes them.
pub fn format_invocation_args(args: &[String]) -> (note: String)
    ensures
        note@ == args_note(text::texts(args@)),
{
    if args.len() == 0 {
        String::new()
    } else {
        " with args [".to_owned().concat(join(args, ", ").as_str()).concat("]")
    }
}

/// A command, as the server notes it.
pub fn format_step(argv: &[String]) -> (note: String)
    ensures
        note@ == text::joined(text::texts(argv@), " "@),
{
    join(argv, " ")
}

/// What the server notes when a task is invoked.
pub fn invocation_note(request: &RpcRequest) -> (note: String)
    ensures
        note@ == "sshpal: task invoked `"@ + request.task@ + "`"@ + args_note(
            text::texts(request.args@),
        ),
{
    "sshpal: task invoked `".to_owned().concat(request.task.as_str()).concat("`").concat(
        format_invocation_args(request.args.as_slice()).as_str(),
    )
}

/// What the server notes when the command at `step` of `steps` starts.
pub fn step_note(task_name: &str, steps: &[Vec<String>], step: usize) -> (note: String)
    requires
        step < steps@.len(),
    ensures
        note@ == "sshpal: starting step "@ + text::decimal(step as nat + 1) + "/"@ + text::decimal(
            steps@.len(),
        ) + " for `"@ + task_name@ + "`: "@ + text::joined(text::texts(steps@[step as int]@), " "@),
{
    "sshpal: starting step ".to_owned().concat(decimal_text(step as u128 + 1).as_str()).concat(
        "/",
    ).concat(decimal_text(steps.len() as u128).as_str()).concat(" for `").concat(
        task_name,
    ).concat("`: ").concat(format_step(steps[step].as_slice()).as_str())
}

/// The address of the server.
pub open spec fn server_address(port: u16) -> Seq<char> {
    "127.0.0.1:"@ + text::decimal(port as nat)
}

/// Why the server cannot listen on `port`: because the port is in use, or for another
/// reason, which follows the message.
pub fn bind_failure(port: u16, in_use: bool) -> (message: String)
    ensures
        message@ == "failed to bind RPC server on "@ + server_address(port) + (if in_use {
            ": port already in use; shut down existing sshpal servers or use the rpc_port config option"@
        } else {
            Seq::empty()
        }),
{
    let address = "127.0.0.1:".to_owned().concat(decimal_text(port as u128).as_str());
    let message = "failed to bind RPC server on ".to_owned().concat(address.as_str());
    if in_use {
        message.concat(
            ": port already in use; shut down existing sshpal servers or use the rpc_port config option",
        )
    } else {
        assert(message@ + Seq::<char>::empty() =~= message@);
        message
    }
}

/// The script for the remote machine, which reaches the server through `port`.
pub fn remote_helper_script(port: u16) -> (script: String)
    ensures
        script@ == text::replaced(HELPER_SCRIPT@, PORT_MARK@, text::decimal(port as nat)),
{
    replace_all(HELPER_SCRIPT, PORT_MARK, decimal_text(port as u128).as_str())
}

} // verus!
