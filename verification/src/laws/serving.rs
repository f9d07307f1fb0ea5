//! Serving the remote machine: which of its requests are taken, and what is answered.
use vstd::prelude::*;
use vstd::utf8::encode_utf8;

use crate::config::{Task, TaskRun};
use crate::encoding;
use crate::execution;
use crate::execution::{
    serialize_chunk_event, Directive, Execution, ExecutionView, Reply, StepEvent, TaskOutput,
};
use crate::laws::loading;
use crate::laws::running;
use crate::laws::setup;
use crate::name_map;
use crate::name_map::NameMap;
use crate::rpc;
use crate::rpc::{
    admit_request, bind_failure, help_response, invocation_note, step_note, sync_step, Admission,
    RpcEvent, RpcRequest, RpcResponseError, SyncStep,
};
use crate::streams::{drain_wait, CommandStreams, Sighting};
use crate::tasks;
use crate::tasks::{
    documented_vars, prepare_task, run_preview, task_help, DocumentedVar, Environment,
    PreparedTask, TaskError,
};
use crate::template::TemplateError;
use crate::text;
use crate::text::{decimal_text, signed_decimal_text};
use crate::time_span::TimeSpan;

verus! {

// ---- requests ----

/// Whether a task of this name may run before the files have arrived.
pub open spec fn needs_no_files(name: Seq<char>) -> bool {
    name == "tasks-help"@ || name == "checkhealth"@
}

/// Wherever a task is admitted, at once or behind a token, it is the configured one: it runs
/// in the local root of the server, or in its own directory, seen from there, with its
/// environment variables and its time limit. Only what needs no files runs at once, and all
/// else only behind the token that the request named.
pub proof fn lemma_admitted_task_is_the_configured_one(
    tasks: NameMap<Task>,
    local_root: &str,
    request: RpcRequest,
    env: Environment,
    answer: Result<Admission, RpcResponseError>,
)
    requires
        call_ensures(admit_request, (&tasks, local_root, &request, &env), answer),
    ensures
        match answer {
            Ok(Admission::Run { task }) => {
                &&& tasks@.contains_key(request.task@)
                &&& running::runs_as_configured(task, tasks@[request.task@], local_root@)
                &&& needs_no_files(request.task@)
            },
            Ok(Admission::AwaitSync { task, token }) => {
                &&& tasks@.contains_key(request.task@)
                &&& running::runs_as_configured(task, tasks@[request.task@], local_root@)
                &&& !needs_no_files(request.task@)
                &&& request.sync_token matches Some(named)
                &&& token@ == named@
            },
            Err(_) => true,
        },
        answer matches Ok(admission) ==> {
            let task = match admission {
                Admission::Run { task } => task,
                Admission::AwaitSync { task, .. } => task,
            };
            let configured = tasks@[request.task@];
            &&& configured.cwd is None ==> task.cwd@ == local_root@
            &&& configured.cwd matches Some(cwd) ==> setup::is_task_dir(
                task.cwd@,
                local_root@,
                Some(cwd),
            )
            &&& task.env@ == configured.env@
            &&& task.timeout == configured.timeout
        },
{
    if let Ok(admission) = answer {
        let task = match admission {
            Admission::Run { task } => task,
            Admission::AwaitSync { task, .. } => task,
        };
        setup::lemma_task_dir(local_root@, tasks@[request.task@], task.cwd@);
    }
}

/// A request is answered by what becomes of its task: one that there is not is not found; one
/// that cannot be prepared with the variables and arguments of the request is refused with the
/// report; one that can is run as it would be here, at once where it needs no files and else
/// behind the token, without which it is refused.
pub proof fn lemma_requests_are_answered(
    tasks: NameMap<Task>,
    local_root: &str,
    request: RpcRequest,
    env: Environment,
    name: &str,
    forwarded: &[String],
    alone: Result<PreparedTask, TaskError>,
    answer: Result<Admission, RpcResponseError>,
)
    requires
        call_ensures(admit_request, (&tasks, local_root, &request, &env), answer),
        name@ == request.task@,
        forwarded@ == request.args@,
        call_ensures(
            prepare_task,
            (name, &tasks@[request.task@], local_root, &request.vars, forwarded, &env),
            alone,
        ),
    ensures
        if !tasks@.contains_key(request.task@) {
            &&& answer matches Err(error)
            &&& error.status == 404
            &&& error.message@ == "unknown task `"@ + request.task@ + "`"@
        } else {
            match alone {
                Err(fault) => {
                    &&& answer matches Err(error)
                    &&& error.status == 400
                    &&& forall|message: String| #[trigger]
                        call_ensures(TaskError::message, (&fault,), message) ==> error.message@
                            == message@
                },
                Ok(prepared) => if needs_no_files(request.task@) {
                    &&& answer matches Ok(Admission::Run { task })
                    &&& running::same_preparation(Ok(task), Ok(prepared))
                } else {
                    match request.sync_token {
                        None => {
                            &&& answer matches Err(error)
                            &&& error.status == 400
                            &&& error.message@ == "missing sync token for remote task execution"@
                        },
                        Some(named) => {
                            &&& answer matches Ok(Admission::AwaitSync { task, token })
                            &&& token@ == named@
                            &&& running::same_preparation(Ok(task), Ok(prepared))
                        },
                    }
                },
            }
        },
{
    if tasks@.contains_key(request.task@) && alone is Ok {
        if let Ok(admission) = answer {
            let task = match admission {
                Admission::Run { task } => task,
                Admission::AwaitSync { task, .. } => task,
            };
            running::lemma_same_preparation(
                request.task@,
                tasks@[request.task@],
                local_root@,
                text::map_texts(request.vars@),
                text::texts(request.args@),
                env@,
                Ok(task),
                alone,
            );
        }
    }
}

/// The help text is sent as it is written for `sshpal-run`; where it cannot be written, the
/// fault is the server's.
pub proof fn lemma_help_is_sent(
    tasks: NameMap<Task>,
    help: Result<String, TemplateError>,
    answer: Result<String, RpcResponseError>,
)
    requires
        call_ensures(help_response, (&tasks,), answer),
        call_ensures(task_help, ("sshpal-run", &tasks), help),
    ensures
        match (help, answer) {
            (Ok(help), Ok(sent)) => sent@ == help@,
            (Err(fault), Err(error)) => {
                &&& error.status == 500
                &&& forall|message: String| #[trigger]
                    call_ensures(TemplateError::message, (&fault,), message) ==> error.message@
                        == message@
            },
            _ => false,
        },
{
}

// ---- waiting for files ----

/// Whether a text is `word`, which does not end in white space, and then white space only.
pub open spec fn is_word_and_white(contents: Seq<char>, word: Seq<char>) -> bool {
    &&& word.len() <= contents.len()
    &&& contents.take(word.len() as int) == word
    &&& word.len() > 0 ==> !text::is_white(word.last())
    &&& forall|i: int|
        word.len() <= i < contents.len() ==> text::is_white(#[trigger] contents[i])
}

/// A text without the white space at its end is the word before that white space.
pub proof fn lemma_trimmed(contents: Seq<char>, word: Seq<char>)
    ensures
        text::without_trailing_white(contents) == word <==> is_word_and_white(contents, word),
    decreases contents.len(),
{
    if contents.len() > 0 && text::is_white(contents.last()) {
        let short = contents.drop_last();
        lemma_trimmed(short, word);
        if is_word_and_white(short, word) {
            assert(contents.take(word.len() as int) =~= short.take(word.len() as int));
            assert forall|i: int| word.len() <= i < contents.len() implies text::is_white(
                #[trigger] contents[i],
            ) by {
                if i < short.len() {
                    assert(text::is_white(short[i]));
                }
            }
        }
        if is_word_and_white(contents, word) {
            if word.len() == contents.len() {
                assert(contents.take(word.len() as int) =~= contents);
                assert(word.last() == contents.last());
            }
            assert(short.take(word.len() as int) =~= contents.take(word.len() as int));
            assert forall|i: int| word.len() <= i < short.len() implies text::is_white(
                #[trigger] short[i],
            ) by {
                assert(text::is_white(contents[i]));
            }
        }
    } else {
        assert(contents.take(contents.len() as int) =~= contents);
        if is_word_and_white(contents, word) && word.len() < contents.len() {
            assert(text::is_white(contents[contents.len() - 1]));
        }
    }
}

/// The files have arrived just if the sentinel file holds the token, and at most white space
/// behind it, however late it is seen. Until then the server waits, and when the time is up it
/// gives up, with a message that names how long it waited and which file it looked at.
pub proof fn lemma_waiting_for_files(
    contents: Option<String>,
    token: &str,
    expired: bool,
    timeout: TimeSpan,
    sentinel: &str,
    span: String,
    step: SyncStep,
)
    requires
        call_ensures(sync_step, (&contents, token, expired, &timeout, sentinel), step),
        call_ensures(TimeSpan::text, (&timeout,), span),
    ensures
        ({
            let arrived = contents matches Some(contents) && is_word_and_white(
                contents@,
                token@,
            );
            match step {
                SyncStep::Synced => arrived,
                SyncStep::Wait => !arrived && !expired,
                SyncStep::TimedOut { error } => {
                    &&& !arrived
                    &&& expired
                    &&& error.status == 408
                    &&& error.message@ == "timed out waiting "@ + span@
                        + " for synced sentinel `"@ + sentinel@
                        + "`; remote changes likely have not propagated to the local machine yet"@
                },
            }
        }),
{
    if let Some(contents) = contents {
        lemma_trimmed(contents@, token@);
    }
}

// ---- a task while it runs ----

/// A task starts with its first command: the program is its first word, and the arguments are
/// the others. Without commands it ends at once with 0, and a command without words fails.
pub proof fn lemma_first_command(
    task_name: &str,
    prepared: PreparedTask,
    started: (Execution, Reply),
)
    requires
        call_ensures(Execution::start, (task_name, &prepared), started),
    ensures
        ({
            let outputs = started.1.outputs@;
            let steps = prepared.steps@;
            if steps.len() == 0 {
                &&& outputs.len() == 1
                &&& outputs[0]@ == (TaskOutput::Exit::<Seq<u8>> { code: 0 })
                &&& started.1.next is Finish
            } else if steps[0]@.len() == 0 {
                &&& outputs.len() == 2
                &&& outputs[0]@ == (TaskOutput::Stderr {
                    chunk: encode_utf8("task command is empty\n"@),
                })
                &&& outputs[1]@ == (TaskOutput::Exit::<Seq<u8>> { code: 1 })
                &&& started.1.next is Finish
            } else {
                &&& outputs.len() == 0
                &&& started.1.next matches Directive::Spawn { step, program, args }
                &&& step == 0
                &&& program@ == steps[0]@[0]@
                &&& running::same_words(args@, steps[0]@.skip(1))
            }
        }),
        started.0@.task == task_name@,
        started.0@.timeout == prepared.timeout,
        started.0@.steps == text::rows(prepared.steps@),
        started.0@.current == 0,
        started.0@.running == (prepared.steps@.len() > 0 && prepared.steps@[0]@.len() > 0),
{
    let rows = text::rows(prepared.steps@);
    let outputs = started.1.outputs@;
    let views = execution::output_views(outputs);
    assert(rows.len() == prepared.steps@.len());
    assert(views == started.1@.outputs);
    assert(views.len() == outputs.len());
    assert forall|i: int| 0 <= i < outputs.len() implies views[i] == (#[trigger] outputs[i])@ by {}
    if prepared.steps@.len() > 0 {
        let argv = prepared.steps@[0]@;
        assert(rows[0] == text::texts(argv));
        assert(text::texts(argv).len() == argv.len());
        if argv.len() > 0 {
            if let Directive::Spawn { step, program, args } = started.1.next {
                assert(text::texts(argv)[0] == argv[0]@);
                assert(text::texts(argv.skip(1)) =~= text::texts(argv).skip(1));
                running::lemma_same_words(args@, argv.skip(1));
            }
        } else {
            assert(outputs[0]@ == views[0]);
        }
    }
}

/// What is sent back, and that the task then has ended.
pub open spec fn ends_with(
    step: (ExecutionView, execution::ReplyView),
    outputs: Seq<TaskOutput<Seq<u8>>>,
) -> bool {
    &&& step.1.outputs == outputs
    &&& step.1.next is Finish
    &&& !step.0.running
}

/// A command that does not succeed ends the task with its code, or with 1 where a signal ended
/// it. One that does is followed by the next command, or ends the task with 0 where it was the
/// last.
pub proof fn lemma_next_command(state: ExecutionView, code: Option<i32>)
    requires
        state.running,
        0 <= state.current < state.steps.len() <= usize::MAX,
    ensures
        ({
            let step = execution::handled(state, StepEvent::Exited { code });
            let next = state.current + 1;
            match code {
                None => ends_with(step, seq![TaskOutput::Exit { code: 1 }]),
                Some(code) => if code != 0 {
                    ends_with(step, seq![TaskOutput::Exit { code }])
                } else if next == state.steps.len() {
                    ends_with(step, seq![TaskOutput::Exit { code: 0 }])
                } else if state.steps[next].len() == 0 {
                    ends_with(
                        step,
                        seq![
                            TaskOutput::Stderr { chunk: encode_utf8("task command is empty\n"@) },
                            TaskOutput::Exit { code: 1 },
                        ],
                    )
                } else {
                    &&& step.1.outputs.len() == 0
                    &&& step.1.next == (Directive::Spawn {
                        step: next as usize,
                        program: state.steps[next][0],
                        args: state.steps[next].skip(1),
                    })
                    &&& step.0 == (ExecutionView { current: next, ..state })
                }
            }
        }),
{
    let step = execution::handled(state, StepEvent::Exited { code });
    match code {
        None => {
            assert(step.1.outputs =~= seq![TaskOutput::Exit { code: 1 }]);
        },
        Some(code) => {
            if code != 0 {
                assert(step.1.outputs =~= seq![TaskOutput::Exit { code }]);
            } else if state.current + 1 == state.steps.len() {
                assert(step.1.outputs =~= seq![TaskOutput::Exit { code: 0 }]);
            } else if state.steps[state.current + 1].len() == 0 {
                assert(step.1.outputs =~= seq![
                    TaskOutput::Stderr { chunk: encode_utf8("task command is empty\n"@) },
                    TaskOutput::Exit { code: 1 },
                ]);
            }
        },
    }
}

/// What a command writes is sent back as it is, output as output and error output as error
/// output, and the task goes on. What cannot be read is told of on the error output.
pub proof fn lemma_output_is_passed_on(
    state: ExecutionView,
    stdout: bool,
    chunk: Seq<u8>,
    message: Seq<char>,
)
    requires
        state.running,
    ensures
        ({
            let wrote = execution::handled(state, StepEvent::Output { stdout, chunk });
            let failed = execution::handled(state, StepEvent::StreamFailed { message });
            &&& wrote.0 == state
            &&& wrote.1.next is Listen
            &&& wrote.1.outputs == seq![
                if stdout {
                    TaskOutput::Stdout { chunk }
                } else {
                    TaskOutput::Stderr { chunk }
                },
            ]
            &&& failed.0 == state
            &&& failed.1.next is Listen
            &&& failed.1.outputs == seq![
                TaskOutput::Stderr { chunk: encode_utf8("stream error: "@ + message + "\n"@) },
            ]
        }),
{
}

/// Whatever keeps a command from running to its end ends the task, with a message and then 1,
/// or 124 where its time was up.
pub proof fn lemma_faults_end_the_task(
    state: ExecutionView,
    message: Seq<char>,
    timeout: TimeSpan,
    span: String,
)
    requires
        state.running,
        call_ensures(TimeSpan::text, (&timeout,), span),
    ensures
        ends_with(
            execution::handled(state, StepEvent::SpawnFailed { message }),
            seq![
                TaskOutput::Stderr { chunk: encode_utf8(message + "\n"@) },
                TaskOutput::Exit { code: 1 },
            ],
        ),
        ends_with(
            execution::handled(state, StepEvent::NoStdout),
            seq![
                TaskOutput::Stderr { chunk: encode_utf8("missing child stdout\n"@) },
                TaskOutput::Exit { code: 1 },
            ],
        ),
        ends_with(
            execution::handled(state, StepEvent::NoStderr),
            seq![
                TaskOutput::Stderr { chunk: encode_utf8("missing child stderr\n"@) },
                TaskOutput::Exit { code: 1 },
            ],
        ),
        ends_with(
            execution::handled(state, StepEvent::WaitFailed { message }),
            seq![
                TaskOutput::Stderr { chunk: encode_utf8("wait error: "@ + message + "\n"@) },
                TaskOutput::Exit { code: 1 },
            ],
        ),
        state.timeout == Some(timeout) ==> ends_with(
            execution::handled(state, StepEvent::TimedOut),
            seq![
                TaskOutput::Stderr {
                    chunk: encode_utf8(
                        "task `"@ + state.task + "` timed out after "@ + span@ + "\n"@,
                    ),
                },
                TaskOutput::Exit { code: 124 },
            ],
        ),
{
    let spawn = execution::handled(state, StepEvent::SpawnFailed { message });
    assert(spawn.1.outputs =~= seq![
        TaskOutput::Stderr { chunk: encode_utf8(message + "\n"@) },
        TaskOutput::Exit { code: 1 },
    ]);
    let stdout = execution::handled(state, StepEvent::NoStdout);
    assert(stdout.1.outputs =~= seq![
        TaskOutput::Stderr { chunk: encode_utf8("missing child stdout\n"@) },
        TaskOutput::Exit { code: 1 },
    ]);
    let stderr = execution::handled(state, StepEvent::NoStderr);
    assert(stderr.1.outputs =~= seq![
        TaskOutput::Stderr { chunk: encode_utf8("missing child stderr\n"@) },
        TaskOutput::Exit { code: 1 },
    ]);
    let wait = execution::handled(state, StepEvent::WaitFailed { message });
    assert(wait.1.outputs =~= seq![
        TaskOutput::Stderr { chunk: encode_utf8("wait error: "@ + message + "\n"@) },
        TaskOutput::Exit { code: 1 },
    ]);
    if state.timeout == Some(timeout) {
        let late = execution::handled(state, StepEvent::TimedOut);
        let told = "task `"@ + state.task + "` timed out after "@ + span@ + "\n"@;
        assert(late.1.outputs =~= seq![
            TaskOutput::Stderr { chunk: encode_utf8(told) },
            TaskOutput::Exit { code: 124 },
        ]);
    }
}

/// A task takes every event as the laws above say, and answers it so.
pub proof fn lemma_events_are_handled(execution: &mut Execution, event: StepEvent, reply: Reply)
    requires
        call_ensures(Execution::handle, (execution, event), reply),
    ensures
        (final(execution)@, reply@) == execution::handled(old(execution)@, event@),
        !old(execution)@.running ==> reply.outputs@.len() == 0 && reply.next is Finish
            && !final(execution)@.running,
        final(execution)@.task == old(execution)@.task,
        final(execution)@.steps == old(execution)@.steps,
        final(execution)@.timeout == old(execution)@.timeout,
{
    assert(reply@.outputs.len() == reply.outputs@.len());
}

/// What is read from a command is handed on at once, until its end is. The end waits for the
/// streams to be closed, or for the time that is given to them; a command that has not ended
/// when its time is up has timed out.
pub proof fn lemma_sightings_are_handed_on(
    streams: &mut CommandStreams,
    sighting: Sighting,
    event: Option<StepEvent>,
)
    requires
        call_ensures(CommandStreams::see, (streams, sighting), event),
    ensures
        ({
            let before = old(streams)@;
            let after = final(streams)@;
            if before.over {
                event is None && after == before
            } else {
                match sighting {
                    Sighting::Output { stdout, chunk } => {
                        &&& event matches Some(event)
                        &&& event@ == (StepEvent::<Seq<char>, Seq<u8>>::Output { stdout, chunk: chunk@ })
                        &&& after == before
                    },
                    Sighting::StreamFailed { message } => {
                        &&& event matches Some(event)
                        &&& event@ == (StepEvent::<Seq<char>, Seq<u8>>::StreamFailed {
                            message: message@,
                        })
                        &&& after == before
                    },
                    Sighting::Exited { code } => if before.closed {
                        &&& event matches Some(event)
                        &&& event@ == (StepEvent::<Seq<char>, Seq<u8>>::Exited { code })
                        &&& after.over
                    } else {
                        &&& event is None
                        &&& !after.over
                        &&& before.held is None ==> after.held == Some(
                            StepEvent::<Seq<char>, Seq<u8>>::Exited { code },
                        )
                        &&& before.held is Some ==> after.held == before.held
                    },
                    Sighting::WaitFailed { message } => if before.closed {
                        &&& event matches Some(event)
                        &&& event@ == (StepEvent::<Seq<char>, Seq<u8>>::WaitFailed { message: message@ })
                        &&& after.over
                    } else {
                        &&& event is None
                        &&& !after.over
                        &&& before.held is None ==> after.held == Some(
                            StepEvent::<Seq<char>, Seq<u8>>::WaitFailed { message: message@ },
                        )
                        &&& before.held is Some ==> after.held == before.held
                    },
                    Sighting::Closed => match before.held {
                        Some(end) => (event matches Some(event) && event@ == end) && after.over,
                        None => event is None && after.closed && !after.over,
                    },
                    Sighting::Drained => match before.held {
                        Some(end) => (event matches Some(event) && event@ == end) && after.over,
                        None => event is None && after == before,
                    },
                    Sighting::TimeUp => match before.held {
                        Some(end) => (event matches Some(event) && event@ == end) && after.over,
                        None => (event matches Some(event) && event@ == StepEvent::<
                            Seq<char>,
                            Seq<u8>,
                        >::TimedOut) && after.over,
                    },
                }
            }
        }),
{
}

/// The streams of a command that has ended are waited for, at most 200 milliseconds at a time
/// and never beyond a second after its end.
pub proof fn lemma_draining_ends(since_end: u64, wait: u64)
    requires
        call_ensures(drain_wait, (since_end,), wait),
    ensures
        wait <= 200,
        since_end <= 800 ==> wait == 200,
        800 <= since_end <= 1000 ==> since_end + wait == 1000,
        since_end >= 1000 ==> wait == 0,
{
}

// ---- what is sent ----

/// An event is a JSON object that names its type first.
pub proof fn lemma_event_names_its_type(event: RpcEvent, number: String, json: String)
    requires
        call_ensures(RpcEvent::to_json, (&event,), json),
        event matches RpcEvent::Exit { code } ==> call_ensures(
            signed_decimal_text,
            (code,),
            number,
        ),
    ensures
        match event {
            RpcEvent::Stdout { chunk_b64 } => json@ == "{\"type\":\"stdout\",\"chunk_b64\":"@
                + encoding::json_string(chunk_b64@) + "}"@,
            RpcEvent::Stderr { chunk_b64 } => json@ == "{\"type\":\"stderr\",\"chunk_b64\":"@
                + encoding::json_string(chunk_b64@) + "}"@,
            RpcEvent::Exit { .. } => json@ == "{\"type\":\"exit\",\"code\":"@ + number@ + "}"@,
        },
        rpc::json_event(json@) == Some(event@),
{
    rpc::lemma_event_reads_back(event@);
}

/// A line of the answer is the event of the same kind, which carries just the bytes that were
/// written, or just the exit code.
pub proof fn lemma_lines_carry_the_output(output: TaskOutput, line: Option<String>)
    requires
        call_ensures(TaskOutput::line, (&output,), line),
    ensures
        line matches Some(line) ==> {
            &&& line@.len() > 0
            &&& line@.last() == '\n'
            &&& !line@.drop_last().contains('\n')
            &&& rpc::json_event(line@.drop_last()) matches Some(event)
            &&& match (output, event) {
                (TaskOutput::Stdout { chunk }, RpcEvent::Stdout { chunk_b64 }) => {
                    encoding::base64_bytes(chunk_b64) == Some(chunk@)
                },
                (TaskOutput::Stderr { chunk }, RpcEvent::Stderr { chunk_b64 }) => {
                    encoding::base64_bytes(chunk_b64) == Some(chunk@)
                },
                (TaskOutput::Exit { code }, RpcEvent::Exit { code: told }) => code == told,
                _ => false,
            }
        },
        output is Exit ==> line is Some,
{
    execution::lemma_line_reads_back(output@);
    reveal_strlit("\n");
    match output {
        TaskOutput::Stdout { chunk } => encoding::lemma_base64_reads_back(chunk@),
        TaskOutput::Stderr { chunk } => encoding::lemma_base64_reads_back(chunk@),
        TaskOutput::Exit { .. } => {},
    }
}

/// A piece of output is sent as the event of its stream, with just these bytes.
pub proof fn lemma_chunk_event(stdout: bool, chunk: &[u8], json: Option<String>)
    requires
        call_ensures(serialize_chunk_event, (stdout, chunk), json),
    ensures
        json matches Some(json) ==> {
            &&& rpc::json_event(json@) matches Some(event)
            &&& match event {
                RpcEvent::Stdout { chunk_b64 } => stdout && encoding::base64_bytes(chunk_b64)
                    == Some(chunk@),
                RpcEvent::Stderr { chunk_b64 } => !stdout && encoding::base64_bytes(chunk_b64)
                    == Some(chunk@),
                RpcEvent::Exit { .. } => false,
            }
        },
{
    let chunk_b64 = encoding::base64_text(chunk@);
    encoding::lemma_base64_reads_back(chunk@);
    rpc::lemma_event_reads_back(RpcEvent::Stdout { chunk_b64 });
    rpc::lemma_event_reads_back(RpcEvent::Stderr { chunk_b64 });
}

// ---- what the server says ----

/// A server that cannot listen names its address; where the port is in use, it says what to do
/// about it.
pub proof fn lemma_bind_failure(port: u16, in_use: bool, number: String, message: String)
    requires
        call_ensures(bind_failure, (port, in_use), message),
        call_ensures(decimal_text, (port as u128,), number),
    ensures
        !in_use ==> message@ == "failed to bind RPC server on 127.0.0.1:"@ + number@,
        in_use ==> message@ == "failed to bind RPC server on 127.0.0.1:"@ + number@
            + ": port already in use; shut down existing sshpal servers or use the rpc_port config option"@,
{
    reveal_strlit("failed to bind RPC server on ");
    reveal_strlit("127.0.0.1:");
    reveal_strlit("failed to bind RPC server on 127.0.0.1:");
    assert("failed to bind RPC server on 127.0.0.1:"@ =~= "failed to bind RPC server on "@
        + "127.0.0.1:"@);
    let front = "failed to bind RPC server on 127.0.0.1:"@ + number@;
    assert("failed to bind RPC server on "@ + ("127.0.0.1:"@ + number@) =~= front);
    assert(front + Seq::<char>::empty() =~= front);
}

/// The server notes which task was invoked, and with which arguments where there are any.
pub proof fn lemma_invocation_note(request: RpcRequest, note: String)
    requires
        call_ensures(invocation_note, (&request,), note),
    ensures
        request.args@.len() == 0 ==> note@ == "sshpal: task invoked `"@ + request.task@ + "`"@,
        request.args@.len() > 0 ==> note@ == "sshpal: task invoked `"@ + request.task@
            + "` with args ["@ + text::joined(text::texts(request.args@), ", "@) + "]"@,
{
    reveal_strlit("`");
    reveal_strlit(" with args [");
    reveal_strlit("` with args [");
    assert("` with args ["@ =~= "`"@ + " with args ["@);
    assert(text::texts(request.args@).len() == request.args@.len());
    if request.args@.len() == 0 {
        assert(note@ =~= "sshpal: task invoked `"@ + request.task@ + "`"@);
    } else {
        assert(note@ =~= "sshpal: task invoked `"@ + request.task@ + "` with args ["@
            + text::joined(text::texts(request.args@), ", "@) + "]"@);
    }
}

/// The server notes which command of how many starts, for which task, and its words.
pub proof fn lemma_step_note(
    task_name: &str,
    steps: &[Vec<String>],
    step: usize,
    number: String,
    count: String,
    note: String,
)
    requires
        step < steps@.len() <= usize::MAX,
        call_ensures(step_note, (task_name, steps, step), note),
        call_ensures(decimal_text, ((step + 1) as u128,), number),
        call_ensures(decimal_text, (steps@.len() as u128,), count),
    ensures
        note@ == "sshpal: starting step "@ + number@ + "/"@ + count@ + " for `"@ + task_name@
            + "`: "@ + text::joined(text::texts(steps@[step as int]@), " "@),
{
}

// ---- the help text ----

/// How the variables of a task are given: those that it can do without in brackets.
pub open spec fn usage_of(vars: Seq<DocumentedVar>) -> Seq<char>
    decreases vars.len(),
{
    if vars.len() == 0 {
        Seq::empty()
    } else if vars.last().optional {
        usage_of(vars.drop_last()) + " ["@ + vars.last().name@ + "=<value>]"@
    } else {
        usage_of(vars.drop_last()) + " "@ + vars.last().name@ + "=<value>"@
    }
}

/// What is said of a variable: its description, where it has one, and whether it is needed.
pub open spec fn said_of(var: DocumentedVar) -> Seq<char> {
    match (var.documented, var.description, var.optional) {
        (true, Some(description), true) => description@ + " (optional)"@,
        (true, Some(description), false) => description@ + " (required)"@,
        (true, None, true) => "optional"@,
        (true, None, false) => "required"@,
        (false, _, true) => "undocumented (optional, inferred)"@,
        (false, _, false) => "undocumented (required, inferred)"@,
    }
}

/// Whether the lines from `at` on describe a task: its name, its description where it has one,
/// how it is invoked, what it runs, and each of its variables.
pub open spec fn describes_at(
    lines: Seq<Seq<char>>,
    at: int,
    command_name: Seq<char>,
    name: Seq<char>,
    task: Task,
    vars: Seq<DocumentedVar>,
    preview: Seq<char>,
) -> bool {
    let usage = if task.description is Some {
        at + 2
    } else {
        at + 1
    };
    let end = usage + 2 + (if vars.len() > 0 {
        1 + vars.len() as int
    } else {
        0
    });
    &&& 0 <= at
    &&& end <= lines.len()
    &&& lines[at] == name
    &&& task.description matches Some(description) ==> lines[at + 1] == "  "@ + description@
    &&& lines[usage] == "  usage: "@ + command_name + " "@ + name + usage_of(vars)
        + " [-- <args...>]"@
    &&& lines[usage + 1] == "  run: "@ + preview
    &&& vars.len() > 0 ==> lines[usage + 2] == "  vars:"@
    &&& forall|i: int|
        0 <= i < vars.len() ==> lines[usage + 3 + i] == "    "@ + (#[trigger] vars[i]).name@
            + "=<value>  "@ + said_of(vars[i])
}

proof fn lemma_usage_of(vars: Seq<DocumentedVar>)
    ensures
        usage_of(vars) == tasks::usage_vars(tasks::var_views(vars)),
    decreases vars.len(),
{
    let views = tasks::var_views(vars);
    if vars.len() > 0 {
        let short = vars.drop_last();
        lemma_usage_of(short);
        assert(views.drop_last() =~= tasks::var_views(short));
        assert(views.last() == vars.last()@);
        let name = vars.last().name@;
        if vars.last().optional {
            assert(usage_of(short) + " ["@ + name + "=<value>]"@ =~= usage_of(short) + (" ["@
                + name + "=<value>]"@));
        } else {
            assert(usage_of(short) + " "@ + name + "=<value>"@ =~= usage_of(short) + (" "@ + name
                + "=<value>"@));
        }
    }
}

proof fn lemma_task_block(
    command_name: Seq<char>,
    name: Seq<char>,
    task: Task,
    vars: Seq<DocumentedVar>,
)
    requires
        tasks::task_vars(task) == Ok::<_, TemplateError<Seq<char>>>(tasks::var_views(vars)),
    ensures
        describes_at(
            tasks::task_lines(command_name, name, task),
            0,
            command_name,
            name,
            task,
            vars,
            tasks::run_line(task.run),
        ),
        tasks::task_lines(command_name, name, task).len() == described_in(task, vars),
{
    let lines = tasks::task_lines(command_name, name, task);
    let views = tasks::var_views(vars);
    lemma_usage_of(vars);
    assert(views.len() == vars.len());
    let usage: int = if task.description is Some {
        2
    } else {
        1
    };
    assert forall|i: int| 0 <= i < vars.len() implies lines[usage + 3 + i] == "    "@ + (
    #[trigger] vars[i]).name@ + "=<value>  "@ + said_of(vars[i]) by {
        assert(views[i] == vars[i]@);
        assert(lines[usage + 3 + i] == tasks::var_line(views[i]));
        assert(tasks::var_detail(views[i]) == said_of(vars[i]));
    }
}

proof fn lemma_described_later(
    lines: Seq<Seq<char>>,
    front: Seq<Seq<char>>,
    back: Seq<Seq<char>>,
    at: int,
    command_name: Seq<char>,
    name: Seq<char>,
    task: Task,
    vars: Seq<DocumentedVar>,
    preview: Seq<char>,
)
    requires
        describes_at(lines, at, command_name, name, task, vars, preview),
    ensures
        describes_at(
            front + lines + back,
            front.len() + at,
            command_name,
            name,
            task,
            vars,
            preview,
        ),
{
    let all = front + lines + back;
    let usage = if task.description is Some {
        at + 2
    } else {
        at + 1
    };
    assert(forall|i: int| 0 <= i < lines.len() ==> all[front.len() + i] == #[trigger] lines[i]);
    assert(all[front.len() + at] == lines[at]);
    assert(all[front.len() + at + 1] == lines[at + 1]);
    assert(all[front.len() + usage] == lines[usage]);
    assert(all[front.len() + usage + 1] == lines[usage + 1]);
    if vars.len() > 0 {
        assert(all[front.len() + usage + 2] == lines[usage + 2]);
    }
    assert forall|i: int| 0 <= i < vars.len() implies all[front.len() + usage + 3 + i] == "    "@
        + (#[trigger] vars[i]).name@ + "=<value>  "@ + said_of(vars[i]) by {
        assert(all[front.len() + (usage + 3 + i)] == lines[usage + 3 + i]);
    }
}

/// How many lines describe a task.
pub open spec fn described_in(task: Task, vars: Seq<DocumentedVar>) -> int {
    1 + (if task.description is Some {
        1int
    } else {
        0int
    }) + 2 + (if vars.len() > 0 {
        1 + vars.len() as int
    } else {
        0
    })
}

/// Where the lines on the task at `place` start.
spec fn start_of(
    command_name: Seq<char>,
    names: Seq<Seq<char>>,
    tasks: Map<Seq<char>, Task>,
    place: int,
) -> int {
    tasks::help_lines(command_name, names.take(place), tasks).len() + (if place > 0 {
        1int
    } else {
        0int
    })
}

/// The lines on the first tasks stand at the start of the lines on all of them.
proof fn lemma_help_prefix(
    command_name: Seq<char>,
    names: Seq<Seq<char>>,
    tasks: Map<Seq<char>, Task>,
    place: int,
)
    requires
        0 <= place <= names.len(),
    ensures
        tasks::help_lines(command_name, names.take(place), tasks).is_prefix_of(
            tasks::help_lines(command_name, names, tasks),
        ),
    decreases names.len() - place,
{
    let all = tasks::help_lines(command_name, names, tasks);
    let front = tasks::help_lines(command_name, names.take(place), tasks);
    if place == names.len() {
        assert(names.take(place) =~= names);
        assert(all.subrange(0, all.len() as int) =~= all);
    } else {
        lemma_help_prefix(command_name, names, tasks, place + 1);
        let next = tasks::help_lines(command_name, names.take(place + 1), tasks);
        assert(names.take(place + 1).drop_last() =~= names.take(place));
        assert(next.subrange(0, front.len() as int) =~= front);
        assert(all.subrange(0, front.len() as int) =~= next.subrange(0, front.len() as int)) by {
            assert forall|i: int| 0 <= i < front.len() implies all[i] == next[i] by {
                assert(all.subrange(0, next.len() as int)[i] == next[i]);
            }
        }
    }
}

/// The lines on a task, and where the lines around them end and start.
proof fn lemma_block_place(
    command_name: Seq<char>,
    names: Seq<Seq<char>>,
    tasks: Map<Seq<char>, Task>,
    place: int,
) -> (sides: (Seq<Seq<char>>, Seq<Seq<char>>))
    requires
        0 <= place < names.len(),
    ensures
        ({
            let lines = tasks::help_lines(command_name, names, tasks);
            let block = tasks::task_lines(command_name, names[place], tasks[names[place]]);
            let at = start_of(command_name, names, tasks, place);
            &&& lines == sides.0 + block + sides.1
            &&& sides.0.len() == at
            &&& place > 0 ==> at > 0 && sides.0[at - 1].len() == 0
            &&& place + 1 < names.len() ==> start_of(command_name, names, tasks, place + 1) == at
                + block.len() + 1
            &&& place + 1 == names.len() ==> sides.1.len() == 0
        }),
{
    let lines = tasks::help_lines(command_name, names, tasks);
    let before = tasks::help_lines(command_name, names.take(place), tasks);
    let next = tasks::help_lines(command_name, names.take(place + 1), tasks);
    let block = tasks::task_lines(command_name, names[place], tasks[names[place]]);
    let gap: Seq<Seq<char>> = if place > 0 {
        seq![Seq::empty()]
    } else {
        Seq::empty()
    };
    assert(names.take(place + 1).drop_last() =~= names.take(place));
    assert(names.take(place + 1).last() == names[place]);
    assert(next == before + gap + block);
    lemma_help_prefix(command_name, names, tasks, place + 1);
    let rest = lines.skip(next.len() as int);
    assert(lines.subrange(0, next.len() as int) == next);
    assert(lines =~= next + rest);
    if place + 1 == names.len() {
        assert(names.take(place + 1) =~= names);
    }
    (before + gap, rest)
}

#[verifier::spinoff_prover]
proof fn lemma_described_in(
    command_name: Seq<char>,
    names: Seq<Seq<char>>,
    tasks: Map<Seq<char>, Task>,
    place: int,
    vars: Seq<DocumentedVar>,
)
    requires
        0 <= place < names.len(),
        tasks::task_vars(tasks[names[place]]) == Ok::<_, TemplateError<Seq<char>>>(
            tasks::var_views(vars),
        ),
    ensures
        ({
            let lines = tasks::help_lines(command_name, names, tasks);
            let task = tasks[names[place]];
            let at = start_of(command_name, names, tasks, place);
            &&& describes_at(
                lines,
                at,
                command_name,
                names[place],
                task,
                vars,
                tasks::run_line(task.run),
            )
            &&& place > 0 ==> lines[at - 1].len() == 0
            &&& if place + 1 < names.len() {
                start_of(command_name, names, tasks, place + 1) == at + described_in(task, vars)
                    + 1
            } else {
                lines.len() == at + described_in(task, vars)
            }
        }),
{
    let name = names[place];
    let task = tasks[name];
    let block = tasks::task_lines(command_name, name, task);
    let (front, back) = lemma_block_place(command_name, names, tasks, place);
    lemma_task_block(command_name, name, task, vars);
    lemma_described_later(
        block,
        front,
        back,
        0,
        command_name,
        name,
        task,
        vars,
        tasks::run_line(task.run),
    );
    if place > 0 {
        let at = front.len() as int;
        assert((front + block + back)[at - 1] == front[at - 1]);
    }
}

/// Whether the help text has the lines on the task at `place` where `starts` says, with an
/// empty line before them unless they are the first, and nothing behind them but the lines on
/// the next task.
pub open spec fn has_lines_on(
    lines: Seq<Seq<char>>,
    starts: Seq<int>,
    place: int,
    command_name: Seq<char>,
    name: Seq<char>,
    task: Task,
    vars: Seq<DocumentedVar>,
    preview: Seq<char>,
) -> bool {
    let at = starts[place];
    &&& describes_at(lines, at, command_name, name, task, vars, preview)
    &&& place == 0 ==> at == 0
    &&& place > 0 ==> lines[at - 1].len() == 0
    &&& if place + 1 < starts.len() {
        starts[place + 1] == at + described_in(task, vars) + 1
    } else {
        lines.len() == at + described_in(task, vars)
    }
}

/// The help text describes every task, in the order of the names, with an empty line between
/// two of them and nothing else: its name, its description, how it is invoked, what it runs,
/// and all of its variables with what is said of them and whether they are needed.
pub proof fn lemma_help_describes_every_task(
    command_name: &str,
    tasks: NameMap<Task>,
    help: Result<String, TemplateError>,
)
    requires
        call_ensures(task_help, (command_name, &tasks), help),
        tasks.keys().len() > 0,
        help is Ok,
    ensures
        exists|lines: Seq<Seq<char>>, starts: Seq<int>|
            {
                let keys = tasks.keys();
                &&& help->Ok_0@ == #[trigger] text::joined(lines, "\n"@)
                &&& #[trigger] starts.len() == keys.len()
                &&& forall|place: int, vars: Vec<DocumentedVar>, preview: String|
                    {
                        &&& 0 <= place < keys.len()
                        &&& #[trigger] call_ensures(
                            documented_vars,
                            (&tasks@[keys[place]],),
                            Ok(vars),
                        )
                        &&& #[trigger] call_ensures(run_preview, (&tasks@[keys[place]],), preview)
                    } ==> has_lines_on(
                        lines,
                        starts,
                        place,
                        command_name@,
                        keys[place],
                        tasks@[keys[place]],
                        vars@,
                        preview@,
                    )
            },
{
    let keys = tasks.keys();
    let lines = tasks::help_lines(command_name@, keys, tasks@);
    let starts = Seq::new(keys.len(), |i: int| start_of(command_name@, keys, tasks@, i));
    assert(help->Ok_0@ == text::joined(lines, "\n"@));
    assert forall|place: int, vars: Vec<DocumentedVar>, preview: String|
        {
            &&& 0 <= place < keys.len()
            &&& #[trigger] call_ensures(documented_vars, (&tasks@[keys[place]],), Ok(vars))
            &&& #[trigger] call_ensures(run_preview, (&tasks@[keys[place]],), preview)
        } implies has_lines_on(
        lines,
        starts,
        place,
        command_name@,
        keys[place],
        tasks@[keys[place]],
        vars@,
        preview@,
    ) by {
        lemma_described_in(command_name@, keys, tasks@, place, vars@);
        if place == 0 {
            assert(keys.take(0) =~= Seq::<Seq<char>>::empty());
        }
    }
    assert(starts.len() == keys.len());
}

/// The help text can be written just if every word of every task is a template.
pub proof fn lemma_help_can_be_written(
    command_name: &str,
    tasks: NameMap<Task>,
    help: Result<String, TemplateError>,
)
    requires
        call_ensures(task_help, (command_name, &tasks), help),
    ensures
        help is Ok <==> forall|name: Seq<char>| #[trigger]
            tasks@.contains_key(name) ==> loading::all_well_formed(tasks@[name].run),
{
    let keys = tasks.keys();
    name_map::lemma_keys(tasks);
    lemma_help_faults(keys, tasks@);
    if help is Ok {
        assert forall|name: Seq<char>| #[trigger]
            tasks@.contains_key(name) implies loading::all_well_formed(tasks@[name].run) by {
            assert(keys.contains(name));
            assert(keys[keys.index_of(name)] == name);
        }
    }
    if forall|name: Seq<char>| #[trigger]
        tasks@.contains_key(name) ==> loading::all_well_formed(tasks@[name].run) {
        assert forall|i: int| 0 <= i < keys.len() implies loading::all_well_formed(
            tasks@[#[trigger] keys[i]].run,
        ) by {
            assert(keys.contains(keys[i]));
            assert(tasks@.contains_key(keys[i]));
        }
    }
}

proof fn lemma_help_faults(names: Seq<Seq<char>>, tasks: Map<Seq<char>, Task>)
    ensures
        tasks::help_fault(names, tasks) is None <==> forall|i: int|
            0 <= i < names.len() ==> loading::all_well_formed(tasks[#[trigger] names[i]].run),
    decreases names.len(),
{
    if names.len() > 0 {
        let short = names.drop_last();
        let last = names[names.len() - 1];
        lemma_help_faults(short, tasks);
        loading::lemma_all_well_formed(tasks[last].run);
        assert forall|i: int| 0 <= i < short.len() implies #[trigger] short[i] == names[i] by {}
        if tasks::help_fault(names, tasks) is None {
            assert forall|i: int| 0 <= i < names.len() implies loading::all_well_formed(
                tasks[#[trigger] names[i]].run,
            ) by {
                if i < short.len() {
                    assert(loading::all_well_formed(tasks[short[i]].run));
                }
            }
        }
        if forall|i: int|
            0 <= i < names.len() ==> loading::all_well_formed(tasks[#[trigger] names[i]].run) {
            assert(loading::all_well_formed(tasks[last].run));
            assert forall|i: int| 0 <= i < short.len() implies loading::all_well_formed(
                tasks[#[trigger] short[i]].run,
            ) by {
                assert(loading::all_well_formed(tasks[names[i]].run));
            }
        }
    }
}

/// Without tasks the help text says so.
pub proof fn lemma_help_without_tasks(
    command_name: &str,
    tasks: NameMap<Task>,
    help: Result<String, TemplateError>,
)
    requires
        call_ensures(task_help, (command_name, &tasks), help),
        forall|name: Seq<char>| !#[trigger] tasks@.contains_key(name),
    ensures
        help matches Ok(help) && help@ == "no tasks defined"@,
{
    let keys = tasks.keys();
    name_map::lemma_keys(tasks);
    if keys.len() > 0 {
        assert(keys.contains(keys[0]));
        assert(tasks@.contains_key(keys[0]));
    }
    assert(tasks::help_fault(keys, tasks@) is None);
}

/// A command line is shown as it is written; the words of a command are shown as they would be
/// typed, with a space between two of them, and commands with `&&`.
pub proof fn lemma_preview(task: Task, line: String)
    requires
        call_ensures(run_preview, (&task,), line),
    ensures
        match task.run {
            TaskRun::String(command) => line@ == command@,
            TaskRun::Command(argv) => line@ == text::joined(
                Seq::new(argv@.len(), |i: int| tasks::shell_quoted(argv@[i]@)),
                " "@,
            ),
            TaskRun::Sequence(steps) => line@ == text::joined(
                Seq::new(
                    steps@.len(),
                    |i: int|
                        text::joined(
                            Seq::new(
                                steps@[i]@.len(),
                                |j: int| tasks::shell_quoted(steps@[i]@[j]@),
                            ),
                            " "@,
                        ),
                ),
                " && "@,
            ),
        },
{
    match task.run {
        TaskRun::String(_) => {},
        TaskRun::Command(argv) => lemma_typed(argv@),
        TaskRun::Sequence(steps) => {
            let shown = Seq::new(
                steps@.len(),
                |i: int|
                    text::joined(
                        Seq::new(steps@[i]@.len(), |j: int| tasks::shell_quoted(steps@[i]@[j]@)),
                        " "@,
                    ),
            );
            let given = text::rows(steps@).map_values(
                |argv: Seq<Seq<char>>| tasks::argv_line(argv),
            );
            assert forall|i: int| 0 <= i < steps@.len() implies shown[i] == #[trigger] given[i] by {
                lemma_typed(steps@[i]@);
                assert(text::rows(steps@)[i] == text::texts(steps@[i]@));
            }
            assert(shown =~= given);
        },
    }
}

proof fn lemma_typed(words: Seq<String>)
    ensures
        tasks::argv_line(text::texts(words)) == text::joined(
            Seq::new(words.len(), |i: int| tasks::shell_quoted(words[i]@)),
            " "@,
        ),
{
    assert(text::texts(words).map_values(|word: Seq<char>| tasks::shell_quoted(word))
        =~= Seq::new(words.len(), |i: int| tasks::shell_quoted(words[i]@)));
}

} // verus!
