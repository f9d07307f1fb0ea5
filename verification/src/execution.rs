//! A task while it runs: its commands one after another, what is sent back of their output,
//! and how it ends.
use vstd::prelude::*;
use vstd::utf8::encode_utf8;

use crate::encoding;
use crate::encoding::encode_base64;
use crate::rpc;
use crate::rpc::RpcEvent;
use crate::tasks::PreparedTask;
use crate::text;
use crate::time_span;
use crate::time_span::TimeSpan;

verus! {

/// Something that happened to the command that runs.
#[derive(Debug, PartialEq, Eq)]
pub enum StepEvent<S = String, B = Vec<u8>> {
    /// The command could not be started.
    SpawnFailed { message: S },
    /// The output of the command cannot be read.
    NoStdout,
    /// The error output of the command cannot be read.
    NoStderr,
    /// The command wrote something.
    Output { stdout: bool, chunk: B },
    /// Reading from the command failed.
    StreamFailed { message: S },
    /// The command ended, with a code unless a signal ended it.
    Exited { code: Option<i32> },
    /// It cannot be known how the command ended.
    WaitFailed { message: S },
    /// The command has run for too long.
    TimedOut,
}

impl View for StepEvent<String, Vec<u8>> {
    type V = StepEvent<Seq<char>, Seq<u8>>;

    open spec fn view(&self) -> StepEvent<Seq<char>, Seq<u8>> {
        match self {
            StepEvent::SpawnFailed { message } => StepEvent::SpawnFailed { message: message@ },
            StepEvent::NoStdout => StepEvent::NoStdout,
            StepEvent::NoStderr => StepEvent::NoStderr,
            StepEvent::Output { stdout, chunk } => {
                StepEvent::Output { stdout: *stdout, chunk: chunk@ }
            },
            StepEvent::StreamFailed { message } => StepEvent::StreamFailed { message: message@ },
            StepEvent::Exited { code } => StepEvent::Exited { code: *code },
            StepEvent::WaitFailed { message } => StepEvent::WaitFailed { message: message@ },
            StepEvent::TimedOut => StepEvent::TimedOut,
        }
    }
}

/// What is sent back, before it is encoded.
#[derive(Debug, PartialEq, Eq)]
pub enum TaskOutput<B = Vec<u8>> {
    Stdout { chunk: B },
    Stderr { chunk: B },
    /// The task has ended.
    Exit { code: i32 },
}

impl View for TaskOutput<Vec<u8>> {
    type V = TaskOutput<Seq<u8>>;

    open spec fn view(&self) -> TaskOutput<Seq<u8>> {
        match self {
            TaskOutput::Stdout { chunk } => TaskOutput::Stdout { chunk: chunk@ },
            TaskOutput::Stderr { chunk } => TaskOutput::Stderr { chunk: chunk@ },
            TaskOutput::Exit { code } => TaskOutput::Exit { code: *code },
        }
    }
}

/// What to do next.
#[derive(Debug, PartialEq, Eq)]
pub enum Directive<S = String, L = Vec<String>> {
    /// Start the command at `step`.
    Spawn { step: usize, program: S, args: L },
    /// Go on with the command that runs.
    Listen,
    /// The task has ended; a command that still runs is to be killed.
    Finish,
}

impl View for Directive<String, Vec<String>> {
    type V = Directive<Seq<char>, Seq<Seq<char>>>;

    open spec fn view(&self) -> Directive<Seq<char>, Seq<Seq<char>>> {
        match self {
            Directive::Spawn { step, program, args } => {
                Directive::Spawn { step: *step, program: program@, args: text::texts(args@) }
            },
            Directive::Listen => Directive::Listen,
            Directive::Finish => Directive::Finish,
        }
    }
}

/// What is to be sent back, and what to do next.
#[derive(Debug, PartialEq, Eq)]
pub struct Reply {
    pub outputs: Vec<TaskOutput>,
    pub next: Directive,
}

/// What some outputs say.
pub open spec fn output_views(outputs: Seq<TaskOutput>) -> Seq<TaskOutput<Seq<u8>>> {
    outputs.map_values(|output: TaskOutput| output@)
}

/// What a reply says.
#[verifier::ext_equal]
pub struct ReplyView {
    pub outputs: Seq<TaskOutput<Seq<u8>>>,
    pub next: Directive<Seq<char>, Seq<Seq<char>>>,
}

impl View for Reply {
    type V = ReplyView;

    open spec fn view(&self) -> ReplyView {
        ReplyView { outputs: output_views(self.outputs@), next: self.next@ }
    }
}

/// A task that runs.
#[derive(Debug, PartialEq, Eq)]
pub struct Execution {
    task: String,
    steps: Vec<Vec<String>>,
    timeout: Option<TimeSpan>,
    current: usize,
    running: bool,
}

/// What is known of a task that runs.
#[verifier::ext_equal]
pub struct ExecutionView {
    pub task: Seq<char>,
    pub steps: Seq<Seq<Seq<char>>>,
    pub timeout: Option<TimeSpan>,
    /// How many commands have succeeded, which is the place of the one that runs.
    pub current: int,
    /// Whether the task has not ended.
    pub running: bool,
}

impl View for Execution {
    type V = ExecutionView;

    closed spec fn view(&self) -> ExecutionView {
        ExecutionView {
            task: self.task@,
            steps: text::rows(self.steps@),
            timeout: self.timeout,
            current: self.current as int,
            running: self.running,
        }
    }
}

/// The exit code of a task that could not be run to its end.
pub const EXIT_FAILURE: i32 = 1;

/// The exit code of a task that ran for too long.
pub const EXIT_TIMED_OUT: i32 = 124;

/// The exit code of a command: a signal counts as a failure.
pub open spec fn exit_code(code: Option<i32>) -> i32 {
    match code {
        Some(code) => code,
        None => EXIT_FAILURE,
    }
}

/// The end of a task: a message, where there is one, and the exit code.
pub open spec fn ended(state: ExecutionView, message: Option<Seq<char>>, code: i32) -> (
    ExecutionView,
    ReplyView,
) {
    (
        ExecutionView { running: false, ..state },
        ReplyView {
            outputs: (match message {
                Some(message) => seq![TaskOutput::Stderr { chunk: encode_utf8(message) }],
                None => Seq::empty(),
            }).push(TaskOutput::Exit { code }),
            next: Directive::Finish,
        },
    )
}

/// A task that goes on, after `output`.
pub open spec fn goes_on(state: ExecutionView, output: TaskOutput<Seq<u8>>) -> (
    ExecutionView,
    ReplyView,
) {
    (state, ReplyView { outputs: seq![output], next: Directive::Listen })
}

/// The start of the command at `step`, or the end of the task where there is none.
pub open spec fn launched(state: ExecutionView, step: int) -> (ExecutionView, ReplyView) {
    let moved = ExecutionView { current: step, ..state };
    if step >= state.steps.len() {
        ended(moved, None, 0)
    } else if state.steps[step].len() == 0 {
        ended(moved, Some("task command is empty\n"@), EXIT_FAILURE)
    } else {
        (
            ExecutionView { running: true, ..moved },
            ReplyView {
                outputs: Seq::empty(),
                next: Directive::Spawn {
                    step: step as usize,
                    program: state.steps[step][0],
                    args: state.steps[step].skip(1),
                },
            },
        )
    }
}

/// What is said of a task that ran for too long.
pub open spec fn timeout_text(task: Seq<char>, timeout: TimeSpan) -> Seq<char> {
    "task `"@ + task + "` timed out after "@ + time_span::duration_text(
        timeout.whole_secs(),
        timeout.extra_nanos(),
    ) + "\n"@
}

/// What is said of the task `task` that ran for too long.
pub fn timeout_message(task: &str, timeout: &TimeSpan) -> (message: String)
    ensures
        message@ == timeout_text(task@, *timeout),
{
    "task `".to_owned().concat(task).concat("` timed out after ").concat(
        timeout.text().as_str(),
    ).concat("\n")
}

/// What follows from an event. A task that has ended takes no more of them, and one without
/// a time limit does not run for too long.
pub open spec fn handled(state: ExecutionView, event: StepEvent<Seq<char>, Seq<u8>>) -> (
    ExecutionView,
    ReplyView,
) {
    if !state.running {
        (state, ReplyView { outputs: Seq::empty(), next: Directive::Finish })
    } else {
        match event {
            StepEvent::SpawnFailed { message } => ended(state, Some(message + "\n"@), EXIT_FAILURE),
            StepEvent::NoStdout => ended(state, Some("missing child stdout\n"@), EXIT_FAILURE),
            StepEvent::NoStderr => ended(state, Some("missing child stderr\n"@), EXIT_FAILURE),
            StepEvent::Output { stdout, chunk } => goes_on(
                state,
                if stdout {
                    TaskOutput::Stdout { chunk }
                } else {
                    TaskOutput::Stderr { chunk }
                },
            ),
            StepEvent::StreamFailed { message } => goes_on(
                state,
                TaskOutput::Stderr { chunk: encode_utf8("stream error: "@ + message + "\n"@) },
            ),
            StepEvent::Exited { code } => if exit_code(code) == 0 {
                launched(state, state.current + 1)
            } else {
                ended(state, None, exit_code(code))
            },
            StepEvent::WaitFailed { message } => ended(
                state,
                Some("wait error: "@ + message + "\n"@),
                EXIT_FAILURE,
            ),
            StepEvent::TimedOut => match state.timeout {
                Some(timeout) => ended(
                    state,
                    Some(timeout_text(state.task, timeout)),
                    EXIT_TIMED_OUT,
                ),
                None => (state, ReplyView { outputs: Seq::empty(), next: Directive::Listen }),
            },
        }
    }
}

/// A task before its first command.
pub open spec fn fresh(
    task: Seq<char>,
    steps: Seq<Seq<Seq<char>>>,
    timeout: Option<TimeSpan>,
) -> ExecutionView {
    ExecutionView { task, steps, timeout, current: 0, running: false }
}

/// A reply with one output.
fn say(output: TaskOutput, next: Directive) -> (reply: Reply)
    ensures
        reply@.outputs == seq![output@],
        reply@.next == next@,
{
    let mut outputs: Vec<TaskOutput> = Vec::new();
    outputs.push(output);
    assert(output_views(outputs@) =~= seq![output@]);
    Reply { outputs, next }
}

/// A message on the error output.
fn complaint(message: &str) -> (output: TaskOutput)
    ensures
        output@ == (TaskOutput::Stderr::<Seq<u8>> { chunk: encode_utf8(message@) }),
{
    TaskOutput::Stderr { chunk: message.as_bytes_vec() }
}

/// The end of a task without a message.
fn quit(code: i32) -> (reply: Reply)
    ensures
        reply@.outputs == seq![TaskOutput::Exit::<Seq<u8>> { code }],
        reply@.next == Directive::<Seq<char>, Seq<Seq<char>>>::Finish,
{
    say(TaskOutput::Exit { code }, Directive::Finish)
}

/// The end of a task with a message.
fn give_up(message: &str, code: i32) -> (reply: Reply)
    ensures
        reply@.outputs == seq![TaskOutput::Stderr { chunk: encode_utf8(message@) }].push(
            TaskOutput::Exit { code },
        ),
        reply@.next == Directive::<Seq<char>, Seq<Seq<char>>>::Finish,
{
    let mut outputs: Vec<TaskOutput> = Vec::new();
    outputs.push(complaint(message));
    outputs.push(TaskOutput::Exit { code });
    assert(output_views(outputs@) =~= seq![
        TaskOutput::Stderr { chunk: encode_utf8(message@) },
    ].push(TaskOutput::Exit { code }));
    Reply { outputs, next: Directive::Finish }
}

/// A reply without outputs.
fn hush(next: Directive) -> (reply: Reply)
    ensures
        reply@.outputs == Seq::<TaskOutput<Seq<u8>>>::empty(),
        reply@.next == next@,
{
    let outputs: Vec<TaskOutput> = Vec::new();
    assert(output_views(outputs@) =~= Seq::empty());
    Reply { outputs, next }
}

impl Execution {
    #[verifier::type_invariant]
    spec fn in_range(self) -> bool {
        self.running ==> self.current < self.steps.len()
    }

    /// Starts the task `task_name`.
    pub fn start(task_name: &str, prepared: &PreparedTask) -> (started: (Execution, Reply))
        ensures
            (started.0@, started.1@) == launched(
                fresh(task_name@, text::rows(prepared.steps@), prepared.timeout),
                0,
            ),
    {
        let steps = prepared.steps.clone();
        assert(text::rows(steps@) =~= text::rows(prepared.steps@));
        let execution = Execution {
            task: task_name.to_owned(),
            steps,
            timeout: prepared.timeout,
            current: 0,
            running: false,
        };
        let mut execution = execution;
        let reply = execution.launch(0);
        (execution, reply)
    }

    /// Starts the command at `step`, or ends the task.
    fn launch(&mut self, step: usize) -> (reply: Reply)
        ensures
            (final(self)@, reply@) == launched(old(self)@, step as int),
    {
        self.running = false;
        self.current = step;
        if step >= self.steps.len() {
            let reply = quit(0);
            assert(reply@.outputs =~= Seq::empty().push(TaskOutput::Exit::<Seq<u8>> { code: 0 }));
            return reply;
        }
        let argv = &self.steps[step];
        assert(text::rows(self.steps@)[step as int] == text::texts(argv@));
        if argv.len() == 0 {
            return give_up("task command is empty\n", EXIT_FAILURE);
        }
        let program = argv[0].clone();
        let mut args: Vec<String> = Vec::new();
        for index in 1..argv.len()
            invariant
                args@.len() == index - 1,
                forall|i: int| 0 <= i < index - 1 ==> (#[trigger] args@[i])@ == argv@[i + 1]@,
        {
            args.push(argv[index].clone());
        }
        assert(text::texts(args@) =~= text::texts(argv@).skip(1));
        self.running = true;
        hush(Directive::Spawn { step, program, args })
    }

    /// Takes an event, and says what follows from it.
    pub fn handle(&mut self, event: StepEvent) -> (reply: Reply)
        ensures
            (final(self)@, reply@) == handled(old(self)@, event@),
    {
        proof {
            use_type_invariant(&*self);
        }
        if !self.running {
            return hush(Directive::Finish);
        }
        match event {
            StepEvent::SpawnFailed { message } => {
                self.running = false;
                give_up(message.concat("\n").as_str(), EXIT_FAILURE)
            },
            StepEvent::NoStdout => {
                self.running = false;
                give_up("missing child stdout\n", EXIT_FAILURE)
            },
            StepEvent::NoStderr => {
                self.running = false;
                give_up("missing child stderr\n", EXIT_FAILURE)
            },
            StepEvent::Output { stdout, chunk } => {
                if stdout {
                    say(TaskOutput::Stdout { chunk }, Directive::Listen)
                } else {
                    say(TaskOutput::Stderr { chunk }, Directive::Listen)
                }
            },
            StepEvent::StreamFailed { message } => {
                let message = "stream error: ".to_owned().concat(message.as_str()).concat("\n");
                say(complaint(message.as_str()), Directive::Listen)
            },
            StepEvent::Exited { code } => {
                let code: i32 = match code {
                    Some(code) => code,
                    None => EXIT_FAILURE,
                };
                if code == 0 {
                    let next: usize = self.current + 1;
                    self.launch(next)
                } else {
                    self.running = false;
                    let reply = quit(code);
                    assert(reply@.outputs =~= Seq::empty().push(
                        TaskOutput::Exit::<Seq<u8>> { code },
                    ));
                    reply
                }
            },
            StepEvent::WaitFailed { message } => {
                self.running = false;
                let message = "wait error: ".to_owned().concat(message.as_str()).concat("\n");
                give_up(message.as_str(), EXIT_FAILURE)
            },
            StepEvent::TimedOut => match self.timeout {
                Some(timeout) => {
                    self.running = false;
                    let message = timeout_message(self.task.as_str(), &timeout);
                    give_up(message.as_str(), EXIT_TIMED_OUT)
                },
                None => hush(Directive::Listen),
            },
        }
    }
}

// ---- what is sent ----

/// Whether an output is short enough to be encoded.
pub open spec fn encodable(output: TaskOutput<Seq<u8>>) -> bool {
    match output {
        TaskOutput::Stdout { chunk } => encoding::base64_len(chunk.len() as int) <= isize::MAX,
        TaskOutput::Stderr { chunk } => encoding::base64_len(chunk.len() as int) <= isize::MAX,
        TaskOutput::Exit { .. } => true,
    }
}

/// An output as it is sent.
pub open spec fn encoded(output: TaskOutput<Seq<u8>>) -> RpcEvent<Seq<char>> {
    match output {
        TaskOutput::Stdout { chunk } => {
            RpcEvent::Stdout { chunk_b64: encoding::base64_text(chunk) }
        },
        TaskOutput::Stderr { chunk } => {
            RpcEvent::Stderr { chunk_b64: encoding::base64_text(chunk) }
        },
        TaskOutput::Exit { code } => RpcEvent::Exit { code },
    }
}

/// `chunk` in base64, where it is short enough.
fn chunk_text(chunk: &[u8]) -> (result: Option<String>)
    ensures
        match result {
            Some(result) => {
                &&& encoding::base64_len(chunk@.len() as int) <= isize::MAX
                &&& result@ == encoding::base64_text(chunk@)
            },
            None => encoding::base64_len(chunk@.len() as int) > isize::MAX,
        },
{
    let count: usize = chunk.len();
    let groups: usize = count / 3 + (if count % 3 == 0 {
        0
    } else {
        1
    });
    let most: usize = isize::MAX as usize / 4;
    assert(encoding::base64_len(count as int) == groups * 4);
    if groups <= most {
        Some(encode_base64(chunk))
    } else {
        None
    }
}

impl TaskOutput<Vec<u8>> {
    /// The output as it is sent; nothing where its text would be longer than any text can
    /// be.
    pub fn encode(&self) -> (event: Option<RpcEvent>)
        ensures
            match event {
                Some(event) => encodable(self@) && event@ == encoded(self@),
                None => !encodable(self@),
            },
    {
        match self {
            TaskOutput::Stdout { chunk } => match chunk_text(chunk.as_slice()) {
                Some(chunk_b64) => Some(RpcEvent::Stdout { chunk_b64 }),
                None => None,
            },
            TaskOutput::Stderr { chunk } => match chunk_text(chunk.as_slice()) {
                Some(chunk_b64) => Some(RpcEvent::Stderr { chunk_b64 }),
                None => None,
            },
            TaskOutput::Exit { code } => Some(RpcEvent::Exit { code: *code }),
        }
    }
}

/// A piece of output as a JSON object; nothing where its text would be longer than any text
/// can be.
pub fn serialize_chunk_event(stdout: bool, chunk: &[u8]) -> (json: Option<String>)
    ensures
        match json {
            Some(json) => {
                &&& encoding::base64_len(chunk@.len() as int) <= isize::MAX
                &&& json@ == rpc::event_json(
                    if stdout {
                        RpcEvent::Stdout { chunk_b64: encoding::base64_text(chunk@) }
                    } else {
                        RpcEvent::Stderr { chunk_b64: encoding::base64_text(chunk@) }
                    },
                )
            },
            None => encoding::base64_len(chunk@.len() as int) > isize::MAX,
        },
{
    match chunk_text(chunk) {
        Some(chunk_b64) => {
            let event = if stdout {
                RpcEvent::Stdout { chunk_b64 }
            } else {
                RpcEvent::Stderr { chunk_b64 }
            };
            Some(event.to_json())
        },
        None => None,
    }
}

/// An output as a line of the answer.
pub open spec fn output_line(output: TaskOutput<Seq<u8>>) -> Seq<char> {
    rpc::event_json(encoded(output)) + "\n"@
}

impl TaskOutput<Vec<u8>> {
    /// The output as a line of the answer; nothing where it would be longer than any text can
    /// be.
    pub fn line(&self) -> (line: Option<String>)
        ensures
            match line {
                Some(line) => encodable(self@) && line@ == output_line(self@),
                None => !encodable(self@),
            },
    {
        let json = match self {
            TaskOutput::Stdout { chunk } => serialize_chunk_event(true, chunk.as_slice()),
            TaskOutput::Stderr { chunk } => serialize_chunk_event(false, chunk.as_slice()),
            TaskOutput::Exit { code } => Some(RpcEvent::Exit { code: *code }.to_json()),
        };
        match json {
            Some(json) => Some(json.concat("\n")),
            None => None,
        }
    }
}

/// The bytes that an event carries, or nothing where it is not in base64.
pub open spec fn event_output(event: RpcEvent<Seq<char>>) -> Option<TaskOutput<Seq<u8>>> {
    match event {
        RpcEvent::Stdout { chunk_b64 } => match encoding::base64_bytes(chunk_b64) {
            Some(chunk) => Some(TaskOutput::Stdout { chunk }),
            None => None,
        },
        RpcEvent::Stderr { chunk_b64 } => match encoding::base64_bytes(chunk_b64) {
            Some(chunk) => Some(TaskOutput::Stderr { chunk }),
            None => None,
        },
        RpcEvent::Exit { code } => Some(TaskOutput::Exit { code }),
    }
}

/// What is sent is what arrives: each output is one line, and the JSON text on that line
/// stands for an event that carries just these bytes, whatever they are.
pub proof fn lemma_line_reads_back(output: TaskOutput<Seq<u8>>)
    ensures
        ({
            let line = output_line(output);
            &&& line.last() == '\n'
            &&& !line.drop_last().contains('\n')
            &&& rpc::json_event(line.drop_last()) == Some(encoded(output))
            &&& event_output(encoded(output)) == Some(output)
        }),
{
    reveal_strlit("\n");
    let json = rpc::event_json(encoded(output));
    rpc::lemma_event_reads_back(encoded(output));
    assert(output_line(output).drop_last() =~= json);
    match output {
        TaskOutput::Stdout { chunk } => encoding::lemma_base64_reads_back(chunk),
        TaskOutput::Stderr { chunk } => encoding::lemma_base64_reads_back(chunk),
        TaskOutput::Exit { .. } => {},
    }
}

// ---- what holds of a task that runs ----

/// A run so far: where it stands, what was sent back, and which commands were started.
#[verifier::ext_equal]
pub struct Trace {
    pub state: ExecutionView,
    pub outputs: Seq<TaskOutput<Seq<u8>>>,
    pub started: Seq<int>,
}

/// A run, after one more step of it.
pub open spec fn extended(trace: Trace, step: (ExecutionView, ReplyView)) -> Trace {
    Trace {
        state: step.0,
        outputs: trace.outputs + step.1.outputs,
        started: match step.1.next {
            Directive::Spawn { step, .. } => trace.started.push(step as int),
            _ => trace.started,
        },
    }
}

/// The run of a task on which `events` happened.
pub open spec fn traced(start: ExecutionView, events: Seq<StepEvent<Seq<char>, Seq<u8>>>) -> Trace
    decreases events.len(),
{
    if events.len() == 0 {
        extended(
            Trace { state: start, outputs: Seq::empty(), started: Seq::empty() },
            launched(start, 0),
        )
    } else {
        let before = traced(start, events.drop_last());
        extended(before, handled(before.state, events.last()))
    }
}

/// How many commands exited with 0.
pub open spec fn successes(events: Seq<StepEvent<Seq<char>, Seq<u8>>>) -> int
    decreases events.len(),
{
    if events.len() == 0 {
        0
    } else {
        successes(events.drop_last()) + (if events.last() == (StepEvent::<
            Seq<char>,
            Seq<u8>,
        >::Exited { code: Some(0i32) }) {
            1int
        } else {
            0int
        })
    }
}

/// What the commands wrote to their output.
pub open spec fn written(events: Seq<StepEvent<Seq<char>, Seq<u8>>>) -> Seq<u8>
    decreases events.len(),
{
    if events.len() == 0 {
        Seq::empty()
    } else {
        written(events.drop_last()) + (match events.last() {
            StepEvent::Output { stdout, chunk } => if stdout {
                chunk
            } else {
                Seq::empty()
            },
            _ => Seq::empty(),
        })
    }
}

/// What was sent back as output.
pub open spec fn sent(outputs: Seq<TaskOutput<Seq<u8>>>) -> Seq<u8>
    decreases outputs.len(),
{
    if outputs.len() == 0 {
        Seq::empty()
    } else {
        sent(outputs.drop_last()) + (match outputs.last() {
            TaskOutput::Stdout { chunk } => chunk,
            _ => Seq::empty(),
        })
    }
}

/// Whether nothing in `outputs` says that the task has ended.
pub open spec fn no_exit(outputs: Seq<TaskOutput<Seq<u8>>>) -> bool {
    forall|i: int| 0 <= i < outputs.len() ==> !(#[trigger] outputs[i] is Exit)
}

/// A run says that it has ended once, as the last thing, and not before it has.
pub proof fn lemma_one_exit(
    task: Seq<char>,
    steps: Seq<Seq<Seq<char>>>,
    timeout: Option<TimeSpan>,
    events: Seq<StepEvent<Seq<char>, Seq<u8>>>,
)
    ensures
        ({
            let run = traced(fresh(task, steps, timeout), events);
            if run.state.running {
                no_exit(run.outputs)
            } else {
                &&& run.outputs.len() > 0
                &&& run.outputs.last() is Exit
                &&& no_exit(run.outputs.drop_last())
            }
        }),
    decreases events.len(),
{
    let start = fresh(task, steps, timeout);
    let run = traced(start, events);
    if events.len() == 0 {
        assert(run.outputs =~= launched(start, 0).1.outputs);
    } else {
        lemma_one_exit(task, steps, timeout, events.drop_last());
        let before = traced(start, events.drop_last());
        let more = handled(before.state, events.last()).1.outputs;
        if before.state.running {
            if !run.state.running {
                assert(run.outputs.drop_last() =~= before.outputs + more.drop_last());
            }
        } else {
            assert(run.outputs =~= before.outputs);
        }
    }
}

/// Commands run in order, each after the one before it has succeeded: the commands that
/// were started are the first ones, and the one that runs follows as many as have exited
/// with 0.
pub proof fn lemma_steps_in_order(
    task: Seq<char>,
    steps: Seq<Seq<Seq<char>>>,
    timeout: Option<TimeSpan>,
    events: Seq<StepEvent<Seq<char>, Seq<u8>>>,
)
    requires
        steps.len() <= usize::MAX,
    ensures
        ({
            let run = traced(fresh(task, steps, timeout), events);
            &&& run.started == Seq::new(run.started.len(), |i: int| i)
            &&& run.started.len() <= steps.len()
            &&& run.state.steps == steps
            &&& run.state.running ==> {
                &&& run.started.len() == run.state.current + 1
                &&& run.state.current == successes(events)
            }
            &&& !run.state.running ==> run.started.len() <= successes(events) + 1
        }),
    decreases events.len(),
{
    let start = fresh(task, steps, timeout);
    let run = traced(start, events);
    if events.len() > 0 {
        lemma_steps_in_order(task, steps, timeout, events.drop_last());
        let before = traced(start, events.drop_last());
        assert(run.started =~= Seq::new(run.started.len(), |i: int| i));
    } else {
        assert(run.started =~= Seq::new(run.started.len(), |i: int| i));
    }
}

/// A task ends with 0 just if all of its commands did: the first that fails ends the task.
pub proof fn lemma_success_needs_all_steps(
    task: Seq<char>,
    steps: Seq<Seq<Seq<char>>>,
    timeout: Option<TimeSpan>,
    events: Seq<StepEvent<Seq<char>, Seq<u8>>>,
)
    requires
        !traced(fresh(task, steps, timeout), events).state.running,
    ensures
        ({
            let run = traced(fresh(task, steps, timeout), events);
            run.outputs.last() == (TaskOutput::Exit::<Seq<u8>> { code: 0 }) <==> run.state.current
                >= steps.len()
        }),
    decreases events.len(),
{
    let start = fresh(task, steps, timeout);
    let run = traced(start, events);
    lemma_run_bounds(task, steps, timeout, events);
    if events.len() > 0 {
        let before = traced(start, events.drop_last());
        lemma_run_bounds(task, steps, timeout, events.drop_last());
        if before.state.running {
            let more = handled(before.state, events.last()).1.outputs;
            assert(run.outputs.last() == more.last());
        } else {
            lemma_success_needs_all_steps(task, steps, timeout, events.drop_last());
            assert(run.outputs =~= before.outputs);
        }
    } else {
        assert(run.outputs =~= launched(start, 0).1.outputs);
    }
}

proof fn lemma_run_bounds(
    task: Seq<char>,
    steps: Seq<Seq<Seq<char>>>,
    timeout: Option<TimeSpan>,
    events: Seq<StepEvent<Seq<char>, Seq<u8>>>,
)
    ensures
        ({
            let run = traced(fresh(task, steps, timeout), events);
            &&& run.state.task == task
            &&& run.state.steps == steps
            &&& run.state.timeout == timeout
            &&& run.state.running ==> 0 <= run.state.current < steps.len()
            &&& run.state.running ==> run.state.current == successes(events)
        }),
    decreases events.len(),
{
    if events.len() > 0 {
        lemma_run_bounds(task, steps, timeout, events.drop_last());
    }
}

/// What was sent back as error output.
pub open spec fn sent_errors(outputs: Seq<TaskOutput<Seq<u8>>>) -> Seq<u8>
    decreases outputs.len(),
{
    if outputs.len() == 0 {
        Seq::empty()
    } else {
        sent_errors(outputs.drop_last()) + (match outputs.last() {
            TaskOutput::Stderr { chunk } => chunk,
            _ => Seq::empty(),
        })
    }
}

/// What is said when the command at `step` is to start and has no words.
pub open spec fn start_remark(steps: Seq<Seq<Seq<char>>>, step: int) -> Seq<char> {
    if 0 <= step < steps.len() && steps[step].len() == 0 {
        "task command is empty\n"@
    } else {
        Seq::empty()
    }
}

/// What is said of an event besides the output of the commands, where `done` commands have
/// succeeded before it.
pub open spec fn remark(
    task: Seq<char>,
    steps: Seq<Seq<Seq<char>>>,
    timeout: Option<TimeSpan>,
    done: int,
    event: StepEvent<Seq<char>, Seq<u8>>,
) -> Seq<char> {
    match event {
        StepEvent::SpawnFailed { message } => message + "\n"@,
        StepEvent::NoStdout => "missing child stdout\n"@,
        StepEvent::NoStderr => "missing child stderr\n"@,
        StepEvent::StreamFailed { message } => "stream error: "@ + message + "\n"@,
        StepEvent::WaitFailed { message } => "wait error: "@ + message + "\n"@,
        StepEvent::TimedOut => match timeout {
            Some(timeout) => timeout_text(task, timeout),
            None => Seq::empty(),
        },
        StepEvent::Exited { code } => if exit_code(code) == 0 {
            start_remark(steps, done + 1)
        } else {
            Seq::empty()
        },
        StepEvent::Output { .. } => Seq::empty(),
    }
}

/// What the commands wrote to their error output, and between it what is said of the events
/// of the run, each in its turn.
pub open spec fn written_errors(
    task: Seq<char>,
    steps: Seq<Seq<Seq<char>>>,
    timeout: Option<TimeSpan>,
    events: Seq<StepEvent<Seq<char>, Seq<u8>>>,
) -> Seq<u8>
    decreases events.len(),
{
    if events.len() == 0 {
        encode_utf8(start_remark(steps, 0))
    } else {
        let before = events.drop_last();
        written_errors(task, steps, timeout, before) + (match events.last() {
            StepEvent::Output { stdout, chunk } => if stdout {
                Seq::empty()
            } else {
                chunk
            },
            event => encode_utf8(remark(task, steps, timeout, successes(before), event)),
        })
    }
}

proof fn lemma_sent_concat(
    left: Seq<TaskOutput<Seq<u8>>>,
    right: Seq<TaskOutput<Seq<u8>>>,
)
    ensures
        sent(left + right) == sent(left) + sent(right),
        sent_errors(left + right) == sent_errors(left) + sent_errors(right),
    decreases right.len(),
{
    if right.len() == 0 {
        assert(left + right =~= left);
        assert(sent(left) + sent(right) =~= sent(left));
        assert(sent_errors(left) + sent_errors(right) =~= sent_errors(left));
    } else {
        lemma_sent_concat(left, right.drop_last());
        assert((left + right).drop_last() =~= left + right.drop_last());
        assert(sent(left + right) =~= sent(left) + sent(right));
        assert(sent_errors(left + right) =~= sent_errors(left) + sent_errors(right));
    }
}

/// What a reply of at most two outputs sends.
proof fn lemma_sent_reply(outputs: Seq<TaskOutput<Seq<u8>>>)
    requires
        outputs.len() <= 2,
    ensures
        outputs.len() == 0 ==> sent(outputs) == Seq::<u8>::empty() && sent_errors(outputs)
            == Seq::<u8>::empty(),
        outputs.len() == 1 ==> match outputs[0] {
            TaskOutput::Stdout { chunk } => sent(outputs) == chunk && sent_errors(outputs)
                == Seq::<u8>::empty(),
            TaskOutput::Stderr { chunk } => sent(outputs) == Seq::<u8>::empty() && sent_errors(
                outputs,
            ) == chunk,
            TaskOutput::Exit { .. } => sent(outputs) == Seq::<u8>::empty() && sent_errors(outputs)
                == Seq::<u8>::empty(),
        },
        outputs.len() == 2 && outputs[0] is Stderr && outputs[1] is Exit ==> sent(outputs)
            == Seq::<u8>::empty() && sent_errors(outputs) == outputs[0]->Stderr_chunk,
{
    reveal_with_fuel(sent, 3);
    reveal_with_fuel(sent_errors, 3);
    if outputs.len() > 0 {
        assert(sent(outputs) =~= sent(outputs.drop_last()) + (match outputs.last() {
            TaskOutput::Stdout { chunk } => chunk,
            _ => Seq::empty(),
        }));
    }
}

/// The output and the error output of the commands arrive as they were written, byte for
/// byte and in order, as long as the task has not ended before. Nothing is added to the
/// output, and to the error output only what is said of the run itself.
pub proof fn lemma_output_arrives(
    task: Seq<char>,
    steps: Seq<Seq<Seq<char>>>,
    timeout: Option<TimeSpan>,
    events: Seq<StepEvent<Seq<char>, Seq<u8>>>,
)
    requires
        events.len() > 0 ==> traced(
            fresh(task, steps, timeout),
            events.drop_last(),
        ).state.running,
    ensures
        sent(traced(fresh(task, steps, timeout), events).outputs) == written(events),
        sent_errors(traced(fresh(task, steps, timeout), events).outputs) == written_errors(
            task,
            steps,
            timeout,
            events,
        ),
    decreases events.len(),
{
    let start = fresh(task, steps, timeout);
    let run = traced(start, events);
    assert(encode_utf8(Seq::<char>::empty()) =~= Seq::empty());
    if events.len() == 0 {
        let first = launched(start, 0).1.outputs;
        assert(run.outputs =~= first);
        lemma_sent_reply(first);
    } else {
        let short = events.drop_last();
        let before = traced(start, short);
        lemma_output_arrives(task, steps, timeout, short);
        lemma_run_bounds(task, steps, timeout, short);
        let reply = handled(before.state, events.last()).1;
        lemma_sent_concat(before.outputs, reply.outputs);
        lemma_sent_reply(reply.outputs);
        match events.last() {
            StepEvent::Output { stdout, chunk } => {
                assert(sent(reply.outputs) =~= (if stdout {
                    chunk
                } else {
                    Seq::empty()
                }));
                assert(sent_errors(reply.outputs) =~= (if stdout {
                    Seq::empty()
                } else {
                    chunk
                }));
            },
            event => {
                assert(sent(reply.outputs) =~= Seq::empty());
                assert(sent_errors(reply.outputs) =~= encode_utf8(
                    remark(task, steps, timeout, successes(short), event),
                ));
            },
        }
    }
}

/// What is passed on of the output of commands.
pub open spec fn passed_on(events: Seq<StepEvent<Seq<char>, Seq<u8>>>) -> Seq<
    TaskOutput<Seq<u8>>,
>
    decreases events.len(),
{
    if events.len() == 0 {
        Seq::empty()
    } else {
        let before = passed_on(events.drop_last());
        match events.last() {
            StepEvent::Output { stdout, chunk } => before.push(
                if stdout {
                    TaskOutput::Stdout { chunk }
                } else {
                    TaskOutput::Stderr { chunk }
                },
            ),
            _ => before,
        }
    }
}

/// A run on which nothing goes wrong but the commands themselves sends back what they write,
/// each piece of output and of error output in its turn, and in the end the exit code of the
/// last command that ran, or 0 where there was none.
pub proof fn lemma_undisturbed_run(
    task: Seq<char>,
    steps: Seq<Seq<Seq<char>>>,
    timeout: Option<TimeSpan>,
    events: Seq<StepEvent<Seq<char>, Seq<u8>>>,
)
    requires
        forall|i: int| 0 <= i < steps.len() ==> (#[trigger] steps[i]).len() > 0,
        forall|i: int|
            0 <= i < events.len() ==> (#[trigger] events[i]) is Output || events[i] is Exited,
        events.len() > 0 ==> traced(
            fresh(task, steps, timeout),
            events.drop_last(),
        ).state.running,
    ensures
        ({
            let run = traced(fresh(task, steps, timeout), events);
            if run.state.running {
                run.outputs == passed_on(events)
            } else {
                let code = if events.len() == 0 {
                    0
                } else {
                    exit_code(events.last()->code)
                };
                &&& events.len() > 0 ==> events.last() is Exited
                &&& run.outputs == passed_on(events).push(TaskOutput::Exit { code })
            }
        }),
    decreases events.len(),
{
    let start = fresh(task, steps, timeout);
    let run = traced(start, events);
    if events.len() == 0 {
        if steps.len() > 0 {
            assert(steps[0].len() > 0);
        }
        assert(run.outputs =~= launched(start, 0).1.outputs);
    } else {
        let short = events.drop_last();
        assert forall|i: int| 0 <= i < short.len() implies (#[trigger] short[i]) is Output
            || short[i] is Exited by {
            assert(short[i] == events[i]);
        }
        lemma_undisturbed_run(task, steps, timeout, short);
        lemma_run_bounds(task, steps, timeout, short);
        let before = traced(start, short);
        let last = events[events.len() - 1];
        assert(last is Output || last is Exited);
        let more = handled(before.state, last).1.outputs;
        if last is Exited {
            let next = before.state.current + 1;
            if next < steps.len() {
                assert(0 <= next);
                assert(steps[next].len() > 0);
            }
            if run.state.running {
                assert(run.outputs =~= before.outputs);
            } else {
                assert(run.outputs =~= before.outputs.push(more[0]));
            }
        } else {
            assert(run.outputs =~= before.outputs.push(more[0]));
        }
    }
}

} // verus!
