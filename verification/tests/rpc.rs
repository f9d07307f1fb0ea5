//! The local server: requests, waiting for files and running tasks.
use sshpal::cli::{local_end, local_step, LocalEnd, LocalOutcome, LocalStep};
use sshpal::config::{Task, TaskRun, TaskVar};
use sshpal::execution::{
    serialize_chunk_event, timeout_message, Directive, Execution, StepEvent, TaskOutput,
};
use sshpal::name_map::NameMap;
use sshpal::rpc::{
    admit_request, bind_failure, format_invocation_args, format_step, help_response,
    invocation_note, remote_helper_script, step_note, sync_step, Admission, RpcEvent, RpcRequest,
    RpcResponseError, SyncStep,
};
use sshpal::streams::{drain_wait, CommandStreams, Sighting};
use sshpal::tasks::{Environment, PreparedTask};
use sshpal::time_span::TimeSpan;

fn words(list: &[&str]) -> Vec<String> {
    list.iter().map(|item| item.to_string()).collect()
}

fn task(run: TaskRun) -> Task {
    Task {
        run,
        description: None,
        cwd: None,
        env: NameMap::new(),
        timeout: None,
        vars: NameMap::new(),
    }
}

fn tasks() -> NameMap<Task> {
    let mut tasks = NameMap::new();
    tasks.insert(
        "test".to_string(),
        task(TaskRun::Command(words(&["sh", "-c", "echo out; echo err >&2; exit 7"]))),
    );
    tasks.insert(
        "no_newline".to_string(),
        task(TaskRun::Command(words(&["sh", "-c", "printf out"]))),
    );
    tasks.insert(
        "sequence".to_string(),
        task(TaskRun::Sequence(vec![
            words(&["sh", "-c", "echo first"]),
            words(&["sh", "-c", "echo second \"$0\"; exit 0"]),
        ])),
    );
    tasks.insert(
        "sequence_fails".to_string(),
        task(TaskRun::Sequence(vec![
            words(&["sh", "-c", "echo before-fail"]),
            words(&["sh", "-c", "echo boom >&2; exit 9"]),
            words(&["sh", "-c", "echo after-fail"]),
        ])),
    );
    let mut templated = task(TaskRun::Command(words(&[
        "sh",
        "-c",
        "printf '%s' \"$0\"",
        "{#value}",
    ])));
    templated.description = Some("Render one value".to_string());
    templated.vars.insert(
        "value".to_string(),
        TaskVar {
            description: Some("Value to render".to_string()),
            optional: false,
        },
    );
    tasks.insert("templated".to_string(), templated);
    tasks.insert("checkhealth".to_string(), task(TaskRun::Command(words(&["true"]))));
    tasks
}

fn request(task: &str, vars: &[(&str, &str)], args: &[&str], token: Option<&str>) -> RpcRequest {
    let mut map = NameMap::new();
    for (name, value) in vars {
        map.insert(name.to_string(), value.to_string());
    }
    RpcRequest {
        task: task.to_string(),
        vars: map,
        args: words(args),
        sync_token: token.map(|text| text.to_string()),
    }
}

fn ask(request: &RpcRequest) -> Result<Admission, RpcResponseError> {
    admit_request(&tasks(), "/l", request, &Environment::new())
}

fn admitted(request: &RpcRequest) -> PreparedTask {
    match ask(request) {
        Ok(Admission::AwaitSync { task, token }) => {
            assert_eq!(Some(token), request.sync_token);
            task
        }
        other => panic!("not admitted: {:?}", other),
    }
}

fn stdout(chunk: &str) -> StepEvent {
    StepEvent::Output {
        stdout: true,
        chunk: chunk.as_bytes().to_vec(),
    }
}

fn stderr(chunk: &str) -> StepEvent {
    StepEvent::Output {
        stdout: false,
        chunk: chunk.as_bytes().to_vec(),
    }
}

fn exited(code: i32) -> StepEvent {
    StepEvent::Exited { code: Some(code) }
}

fn stdout_event(chunk_b64: &str) -> RpcEvent {
    RpcEvent::Stdout {
        chunk_b64: chunk_b64.to_string(),
    }
}

fn stderr_event(chunk_b64: &str) -> RpcEvent {
    RpcEvent::Stderr {
        chunk_b64: chunk_b64.to_string(),
    }
}

/// Runs a task on which `events` happen. Gives what is sent back, the commands that were
/// started, and whether the task has ended.
fn run(
    name: &str,
    prepared: &PreparedTask,
    events: Vec<StepEvent>,
) -> (Vec<RpcEvent>, Vec<Vec<String>>, bool) {
    let (mut execution, reply) = Execution::start(name, prepared);
    let mut sent = Vec::new();
    let mut started = Vec::new();
    let mut ended = false;
    let mut replies = vec![reply];
    for event in events {
        replies.push(execution.handle(event));
    }
    for reply in replies {
        for output in &reply.outputs {
            sent.push(output.encode().unwrap());
        }
        match reply.next {
            Directive::Spawn { step, program, args } => {
                assert_eq!(step, started.len());
                let mut argv = vec![program];
                argv.extend(args);
                started.push(argv);
            }
            Directive::Listen => {}
            Directive::Finish => ended = true,
        }
    }
    (sent, started, ended)
}

#[test]
fn run_endpoint_streams_stdout_stderr_and_exit() {
    let prepared = admitted(&request("test", &[], &[], Some("token-test")));
    let (sent, started, ended) =
        run("test", &prepared, vec![stdout("out\n"), stderr("err\n"), exited(7)]);
    assert_eq!(
        sent,
        vec![stdout_event("b3V0Cg=="), stderr_event("ZXJyCg=="), RpcEvent::Exit { code: 7 }]
    );
    assert_eq!(
        started,
        vec![words(&["sh", "-c", "echo out; echo err >&2; exit 7"])]
    );
    assert!(ended);
}

#[test]
fn unknown_task_is_rejected() {
    let error = ask(&request("missing", &[], &[], Some("t"))).unwrap_err();
    assert_eq!(error.status, 404);
    assert_eq!(error.message, "unknown task `missing`");
}

#[test]
fn run_endpoint_executes_task_steps_sequentially() {
    let prepared = admitted(&request("sequence", &[], &["arg"], Some("t")));
    let (sent, started, ended) = run(
        "sequence",
        &prepared,
        vec![stdout("first\n"), exited(0), stdout("second arg\n"), exited(0)],
    );
    assert_eq!(
        sent,
        vec![
            stdout_event("Zmlyc3QK"),
            stdout_event("c2Vjb25kIGFyZwo="),
            RpcEvent::Exit { code: 0 },
        ]
    );
    assert_eq!(
        started,
        vec![
            words(&["sh", "-c", "echo first"]),
            words(&["sh", "-c", "echo second \"$0\"; exit 0", "arg"]),
        ]
    );
    assert!(ended);
}

fn three_steps() -> PreparedTask {
    PreparedTask {
        steps: vec![words(&["a"]), words(&["b", "1", "2"]), words(&["c"])],
        cwd: "/l".to_string(),
        env: NameMap::new(),
        timeout: None,
    }
}

#[test]
fn run_endpoint_stops_on_first_failing_step() {
    let prepared = admitted(&request("sequence_fails", &[], &[], Some("t")));
    let (sent, started, ended) = run(
        "sequence_fails",
        &prepared,
        vec![stdout("before-fail\n"), exited(0), stderr("boom\n"), exited(9), exited(0)],
    );
    assert_eq!(
        sent,
        vec![
            stdout_event("YmVmb3JlLWZhaWwK"),
            stderr_event("Ym9vbQo="),
            RpcEvent::Exit { code: 9 },
        ]
    );
    assert_eq!(
        started,
        vec![
            words(&["sh", "-c", "echo before-fail"]),
            words(&["sh", "-c", "echo boom >&2; exit 9"]),
        ]
    );
    assert!(ended);
}

#[test]
fn remote_helper_script_embeds_port_and_command_name() {
    let script = remote_helper_script(45678);
    assert!(script.starts_with("#!/bin/sh"));
    assert!(script.contains("usage: sshpal-run <task> [name=value ...] [-- <args...>]"));
    assert!(script.contains("http://127.0.0.1:45678/run"));
    assert!(script.contains("http://127.0.0.1:45678/tasks-help"));
    assert!(script.contains("http://127.0.0.1:45678/checkhealth"));
    assert!(script.contains(".sshpal/sync-token"));
    assert!(!script.contains("__SSHPAL_RPC_PORT__"));
}

#[test]
fn run_endpoint_substitutes_client_vars() {
    let prepared = admitted(&request("templated", &[("value", "hello world")], &[], Some("t")));
    assert_eq!(
        prepared.steps,
        vec![words(&["sh", "-c", "printf '%s' \"$0\"", "hello world"])]
    );
    let (sent, _, _) = run("templated", &prepared, vec![stdout("hello world"), exited(0)]);
    assert_eq!(
        sent,
        vec![stdout_event("aGVsbG8gd29ybGQ="), RpcEvent::Exit { code: 0 }]
    );
    let error = ask(&request("templated", &[], &[], Some("t"))).unwrap_err();
    assert_eq!(error.status, 400);
    assert_eq!(error.message, "task `templated` requires var `value`");
}

#[test]
fn run_endpoint_preserves_output_without_trailing_newline() {
    let prepared = admitted(&request("no_newline", &[], &[], Some("t")));
    let (sent, _, _) = run("no_newline", &prepared, vec![stdout("out"), exited(0)]);
    assert_eq!(sent, vec![stdout_event("b3V0"), RpcEvent::Exit { code: 0 }]);
}

#[test]
fn tasks_help_route_returns_remote_usage() {
    let help = help_response(&tasks()).unwrap();
    assert!(help.contains("usage: sshpal-run templated value=<value> [-- <args...>]"));
    assert!(help.contains("Render one value"));
    let mut broken = NameMap::new();
    broken.insert("x".to_string(), task(TaskRun::String("{".to_string())));
    assert_eq!(
        help_response(&broken),
        Err(RpcResponseError::new(500, "unterminated `{` in `{`".to_string()))
    );
}

#[test]
fn serve_reports_actionable_error_when_port_is_taken() {
    let err = bind_failure(45678, true);
    assert!(err.contains("port already in use"));
    assert!(err.contains("shut down existing sshpal servers"));
    assert!(err.contains("rpc_port config option"));
    assert_eq!(
        err,
        "failed to bind RPC server on 127.0.0.1:45678: port already in use; shut down existing \
         sshpal servers or use the rpc_port config option"
    );
    assert_eq!(bind_failure(1, false), "failed to bind RPC server on 127.0.0.1:1");
}

#[test]
fn a_task_needs_a_sync_token() {
    let error = ask(&request("test", &[], &[], None)).unwrap_err();
    assert_eq!(error.status, 400);
    assert_eq!(error.message, "missing sync token for remote task execution");
    match ask(&request("checkhealth", &[], &["x"], None)) {
        Ok(Admission::Run { task }) => assert_eq!(task.steps, vec![words(&["true", "x"])]),
        other => panic!("unexpected: {:?}", other),
    }
}

#[test]
fn waits_for_the_token_until_the_time_is_up() {
    let timeout = TimeSpan::from_secs(10);
    let look = |contents: Option<&str>, expired: bool| {
        sync_step(
            &contents.map(|text| text.to_string()),
            "token-1",
            expired,
            &timeout,
            "/workspace/project/.sshpal/sync-token",
        )
    };
    assert_eq!(look(Some("token-1\n"), false), SyncStep::Synced);
    assert_eq!(look(Some("token-1 \r\n\n"), true), SyncStep::Synced);
    assert_eq!(look(Some("token-0\n"), false), SyncStep::Wait);
    assert_eq!(look(Some(" token-1"), false), SyncStep::Wait);
    assert_eq!(look(None, false), SyncStep::Wait);
    assert_eq!(
        look(None, true),
        SyncStep::TimedOut {
            error: RpcResponseError::new(
                408,
                "timed out waiting 10s for synced sentinel \
                 `/workspace/project/.sshpal/sync-token`; remote changes likely have not \
                 propagated to the local machine yet"
                    .to_string(),
            )
        }
    );
}

fn one_step(timeout: Option<TimeSpan>) -> PreparedTask {
    PreparedTask {
        steps: vec![words(&["a"])],
        cwd: "/l".to_string(),
        env: NameMap::new(),
        timeout,
    }
}

/// What is sent back in the end, with the messages as texts.
fn ending(prepared: &PreparedTask, event: Option<StepEvent>) -> (Vec<String>, Option<i32>) {
    let (mut execution, first) = Execution::start("slow", prepared);
    let reply = match event {
        Some(event) => execution.handle(event),
        None => first,
    };
    let mut messages = Vec::new();
    let mut code = None;
    for output in reply.outputs {
        match output {
            TaskOutput::Stderr { chunk } => messages.push(String::from_utf8(chunk).unwrap()),
            TaskOutput::Exit { code: ended } => code = Some(ended),
            TaskOutput::Stdout { .. } => unreachable!(),
        }
    }
    assert_eq!(code.is_some(), reply.next == Directive::Finish);
    (messages, code)
}

#[test]
fn failures_end_a_task_with_a_message() {
    let step = one_step(None);
    let message = || "dé".to_string();
    assert_eq!(
        ending(&step, Some(StepEvent::SpawnFailed { message: message() })),
        (words(&["dé\n"]), Some(1))
    );
    assert_eq!(
        ending(&step, Some(StepEvent::NoStdout)),
        (words(&["missing child stdout\n"]), Some(1))
    );
    assert_eq!(
        ending(&step, Some(StepEvent::NoStderr)),
        (words(&["missing child stderr\n"]), Some(1))
    );
    assert_eq!(
        ending(&step, Some(StepEvent::WaitFailed { message: message() })),
        (words(&["wait error: dé\n"]), Some(1))
    );
    assert_eq!(
        ending(&step, Some(StepEvent::StreamFailed { message: message() })),
        (words(&["stream error: dé\n"]), None)
    );
    assert_eq!(
        ending(&step, Some(StepEvent::Exited { code: None })),
        (vec![], Some(1))
    );
    assert_eq!(ending(&step, Some(StepEvent::TimedOut)), (vec![], None));
    assert_eq!(
        ending(&one_step(Some(TimeSpan::from_secs(90))), Some(StepEvent::TimedOut)),
        (words(&["task `slow` timed out after 1m 30s\n"]), Some(124))
    );
    let mut empty = one_step(None);
    empty.steps = vec![vec![]];
    assert_eq!(ending(&empty, None), (words(&["task command is empty\n"]), Some(1)));
    empty.steps = vec![];
    assert_eq!(ending(&empty, None), (vec![], Some(0)));
}

#[test]
fn nothing_follows_the_end_of_a_task() {
    let (mut execution, _) = Execution::start("t", &one_step(None));
    execution.handle(exited(3));
    let reply = execution.handle(stdout("late"));
    assert_eq!(reply.outputs, vec![]);
    assert_eq!(reply.next, Directive::Finish);
}

#[test]
fn output_is_sent_in_base64() {
    let encode = |bytes: &[u8]| {
        TaskOutput::Stdout {
            chunk: bytes.to_vec(),
        }
        .encode()
    };
    for (bytes, text) in [
        (&b""[..], ""),
        (b"f", "Zg=="),
        (b"fo", "Zm8="),
        (b"foo", "Zm9v"),
        (b"foob", "Zm9vYg=="),
        (b"fooba", "Zm9vYmE="),
        (b"foobar", "Zm9vYmFy"),
        (b"\xfb\xff\xbf", "+/+/"),
    ] {
        assert_eq!(encode(bytes), Some(stdout_event(text)));
    }
}

#[test]
fn notes_describe_invocations_and_steps() {
    assert_eq!(format_invocation_args(&[]), "");
    assert_eq!(format_invocation_args(&words(&["a", "b c"])), " with args [a, b c]");
    assert_eq!(format_step(&words(&["cargo", "test"])), "cargo test");
    assert_eq!(
        invocation_note(&request("t", &[], &["x"], None)),
        "sshpal: task invoked `t` with args [x]"
    );
    assert_eq!(
        step_note("t", &three_steps().steps, 1),
        "sshpal: starting step 2/3 for `t`: b 1 2"
    );
}

#[test]
fn local_runs_follow_the_same_steps() {
    let steps = three_steps().steps;
    assert_eq!(
        local_step(&steps, 0, 0),
        LocalStep::Spawn {
            program: "a".to_string(),
            args: vec![]
        }
    );
    assert_eq!(
        local_step(&steps, 1, 0),
        LocalStep::Spawn {
            program: "b".to_string(),
            args: words(&["1", "2"])
        }
    );
    assert_eq!(local_step(&steps, 1, 9), LocalStep::Exit { code: 9 });
    assert_eq!(local_step(&steps, 3, 0), LocalStep::Exit { code: 0 });
    assert_eq!(local_step(&[vec![]], 0, 0), LocalStep::Exit { code: 1 });
}

#[test]
fn local_commands_end_as_remote_ones_do() {
    let quiet = |code| LocalOutcome {
        code,
        message: None,
    };
    assert_eq!(local_end("slow", LocalEnd::Exited { code: None }), quiet(1));
    assert_eq!(local_end("slow", LocalEnd::Exited { code: Some(0) }), quiet(0));
    assert_eq!(local_end("slow", LocalEnd::Exited { code: Some(5) }), quiet(5));

    let timeout = TimeSpan::from_secs(90);
    let outcome = local_end("slow", LocalEnd::TimedOut { timeout });
    assert_eq!(outcome.code, 124);
    let message = outcome.message.unwrap();
    assert_eq!(message, timeout_message("slow", &timeout));

    let (mut execution, _) = Execution::start("slow", &one_step(Some(timeout)));
    assert_eq!(
        execution.handle(StepEvent::TimedOut).outputs,
        vec![
            TaskOutput::Stderr {
                chunk: message.into_bytes()
            },
            TaskOutput::Exit { code: 124 }
        ]
    );
    assert_eq!(
        local_step(&one_step(Some(timeout)).steps, 1, outcome.code),
        LocalStep::Exit { code: 124 }
    );
}

#[test]
fn events_can_be_cloned() {
    let event: RpcEvent = RpcEvent::Exit { code: 3 };
    assert_eq!(event.clone(), event);
}

fn out(text: &str) -> Sighting {
    Sighting::Output {
        stdout: true,
        chunk: text.as_bytes().to_vec(),
    }
}

fn handed_on(sightings: Vec<Sighting>) -> Vec<StepEvent> {
    let mut streams = CommandStreams::open();
    sightings
        .into_iter()
        .filter_map(|sighting| streams.see(sighting))
        .collect()
}

fn written(text: &str) -> StepEvent {
    StepEvent::Output {
        stdout: true,
        chunk: text.as_bytes().to_vec(),
    }
}

#[test]
fn output_comes_before_the_end_of_a_command() {
    let exited = || Sighting::Exited { code: Some(7) };
    let whole = vec![
        written("a"),
        written("b"),
        StepEvent::StreamFailed {
            message: "broken".to_string(),
        },
        StepEvent::Exited { code: Some(7) },
    ];
    let broken = || Sighting::StreamFailed {
        message: "broken".to_string(),
    };
    assert_eq!(
        handed_on(vec![out("a"), exited(), out("b"), broken(), Sighting::Closed]),
        whole
    );
    assert_eq!(
        handed_on(vec![out("a"), out("b"), broken(), Sighting::Closed, exited()]),
        whole
    );
    assert_eq!(handed_on(vec![out("a"), exited(), out("b")]), vec![written("a"), written("b")]);
    assert_eq!(
        handed_on(vec![
            Sighting::WaitFailed {
                message: "lost".to_string()
            },
            exited(),
            Sighting::Closed,
            Sighting::Closed
        ]),
        vec![StepEvent::WaitFailed {
            message: "lost".to_string()
        }]
    );
}

#[test]
fn output_is_sent_before_the_exit_code() {
    let (mut execution, _) = Execution::start("test", &one_step(None));
    let mut streams = CommandStreams::open();
    let mut outputs = Vec::new();
    for sighting in [
        Sighting::Exited { code: Some(7) },
        out("late"),
        Sighting::Closed,
    ] {
        if let Some(event) = streams.see(sighting) {
            outputs.extend(execution.handle(event).outputs);
        }
    }
    assert_eq!(
        outputs,
        vec![
            TaskOutput::Stdout {
                chunk: b"late".to_vec()
            },
            TaskOutput::Exit { code: 7 }
        ]
    );
}

#[test]
fn the_end_of_a_command_is_not_held_back_for_ever() {
    let exited = || Sighting::Exited { code: Some(0) };
    let end = || StepEvent::Exited { code: Some(0) };
    assert_eq!(
        handed_on(vec![exited(), out("a"), Sighting::Drained, out("b"), Sighting::Closed]),
        vec![written("a"), end()]
    );
    assert_eq!(handed_on(vec![exited(), Sighting::TimeUp]), vec![end()]);
    assert_eq!(
        handed_on(vec![out("a"), Sighting::TimeUp, exited(), Sighting::Closed]),
        vec![written("a"), StepEvent::TimedOut]
    );
    assert_eq!(handed_on(vec![Sighting::Drained, out("a")]), vec![written("a")]);

    let mut streams = CommandStreams::open();
    assert!(!streams.is_draining() && !streams.is_closed());
    assert_eq!(streams.see(exited()), None);
    assert!(streams.is_draining() && !streams.is_closed());
    assert_eq!(streams.see(Sighting::Closed), Some(end()));
    assert!(!streams.is_draining() && streams.is_closed());
}

#[test]
fn draining_is_bounded() {
    assert_eq!(drain_wait(0), 200);
    assert_eq!(drain_wait(800), 200);
    assert_eq!(drain_wait(801), 199);
    assert_eq!(drain_wait(999), 1);
    assert_eq!(drain_wait(1000), 0);
    assert_eq!(drain_wait(u64::MAX), 0);
}

fn parsed(json: &str) -> serde_json::Value {
    serde_json::from_str(json).unwrap()
}

#[test]
fn events_are_sent_as_json() {
    assert_eq!(
        serialize_chunk_event(true, b"out\n").unwrap(),
        "{\"type\":\"stdout\",\"chunk_b64\":\"b3V0Cg==\"}"
    );
    assert_eq!(
        serialize_chunk_event(false, b"\xff\x00").unwrap(),
        "{\"type\":\"stderr\",\"chunk_b64\":\"/wA=\"}"
    );
    assert_eq!(
        TaskOutput::Exit { code: -7 }.line().unwrap(),
        "{\"type\":\"exit\",\"code\":-7}\n"
    );
    let chunk: Vec<u8> = (0..=255).collect();
    let line = TaskOutput::Stdout { chunk: chunk.clone() }.line().unwrap();
    assert_eq!(line.matches('\n').count(), 1);
    let value = parsed(&line);
    assert_eq!(value["type"], "stdout");
    let text = value["chunk_b64"].as_str().unwrap();
    let decoded = base64::Engine::decode(&base64::engine::general_purpose::STANDARD, text);
    assert_eq!(decoded.unwrap(), chunk);
    assert_eq!(parsed(&TaskOutput::Exit { code: 124 }.line().unwrap())["code"], 124);
}

#[test]
fn any_text_of_an_event_survives_json() {
    let mut texts = vec!["plain".to_string(), "q\"b\\s/é\u{10ffff}\u{7f}".to_string()];
    let mut code: u32 = 0;
    while code < 0x20 {
        texts.push(format!("a{}b", char::from_u32(code).unwrap()));
        code += 1;
    }
    for text in texts {
        let json = stderr_event(&text).to_json();
        assert!(!json.contains('\n'));
        assert_eq!(parsed(&json)["chunk_b64"], text);
        assert_eq!(parsed(&json)["type"], "stderr");
    }
    assert_eq!(
        stdout_event("\u{1}\u{1f}\n\"").to_json(),
        "{\"type\":\"stdout\",\"chunk_b64\":\"\\u0001\\u001f\\n\\\"\"}"
    );
}

#[test]
fn timeouts_are_announced() {
    assert_eq!(
        timeout_message("slow", &TimeSpan::from_secs(1)),
        "task `slow` timed out after 1s\n"
    );
}
