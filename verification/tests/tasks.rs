//! Tasks: variables, preparation and help.
use sshpal::cli::prepare_invocation;
use sshpal::config::{Task, TaskRun, TaskVar};
use sshpal::name_map::NameMap;
use sshpal::tasks::{
    accept_words, documented_vars, forward_args, is_valid_invocation_name, parse_invocation_args,
    prepare_task, render_template, run_preview, task_cwd, task_help, DocumentedVar, Environment,
    TaskError,
};
use sshpal::time_span::TimeSpan;

fn words(list: &[&str]) -> Vec<String> {
    list.iter().map(|item| item.to_string()).collect()
}

fn texts(list: &[(&str, &str)]) -> NameMap<String> {
    let mut map = NameMap::new();
    for (name, value) in list {
        map.insert(name.to_string(), value.to_string());
    }
    map
}

fn var(description: Option<&str>, optional: bool) -> TaskVar {
    TaskVar {
        description: description.map(|text| text.to_string()),
        optional,
    }
}

fn task_with(run: TaskRun, description: Option<&str>, vars: &[(&str, TaskVar)]) -> Task {
    let mut documented = NameMap::new();
    for (name, var) in vars {
        documented.insert(name.to_string(), var.clone());
    }
    Task {
        run,
        description: description.map(|text| text.to_string()),
        cwd: None,
        env: NameMap::new(),
        timeout: None,
        vars: documented,
    }
}

fn task(run: TaskRun) -> Task {
    task_with(run, Some("Example task"), &[])
}

#[test]
fn prepares_argv_task_with_substitution_and_forwarded_args() {
    let vars = texts(&[("crate", "sshpal")]);
    let task = task_with(
        TaskRun::Command(words(&["cargo", "test", "--package", "{#crate}"])),
        None,
        &[("crate", var(None, false))],
    );

    let prepared = prepare_task(
        "test",
        &task,
        "/local",
        &vars,
        &words(&["--nocapture"]),
        &Environment::new(),
    )
    .unwrap();

    assert_eq!(
        prepared.steps,
        vec![words(&["cargo", "test", "--package", "sshpal", "--nocapture"])]
    );
}

#[test]
fn prepares_string_task_by_splitting_after_substitution() {
    let vars = texts(&[("crate", "my crate")]);
    let task = task_with(
        TaskRun::String("cargo test --package '{#crate}'".to_string()),
        None,
        &[("crate", var(None, false))],
    );

    let prepared = prepare_task("test", &task, "/local", &vars, &[], &Environment::new()).unwrap();
    assert_eq!(
        prepared.steps,
        vec![words(&["cargo", "test", "--package", "my crate"])]
    );
}

#[test]
fn optional_vars_expand_to_empty_strings() {
    let task = task_with(
        TaskRun::Command(words(&["cmd", "{#label}"])),
        None,
        &[("label", var(None, true))],
    );

    let prepared =
        prepare_task("test", &task, "/local", &NameMap::new(), &[], &Environment::new()).unwrap();
    assert_eq!(prepared.steps, vec![vec!["cmd".to_string(), String::new()]]);
}

#[test]
fn help_includes_documented_and_inferred_vars() {
    let task = task_with(
        TaskRun::Command(words(&[
            "cargo", "build", "--package", "{#crate}", "--target", "{#target}",
        ])),
        Some("Build one crate"),
        &[("crate", var(Some("Cargo package name"), false))],
    );
    let mut tasks = NameMap::new();
    tasks.insert("build".to_string(), task);

    let output = task_help("sshpal-run", &tasks).unwrap();
    assert!(output.contains("usage: sshpal-run build crate=<value> target=<value> [-- <args...>]"));
    assert!(output.contains("crate=<value>  Cargo package name (required)"));
    assert!(output.contains("target=<value>  undocumented (required, inferred)"));
}

#[test]
fn help_reports_no_tasks() {
    assert_eq!(
        task_help("sshpal-run", &NameMap::new()).unwrap(),
        "no tasks defined"
    );
}

#[test]
fn quoted_preview_is_shell_like() {
    let preview = run_preview(&task(TaskRun::Command(words(&["cargo", "test package"]))));
    assert_eq!(preview, "cargo 'test package'");
}

#[test]
fn parses_vars_and_forwarded_args() {
    let args = words(&["crate=sshpal", "message=hello world", "--", "--nocapture"]);

    let parsed = parse_invocation_args(&args).unwrap();
    assert_eq!(
        parsed.vars,
        texts(&[("crate", "sshpal"), ("message", "hello world")])
    );
    assert_eq!(parsed.forwarded_args, vec!["--nocapture".to_string()]);
}

#[test]
fn rejects_invalid_pre_separator_args() {
    let err = parse_invocation_args(&["not-a-var".to_string()])
        .unwrap_err()
        .message();
    assert!(err.contains("use name=value before `--`"));
}

#[test]
fn reads_invocations_to_the_letter() {
    let parsed = parse_invocation_args(&words(&["a=1=2", "b=", "a=3", "--", "--", "c=d"])).unwrap();
    assert_eq!(parsed.vars, texts(&[("a", "3"), ("b", "")]));
    assert_eq!(parsed.forwarded_args, words(&["--", "c=d"]));
    let empty = parse_invocation_args(&[]).unwrap();
    assert_eq!(empty.vars.len(), 0);
    assert_eq!(empty.forwarded_args, Vec::<String>::new());
    assert_eq!(
        parse_invocation_args(&words(&["a-b=1"])).unwrap_err().message(),
        "invalid task variable `a-b`; names must match [A-Za-z_][A-Za-z0-9_]*"
    );
    assert_eq!(
        parse_invocation_args(&words(&["x", "a-b=1"])),
        Err(TaskError::InvalidArgument { arg: "x".to_string() })
    );
    assert!(is_valid_invocation_name("a_1"));
    assert!(!is_valid_invocation_name("1a"));
}

#[test]
fn lists_needed_vars_before_optional_ones() {
    let task = task_with(
        TaskRun::String("{#z} {#b} {#a} {#z} {#m}".to_string()),
        None,
        &[
            ("a", var(None, true)),
            ("b", var(Some("What"), false)),
            ("m", var(None, true)),
        ],
    );
    let names: Vec<(String, bool, bool)> = documented_vars(&task)
        .unwrap()
        .into_iter()
        .map(|var| (var.name, var.optional, var.documented))
        .collect();
    assert_eq!(
        names,
        vec![
            ("b".to_string(), false, true),
            ("z".to_string(), false, false),
            ("a".to_string(), true, true),
            ("m".to_string(), true, true),
        ]
    );
    assert_eq!(
        documented_vars(&task).unwrap()[0],
        DocumentedVar {
            name: "b".to_string(),
            description: Some("What".to_string()),
            optional: false,
            documented: true,
        }
    );
}

#[test]
fn help_text_is_laid_out_task_by_task() {
    let mut tasks = NameMap::new();
    tasks.insert(
        "b".to_string(),
        task_with(
            TaskRun::Sequence(vec![words(&["cargo", "fmt"]), words(&["echo", "it's", ""])]),
            None,
            &[],
        ),
    );
    tasks.insert(
        "a".to_string(),
        task_with(
            TaskRun::String("run {#x} {#y}".to_string()),
            Some("First"),
            &[("x", var(Some("Ex"), true)), ("y", var(None, false))],
        ),
    );
    tasks.insert(
        "c".to_string(),
        task_with(TaskRun::String("{#o}".to_string()), None, &[("o", var(None, true))]),
    );
    assert_eq!(
        task_help("sshpal run", &tasks).unwrap(),
        "a\n  First\n  usage: sshpal run a y=<value> [x=<value>] [-- <args...>]\n  run: run {#x} \
         {#y}\n  vars:\n    y=<value>  required\n    x=<value>  Ex (optional)\n\nb\n  usage: sshpal \
         run b [-- <args...>]\n  run: cargo fmt && echo 'it'\\''s' ''\n\nc\n  usage: sshpal run c \
         [o=<value>] [-- <args...>]\n  run: {#o}\n  vars:\n    o=<value>  optional"
    );
}

#[test]
fn help_reports_the_first_malformed_template() {
    let mut tasks = NameMap::new();
    tasks.insert("a".to_string(), task(TaskRun::String("x {".to_string())));
    tasks.insert("b".to_string(), task(TaskRun::String("}".to_string())));
    assert_eq!(
        task_help("sshpal-run", &tasks).unwrap_err().message(),
        "unterminated `{` in `x {`"
    );
}

fn smoke_tasks() -> NameMap<Task> {
    let mut tasks = NameMap::new();
    tasks.insert(
        "render".to_string(),
        task_with(
            TaskRun::Command(words(&[
                "sh",
                "-c",
                "printf '%s|%s|%s\n' \"$0\" \"$1\" \"$2\"",
                "{#name}",
                "{#mode}",
            ])),
            Some("Render a formatted line"),
            &[
                ("name", var(Some("Value to print"), false)),
                ("mode", var(Some("Rendering mode"), true)),
            ],
        ),
    );
    tasks.insert(
        "quick".to_string(),
        task_with(
            TaskRun::String("printf 'quick task\\n'".to_string()),
            Some("Run a quick command"),
            &[],
        ),
    );
    let mut cwd_env = task_with(
        TaskRun::Command(words(&["sh", "-c", "printf '%s|%s' \"$PWD\" \"$SPECIAL\""])),
        None,
        &[],
    );
    cwd_env.cwd = Some(".".to_string());
    cwd_env.timeout = Some(TimeSpan::from_secs(5));
    cwd_env.env = texts(&[("SPECIAL", "hello-env")]);
    tasks.insert("cwd_env".to_string(), cwd_env);
    tasks
}

#[test]
fn tasks_help_lists_local_usage() {
    let help = task_help("sshpal run", &smoke_tasks()).unwrap();
    assert!(help.contains("usage: sshpal run render name=<value> [mode=<value>] [-- <args...>]"));
    assert!(help.contains("Render a formatted line"));
    assert!(help.contains("run: printf 'quick task\\n'"));
}

#[test]
fn local_run_executes_task_with_vars_and_forwarded_args() {
    let prepared = prepare_invocation(
        &smoke_tasks(),
        "/proj",
        "render",
        &words(&["name=hello world", "--", "tail"]),
        &Environment::new(),
    )
    .unwrap();
    assert_eq!(
        prepared.steps,
        vec![words(&[
            "sh",
            "-c",
            "printf '%s|%s|%s\n' \"$0\" \"$1\" \"$2\"",
            "hello world",
            "",
            "tail",
        ])]
    );
}

#[test]
fn local_run_applies_task_cwd_and_env() {
    let tasks = smoke_tasks();
    let prepared =
        prepare_invocation(&tasks, "/proj", "cwd_env", &[], &Environment::new()).unwrap();
    assert_eq!(
        prepared.steps,
        vec![words(&["sh", "-c", "printf '%s|%s' \"$PWD\" \"$SPECIAL\""])]
    );
    assert_eq!(prepared.cwd, "/proj/.");
    assert_eq!(prepared.env.get("SPECIAL"), Some(&"hello-env".to_string()));
    assert_eq!(prepared.timeout, Some(TimeSpan::from_secs(5)));
}

#[test]
fn tasks_run_in_their_directory() {
    let mut task = task(TaskRun::String("x".to_string()));
    assert_eq!(task_cwd("/proj", &task), "/proj");
    task.cwd = Some("sub".to_string());
    assert_eq!(task_cwd("/proj", &task), "/proj/sub");
    task.cwd = Some("/elsewhere".to_string());
    assert_eq!(task_cwd("/proj", &task), "/elsewhere");
    assert_eq!(
        prepare_invocation(&smoke_tasks(), "/proj", "other", &[], &Environment::new())
            .unwrap_err()
            .message(),
        "unknown task `other`"
    );
}

#[test]
fn forwarded_args_reach_the_last_step_only() {
    let task = task_with(
        TaskRun::Sequence(vec![words(&["a", "{#v}"]), words(&["b", "{{}}"])]),
        None,
        &[],
    );
    let prepared = prepare_task(
        "t",
        &task,
        "/l",
        &texts(&[("v", "{#w}")]),
        &words(&["x", "y"]),
        &Environment::new(),
    )
    .unwrap();
    assert_eq!(
        prepared.steps,
        vec![words(&["a", "{#w}"]), words(&["b", "{}", "x", "y"])]
    );
    assert_eq!(prepared.cwd, "/l");
    assert_eq!(forward_args(vec![], &words(&["x"])), Vec::<Vec<String>>::new());
}

fn environment(texts_of: &[(&str, &str)], invalid: &[(&str, &str)]) -> Environment {
    Environment {
        texts: texts(texts_of),
        invalid: texts(invalid),
    }
}

#[test]
fn environment_variables_are_filled_in() {
    let task = task(TaskRun::Command(words(&["echo", "{$HOME}/{$USER}"])));
    let prepare = |env: &Environment| prepare_task("t", &task, "/l", &NameMap::new(), &[], env);
    let prepared = prepare(&environment(&[("HOME", "/home/me"), ("USER", "me")], &[])).unwrap();
    assert_eq!(prepared.steps, vec![words(&["echo", "/home/me/me"])]);
    let error = prepare(&environment(&[("HOME", "/home/me")], &[])).unwrap_err();
    assert_eq!(error.message(), "task `t` requires env var `USER`");
    assert_eq!(
        error.full_message(),
        "task `t` requires env var `USER`: environment variable not found"
    );
    let error =
        prepare(&environment(&[("HOME", "/home/me")], &[("USER", "\"\\xFF\"")])).unwrap_err();
    assert_eq!(error.message(), "task `t` requires env var `USER`");
    assert_eq!(
        error.full_message(),
        "task `t` requires env var `USER`: environment variable was not valid unicode: \"\\xFF\""
    );
}

#[test]
fn templates_are_filled_or_refused() {
    let mut task = task(TaskRun::String("unused".to_string()));
    task.vars.insert("o".to_string(), var(None, true));
    task.vars.insert("r".to_string(), var(None, false));
    let vars = texts(&[("a", "1"), ("r", "{#a}")]);
    let env = environment(&[("E", "e")], &[("X", "shown")]);
    let fill = |source: &str| render_template("t", source, &task, &vars, &env);
    assert_eq!(fill("{{{#a}}}-{#r}-{#o}-{$E}"), Ok("{1}-{#a}--e".to_string()));
    assert_eq!(fill(""), Ok(String::new()));
    assert_eq!(
        fill("{#b}{$M}"),
        Err(TaskError::MissingVar {
            task: "t".to_string(),
            name: "b".to_string()
        })
    );
    assert_eq!(
        fill("{$M}{#b}"),
        Err(TaskError::MissingEnvVar {
            task: "t".to_string(),
            name: "M".to_string(),
            invalid: None
        })
    );
    assert_eq!(
        fill("{$X}").unwrap_err().full_message(),
        "task `t` requires env var `X`: environment variable was not valid unicode: shown"
    );
    let malformed = fill("{#b}{").unwrap_err();
    assert_eq!(malformed.message(), "task `t` has invalid template");
    assert_eq!(
        malformed.full_message(),
        "task `t` has invalid template: unterminated `{` in `{#b}{`"
    );
    let none = NameMap::new();
    assert_eq!(
        render_template("t", "{#r}", &task, &none, &env)
            .unwrap_err()
            .message(),
        "task `t` requires var `r`"
    );
}

#[test]
fn reports_why_a_task_cannot_run() {
    let none: NameMap<String> = NameMap::new();
    let env = Environment::new();
    let prepare = |run: TaskRun| prepare_task("t", &task(run), "/l", &none, &[], &env).unwrap_err();
    assert_eq!(
        prepare(TaskRun::Command(words(&["x", "{#b}", "{#a}", "{$E}"]))).message(),
        "task `t` requires var `a`"
    );
    assert_eq!(
        prepare(TaskRun::Command(words(&["x", "{#b}", "{"]))).message(),
        "unterminated `{` in `{`"
    );
    let quote = prepare(TaskRun::String("echo 'open".to_string()));
    assert_eq!(quote.message(), "task `t` produced an invalid command string");
    assert_eq!(
        quote.full_message(),
        "task `t` produced an invalid command string: missing closing quote"
    );
    assert_eq!(
        prepare(TaskRun::String("# nothing".to_string())).message(),
        "task `t` produced an empty command string"
    );
}

#[test]
fn split_words_are_accepted_unless_there_are_none() {
    assert_eq!(accept_words("t", Some(words(&["a"]))), Ok(words(&["a"])));
    assert_eq!(
        accept_words("t", Some(vec![])),
        Err(TaskError::EmptyCommandString { task: "t".to_string() })
    );
    assert_eq!(
        accept_words("t", None),
        Err(TaskError::InvalidCommandString { task: "t".to_string() })
    );
}

#[test]
fn previews_quote_what_a_shell_would_act_on() {
    for special in "|&;<>()$`\\\" \t*?[#~=%\n".chars() {
        let word = format!("a{special}b");
        let preview = run_preview(&task(TaskRun::Command(vec![word.clone()])));
        assert_eq!(preview, format!("'{word}'"));
    }
    let plain = "azAZ09_-./:,@+{}]^!é";
    assert_eq!(run_preview(&task(TaskRun::Command(words(&[plain])))), plain);
    assert_eq!(
        run_preview(&task(TaskRun::Command(words(&["a\n'b"])))),
        "'a\n'\\''b'"
    );
}
