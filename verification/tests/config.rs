//! Configurations: reading, validity and discovery.
use sshpal::cli::plan_sync;
use sshpal::config::{
    config_path, default_remote_bin_path, default_rpc_port, default_sync_detection_timeout,
    discover_step, load_config, validate_argv, validate_template, Config, ConfigError, Discovery,
    LoadedConfig, RawConfig, RawDetailedTask, RawTask, RawTaskRun, RawTaskVar, Task, TaskRun,
    TaskVar, CONFIG_FILE_NAME, DEFAULT_REMOTE_BIN_PATH, DEFAULT_RPC_PORT,
};
use sshpal::name_map::NameMap;
use sshpal::paths::SyncDirection;
use sshpal::template::TemplateError;
use sshpal::time_span::TimeSpan;

fn words(list: &[&str]) -> Vec<String> {
    list.iter().map(|item| item.to_string()).collect()
}

fn text_of(value: &toml::Value) -> String {
    value.as_str().unwrap().to_string()
}

fn texts_of(value: &toml::Value) -> Vec<String> {
    value.as_array().unwrap().iter().map(text_of).collect()
}

fn rows_of(value: &toml::Value) -> Vec<Vec<String>> {
    value.as_array().unwrap().iter().map(texts_of).collect()
}

fn is_nested(value: &toml::Value) -> bool {
    value.as_array().unwrap().iter().any(|item| item.is_array())
}

fn raw_run(value: &toml::Value) -> RawTaskRun {
    if value.is_str() {
        RawTaskRun::String(text_of(value))
    } else if is_nested(value) {
        RawTaskRun::Sequence(rows_of(value))
    } else {
        RawTaskRun::Command(texts_of(value))
    }
}

fn raw_task(value: &toml::Value) -> RawTask {
    match value {
        toml::Value::String(command) => RawTask::String(command.clone()),
        toml::Value::Table(table) => {
            let mut env = NameMap::new();
            if let Some(toml::Value::Table(entries)) = table.get("env") {
                for (name, value) in entries {
                    env.insert(name.clone(), text_of(value));
                }
            }
            let mut vars = NameMap::new();
            if let Some(toml::Value::Table(entries)) = table.get("vars") {
                for (name, value) in entries {
                    let var = value.as_table().unwrap();
                    vars.insert(
                        name.clone(),
                        RawTaskVar {
                            description: var.get("description").map(text_of),
                            optional: var
                                .get("optional")
                                .map(|value| value.as_bool().unwrap())
                                .unwrap_or(false),
                        },
                    );
                }
            }
            RawTask::Detailed(RawDetailedTask {
                run: raw_run(&table["run"]),
                description: table.get("description").map(text_of),
                cwd: table.get("cwd").map(text_of),
                env,
                timeout: None,
                vars,
            })
        }
        other => {
            if is_nested(other) {
                RawTask::Sequence(rows_of(other))
            } else {
                RawTask::Command(texts_of(other))
            }
        }
    }
}

fn raw_config(text: &str) -> RawConfig {
    let table: toml::Table = text.parse().unwrap();
    let mut tasks = NameMap::new();
    if let Some(toml::Value::Table(entries)) = table.get("tasks") {
        for (name, value) in entries {
            tasks.insert(name.clone(), raw_task(value));
        }
    }
    RawConfig {
        ssh_target: text_of(&table["ssh_target"]),
        local_root: table.get("local_root").map(text_of),
        remote_root: text_of(&table["remote_root"]),
        rpc_port: table
            .get("rpc_port")
            .map(|value| value.as_integer().unwrap() as u16)
            .unwrap_or_else(default_rpc_port),
        remote_bin_path: table
            .get("remote_bin_path")
            .map(text_of)
            .unwrap_or_else(default_remote_bin_path),
        sync_detection_timeout: default_sync_detection_timeout(),
        tasks,
    }
}

fn sample_config() -> RawConfig {
    raw_config(
        r#"
ssh_target = "me@example"
remote_root = "/remote/project"

[tasks]
test = ["cargo", "test"]
"#,
    )
}

fn bare(run: TaskRun) -> Task {
    Task {
        run,
        description: None,
        cwd: None,
        env: NameMap::new(),
        timeout: None,
        vars: NameMap::new(),
    }
}

fn valid_config() -> Config {
    Config {
        ssh_target: "me@example".to_string(),
        local_root: "/tmp/local".to_string(),
        remote_root: "/tmp/remote".to_string(),
        rpc_port: DEFAULT_RPC_PORT,
        remote_bin_path: DEFAULT_REMOTE_BIN_PATH.to_string(),
        sync_detection_timeout: default_sync_detection_timeout(),
        tasks: NameMap::new(),
    }
}

fn with_task(name: &str, task: Task) -> Config {
    let mut config = valid_config();
    config.tasks.insert(name.to_string(), task);
    config
}

/// Searches from `start` upwards, where `holding` are the directories with a file.
fn discover(start: &str, holding: &[&str]) -> Result<(String, String), ConfigError> {
    let mut dir = start.to_string();
    loop {
        let present = holding.contains(&dir.as_str());
        match discover_step(start, &dir, present) {
            Discovery::Found { path } => return Ok((dir, path)),
            Discovery::Ascend { dir: parent } => dir = parent,
            Discovery::Missing { error } => return Err(error),
        }
    }
}

fn load_from(start: &str, holding: &[&str]) -> LoadedConfig {
    let (dir, path) = discover(start, holding).unwrap();
    let loaded = load_config(sample_config(), &dir).unwrap();
    assert_eq!(loaded.path, path);
    loaded
}

#[test]
fn validates_required_fields() {
    let config = Config {
        ssh_target: String::new(),
        local_root: "/tmp/local".to_string(),
        remote_root: "/tmp/remote".to_string(),
        rpc_port: DEFAULT_RPC_PORT,
        remote_bin_path: DEFAULT_REMOTE_BIN_PATH.to_string(),
        sync_detection_timeout: default_sync_detection_timeout(),
        tasks: NameMap::new(),
    };
    assert!(config.validate().is_err());
}

#[test]
fn discovers_nearest_config() {
    let root = "/tmp/work";
    let child = "/tmp/work/proj/sub";
    let loaded = load_from(child, &[root, child]);
    assert_eq!(loaded.project_root, child);
    let loaded = load_from("/tmp/work/proj", &[root, child]);
    assert_eq!(loaded.project_root, root);
}

#[test]
fn infers_local_root_from_config_directory() {
    let loaded = load_from("/tmp/work/proj", &["/tmp/work/proj"]);
    assert_eq!(loaded.config.local_root, "/tmp/work/proj");
}

#[test]
fn errors_when_missing() {
    let err = discover("/tmp/work", &[]).unwrap_err().message();
    assert!(err.contains(CONFIG_FILE_NAME));
    assert_eq!(err, "no .sshpal.toml found from /tmp/work");
}

#[test]
fn parses_sequential_task_steps() {
    let raw = raw_config(
        r#"
ssh_target = "me@example"
remote_root = "/remote/project"

[tasks]
check = [["cargo", "fmt", "--check"], ["cargo", "test"]]
"#,
    );

    let config = raw.resolve("/tmp/example-project");
    config.validate().unwrap();
    assert_eq!(
        config.tasks.get("check").unwrap(),
        &bare(TaskRun::Sequence(vec![
            words(&["cargo", "fmt", "--check"]),
            words(&["cargo", "test"]),
        ]))
    );
}

#[test]
fn parses_structured_task_with_docs_and_vars() {
    let raw = raw_config(
        r#"
ssh_target = "me@example"
remote_root = "/remote/project"

[tasks.build]
run = "cargo build --package '{#crate}'"
description = "Build one package"

[tasks.build.vars.crate]
description = "Cargo package name"
"#,
    );

    let config = raw.resolve("/tmp/example-project");
    config.validate().unwrap();
    let mut vars = NameMap::new();
    vars.insert(
        "crate".to_string(),
        TaskVar {
            description: Some("Cargo package name".to_string()),
            optional: false,
        },
    );
    assert_eq!(
        config.tasks.get("build").unwrap(),
        &Task {
            run: TaskRun::String("cargo build --package '{#crate}'".to_string()),
            description: Some("Build one package".to_string()),
            cwd: None,
            env: NameMap::new(),
            timeout: None,
            vars,
        }
    );
}

#[test]
fn rejects_unused_documented_vars() {
    let raw = raw_config(
        r#"
ssh_target = "me@example"
remote_root = "/remote/project"

[tasks.build]
run = ["cargo", "build"]

[tasks.build.vars.crate]
description = "Cargo package name"
"#,
    );

    let config = raw.resolve("/tmp/example-project");
    let err = config.validate().unwrap_err().message();
    assert!(err.contains("documents var `crate` but never references it"));
}

#[test]
fn accepts_undocumented_referenced_vars() {
    let raw = raw_config(
        r#"
ssh_target = "me@example"
remote_root = "/remote/project"

[tasks.build]
run = ["cargo", "build", "--package", "{#crate}"]
"#,
    );

    let config = raw.resolve("/tmp/example-project");
    config.validate().unwrap();
    assert_eq!(
        config
            .tasks
            .get("build")
            .unwrap()
            .referenced_client_vars()
            .unwrap(),
        vec!["crate".to_string()]
    );
}

#[test]
fn rejects_malformed_placeholders() {
    let raw = raw_config(
        r#"
ssh_target = "me@example"
remote_root = "/remote/project"

[tasks.build]
run = "cargo build {crate}"
"#,
    );

    let config = raw.resolve("/tmp/example-project");
    let error = config.validate().unwrap_err();
    assert!(error.message().contains("invalid run string"));
    assert_eq!(
        error.full_message(),
        "config task `build` has invalid run string: invalid placeholder start in \
         `cargo build {crate}`; use `{`, `{#name}`, or `{$NAME}`"
    );
}

#[test]
fn rejects_reserved_task_name() {
    let raw = raw_config(
        r#"
ssh_target = "me@example"
remote_root = "/remote/project"

[tasks]
tasks-help = ["printf", "nope"]
"#,
    );

    let config = raw.resolve("/tmp/example-project");
    let err = config.validate().unwrap_err().message();
    assert!(err.contains("reserved"));
}

#[test]
fn resolves_all_fields_and_defaults() {
    let raw = raw_config(
        r#"
ssh_target = "you@host"
local_root = "/tmp/local-worktree"
remote_root = "/work/project"
rpc_port = 40001
remote_bin_path = "~/bin/sshpal-run-custom"

[tasks]
dev = "bun run dev"
lint = ["bin/lint", "--strict"]

[tasks.full]
run = [["a"], ["b", "{$HOME}"]]
cwd = "sub"

[tasks.full.env]
RUST_BACKTRACE = "1"
"#,
    );
    let config = raw.resolve("/tmp/example-project");
    config.validate().unwrap();
    assert_eq!(config.local_root, "/tmp/local-worktree");
    assert_eq!(config.rpc_port, 40_001);
    assert_eq!(config.remote_bin_path, "~/bin/sshpal-run-custom");
    assert_eq!(
        config.tasks.get("dev"),
        Some(&bare(TaskRun::String("bun run dev".to_string())))
    );
    assert_eq!(
        config.tasks.get("lint"),
        Some(&bare(TaskRun::Command(words(&["bin/lint", "--strict"]))))
    );
    let full = config.tasks.get("full").unwrap();
    assert_eq!(full.cwd.as_deref(), Some("sub"));
    assert_eq!(full.env.get("RUST_BACKTRACE"), Some(&"1".to_string()));
    assert_eq!(full.referenced_env_vars().unwrap(), words(&["HOME"]));
    assert_eq!(full.steps(), vec![words(&["a"]), words(&["b", "{$HOME}"])]);
    assert_eq!(full.templates(), words(&["a", "b", "{$HOME}"]));
    assert_eq!(config.tasks.len(), 3);

    let sample = sample_config().resolve("/tmp/example-project");
    assert_eq!(sample.rpc_port, 45_678);
    assert_eq!(sample.remote_bin_path, "~/.local/bin/sshpal-run");
    assert_eq!(sample.sync_detection_timeout, TimeSpan::from_secs(10));
    assert_eq!(sample.local_root, "/tmp/example-project");
}

#[test]
fn reports_the_first_fault_of_a_config() {
    let mut config = valid_config();
    config.ssh_target = " \t".to_string();
    config.local_root = "relative".to_string();
    assert_eq!(config.validate(), Err(ConfigError::EmptySshTarget));
    config.ssh_target = "me@example".to_string();
    assert_eq!(config.validate(), Err(ConfigError::RelativeLocalRoot));
    assert_eq!(
        ConfigError::RelativeLocalRoot.message(),
        "config local_root must be an absolute path"
    );
    config.local_root = "/l".to_string();
    config.remote_root = "r".to_string();
    assert_eq!(config.validate(), Err(ConfigError::RelativeRemoteRoot));
    config.remote_root = "/r".to_string();
    config.remote_bin_path = "\n".to_string();
    assert_eq!(config.validate(), Err(ConfigError::EmptyRemoteBinPath));
    assert_eq!(
        ConfigError::EmptyRemoteBinPath.message(),
        "config remote_bin_path must not be empty"
    );
    config.remote_bin_path = "x".to_string();
    assert_eq!(config.validate(), Ok(()));
    config
        .tasks
        .insert("  ".to_string(), bare(TaskRun::String("x".to_string())));
    assert_eq!(config.validate(), Err(ConfigError::EmptyTaskName));
    assert_eq!(
        ConfigError::EmptyTaskName.message(),
        "config task names must not be empty"
    );
}

#[test]
fn reports_faults_of_commands() {
    let task = "t".to_string();
    assert_eq!(
        with_task("t", bare(TaskRun::String("  ".to_string()))).validate(),
        Err(ConfigError::EmptyCommandString { task: task.clone() })
    );
    assert_eq!(
        with_task("t", bare(TaskRun::Command(vec![]))).validate(),
        Err(ConfigError::NoCommand { task: task.clone() })
    );
    assert_eq!(
        with_task("t", bare(TaskRun::Sequence(vec![]))).validate(),
        Err(ConfigError::NoCommand { task: task.clone() })
    );
    assert_eq!(
        with_task("t", bare(TaskRun::Sequence(vec![words(&["a"]), vec![]]))).validate(),
        Err(ConfigError::NoCommand { task: task.clone() })
    );
    assert_eq!(
        with_task("t", bare(TaskRun::Command(words(&[" ", "a"])))).validate(),
        Err(ConfigError::EmptyCommandArray { task: task.clone() })
    );
    assert_eq!(
        with_task("t", bare(TaskRun::Command(words(&["a", "{#x"])))).validate(),
        Err(ConfigError::InvalidArgv {
            task: task.clone(),
            cause: TemplateError::UnterminatedPlaceholder {
                template: "{#x".to_string()
            },
        })
    );
    assert_eq!(
        validate_argv("t", &words(&["a", "}"]))
            .unwrap_err()
            .full_message(),
        "config task `t` has invalid argv template: unescaped `}` in `}`; use `}}` for a literal \
         closing brace"
    );
    assert_eq!(validate_argv("t", &words(&["a", "", "{{"])), Ok(()));
    assert!(validate_template("{").is_err());
    assert_eq!(validate_template("{$A}{#b}"), Ok(()));
}

fn with_var(name: &str, description: Option<&str>) -> Config {
    let mut task = bare(TaskRun::String("x {#a}".to_string()));
    task.vars.insert(
        name.to_string(),
        TaskVar {
            description: description.map(|text| text.to_string()),
            optional: true,
        },
    );
    with_task("t", task)
}

#[test]
fn reports_faults_of_documented_vars() {
    let task = "t".to_string();
    assert_eq!(with_var("a", Some("what")).validate(), Ok(()));
    assert_eq!(with_var("a", None).validate(), Ok(()));
    assert_eq!(
        with_var(" ", None).validate(),
        Err(ConfigError::EmptyVarName { task: task.clone() })
    );
    let invalid = with_var("a-b", None).validate().unwrap_err();
    assert_eq!(
        invalid.message(),
        "config task `t` documents invalid var `a-b`; names must match [A-Za-z_][A-Za-z0-9_]*"
    );
    assert_eq!(
        with_var("a", Some(" ")).validate(),
        Err(ConfigError::EmptyVarDescription {
            task: task.clone(),
            name: "a".to_string()
        })
    );
    assert_eq!(
        with_var("b", None).validate(),
        Err(ConfigError::UnusedVar {
            task,
            name: "b".to_string()
        })
    );
}

#[test]
fn discovery_ends_at_the_root() {
    assert_eq!(
        discover("/a/b/c", &["/"]),
        Ok(("/".to_string(), "/.sshpal.toml".to_string()))
    );
    assert_eq!(
        discover_step("/a", "/a", false),
        Discovery::Ascend {
            dir: "/".to_string()
        }
    );
    assert_eq!(config_path("/a/b"), "/a/b/.sshpal.toml");
}

#[test]
fn refuses_to_load_an_invalid_config() {
    let mut raw = sample_config();
    raw.ssh_target = String::new();
    let error = load_config(raw, "/p").unwrap_err();
    assert_eq!(error.message(), "config ssh_target must not be empty");
}

#[test]
fn plans_sync_of_working_directory() {
    let mut config = valid_config();
    config.local_root = "/link/proj".to_string();
    config.remote_root = "/remote/proj".to_string();
    let plan = plan_sync(&config, "/real/proj", "/real/proj/a/b", ".", SyncDirection::Push).unwrap();
    assert_eq!(plan.relative_path, "a/b");
    assert_eq!(plan.local_path, "/link/proj/a/b");
    assert_eq!(plan.remote_path, "/remote/proj/a/b");
    let error =
        plan_sync(&config, "/real/proj", "/elsewhere", ".", SyncDirection::Push).unwrap_err();
    assert_eq!(error.message(), "cwd /elsewhere is not under /real/proj");
}
