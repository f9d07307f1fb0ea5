//! The commands that are run.
use sshpal::cli::{helper_file_name, install_note, plan_sync, sync_command, tunnel_note};
use sshpal::config::{default_sync_detection_timeout, Config};
use sshpal::name_map::NameMap;
use sshpal::paths::{SyncDirection, SyncPlan};
use sshpal::process::{
    check_exit, format_exit_status, install_copy_command, install_finalize_command,
    install_prepare_command, install_remote_helper, reverse_tunnel_command, rsync_command,
    run_commands, shell_quote, CommandRunner, CommandSpec, RecordingRunner,
};

fn config() -> Config {
    Config {
        ssh_target: "me@example".to_string(),
        local_root: "/local".to_string(),
        remote_root: "/remote".to_string(),
        rpc_port: 12345,
        remote_bin_path: "~/.local/bin/sshpal-run".to_string(),
        sync_detection_timeout: default_sync_detection_timeout(),
        tasks: NameMap::new(),
    }
}

fn foo_plan(direction: SyncDirection) -> SyncPlan {
    SyncPlan {
        direction,
        relative_path: "foo".to_string(),
        local_path: "/local/foo".to_string(),
        remote_path: "/remote/foo".to_string(),
    }
}

#[test]
fn builds_rsync_push_command() {
    let spec = rsync_command(&config(), &foo_plan(SyncDirection::Push));
    assert_eq!(spec.program, "rsync");
    assert!(spec.args.iter().any(|a| a == "--delete"));
    assert_eq!(
        spec.args,
        vec!["-az", "--delete", "-e", "ssh", "/local/foo", "me@example:/remote/foo"]
    );
    assert_eq!(spec.cwd, None);
}

#[test]
fn builds_rsync_pull_command() {
    let spec = rsync_command(&config(), &foo_plan(SyncDirection::Pull));
    assert_eq!(spec.program, "rsync");
    assert_eq!(spec.args[4], "me@example:/remote/foo");
    assert_eq!(spec.args[5], "/local/foo");
}

#[test]
fn builds_reverse_tunnel_command() {
    let spec = reverse_tunnel_command(&config());
    assert_eq!(spec.program, "ssh");
    assert!(spec.args.iter().any(|a| a == "-R"));
    assert_eq!(
        spec.args,
        vec!["-N", "-R", "12345:127.0.0.1:12345", "me@example"]
    );
}

#[test]
fn builds_install_commands() {
    let cfg = config();
    let prep = install_prepare_command(&cfg);
    let copy = install_copy_command(&cfg, "/tmp/bin");
    let fin = install_finalize_command(&cfg);
    assert_eq!(prep.program, "ssh");
    assert_eq!(copy.program, "scp");
    assert_eq!(fin.program, "ssh");
    assert_eq!(
        prep.args,
        vec!["me@example", "mkdir -p \"$(dirname ~/'.local/bin/sshpal-run')\""]
    );
    assert_eq!(
        copy.args,
        vec!["/tmp/bin", "me@example:/tmp/sshpal-run-12345.tmp"]
    );
    assert_eq!(
        fin.args,
        vec![
            "me@example",
            "chmod +x /tmp/sshpal-run-12345.tmp && mv /tmp/sshpal-run-12345.tmp \
             ~/'.local/bin/sshpal-run'",
        ]
    );
}

#[test]
fn command_spec_builder_sets_args_and_cwd() {
    let spec = CommandSpec::new("echo")
        .arg("hello")
        .args(vec!["world".to_string()])
        .cwd("/tmp");
    assert_eq!(spec.program, "echo");
    assert_eq!(spec.args, vec!["hello", "world"]);
    assert_eq!(spec.cwd, Some("/tmp".to_string()));
    assert_eq!(spec.clone(), spec);
}

#[test]
fn recording_runner_can_fail_on_program() {
    let mut runner = RecordingRunner::default();
    runner.fail_on("scp");
    let err = runner.run(&CommandSpec::new("scp")).unwrap_err();
    assert!(err.contains("forced failure"));
}

#[test]
fn system_runner_reports_non_zero_exit() {
    let err = check_exit("sh", Some(7)).unwrap_err();
    assert!(err.contains("failed with status 7"));
    assert_eq!(err, "command sh failed with status 7");
    assert_eq!(check_exit("sh", Some(0)), Ok(()));
    assert_eq!(
        check_exit("sh", None),
        Err("command sh failed with status signal".to_string())
    );
    assert_eq!(format_exit_status(Some(-1)), "-1");
}

fn proj_config() -> Config {
    let mut config = config();
    config.local_root = "/tmp/proj".to_string();
    config.remote_root = "/remote/proj".to_string();
    config.rpc_port = 45678;
    config
}

#[test]
fn sync_uses_rsync() {
    let config = proj_config();
    let plan =
        plan_sync(&config, "/tmp/proj", "/tmp/proj/a/b", ".", SyncDirection::Push).unwrap();
    let mut runner = RecordingRunner::default();
    runner.run(&sync_command(&config, plan, true)).unwrap();
    let specs = runner.take();
    assert_eq!(specs[0].program, "rsync");
    assert!(specs[0].args[4].ends_with("/proj/a/b/"));
}

#[test]
fn pull_uses_rsync() {
    let config = proj_config();
    let plan =
        plan_sync(&config, "/tmp/proj", "/tmp/proj/a/b", ".", SyncDirection::Pull).unwrap();
    let mut runner = RecordingRunner::default();
    runner.run(&sync_command(&config, plan, true)).unwrap();
    let specs = runner.take();
    assert_eq!(specs[0].program, "rsync");
    assert!(specs[0].args[4].contains("me@example:/remote/proj/a/b/"));
    let file = plan_sync(&config, "/tmp/proj", "/tmp/proj", "x", SyncDirection::Pull).unwrap();
    assert_eq!(sync_command(&config, file, false).args[5], "/tmp/proj/x");
}

#[test]
fn install_remote_helper_runs_expected_command_sequence() {
    let mut runner = RecordingRunner::default();
    let artifact = format!("/tmp/{}", helper_file_name(17));
    install_remote_helper(&mut runner, &proj_config(), &artifact).unwrap();

    let specs = runner.take();
    assert_eq!(specs.len(), 3);
    assert_eq!(specs[0].program, "ssh");
    assert_eq!(specs[1].program, "scp");
    assert!(specs[1].args[0].contains("sshpal-run-"));
    assert_eq!(specs[1].args[1], "me@example:/tmp/sshpal-run-45678.tmp");
    assert_eq!(specs[2].program, "ssh");
    assert_eq!(runner.take().len(), 0);
}

#[test]
fn commands_stop_at_the_first_failure() {
    let mut runner = RecordingRunner::default();
    runner.fail_on("scp");
    let error = install_remote_helper(&mut runner, &config(), "x").unwrap_err();
    assert_eq!(error, "forced failure");
    let specs = runner.take();
    assert_eq!(specs.len(), 2);
    assert_eq!(specs[1].program, "scp");
    let all = [CommandSpec::new("a"), CommandSpec::new("b")];
    assert_eq!(run_commands(&mut runner, &all), Ok(()));
    assert_eq!(runner.take(), all.to_vec());
}

#[test]
fn quotes_are_read_back_by_a_shell() {
    assert_eq!(shell_quote("plain"), "'plain'");
    assert_eq!(shell_quote("it's"), "'it'\"'\"'s'");
    for raw in ["", "it's", "'", "a b$c`d\\e\"f\ng", "''"] {
        assert_eq!(
            shell_words::split(&shell_quote(raw)).unwrap(),
            vec![raw.to_string()]
        );
    }
}

#[test]
fn paths_that_are_not_in_the_home_directory_are_quoted_whole() {
    let mut config = config();
    config.remote_bin_path = "/opt/my tools/run".to_string();
    assert_eq!(
        install_prepare_command(&config).args[1],
        "mkdir -p \"$(dirname '/opt/my tools/run')\""
    );
}

#[test]
fn notes_name_what_is_done() {
    assert_eq!(
        install_note(&config()),
        "sshpal: installing remote helper to ~/.local/bin/sshpal-run on me@example"
    );
    assert_eq!(
        tunnel_note(&config()),
        "sshpal: reverse tunnel started for 127.0.0.1:12345"
    );
    assert_eq!(helper_file_name(1234567890123456789), "sshpal-run-1234567890123456789.tmp");
}
