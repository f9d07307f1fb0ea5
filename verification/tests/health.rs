//! The health report.
use sshpal::config::{default_sync_detection_timeout, Config, LoadedConfig, Task, TaskRun};
use sshpal::health::{
    checkhealth, local_tool_command, probe_answer, remote_probe_command, required_dirs,
    required_tools, sentinel_path, HealthFacts, RemoteProbe,
};
use sshpal::name_map::NameMap;

fn words(list: &[&str]) -> Vec<String> {
    list.iter().map(|item| item.to_string()).collect()
}

fn task(cwd: Option<&str>) -> Task {
    Task {
        run: TaskRun::String("x".to_string()),
        description: None,
        cwd: cwd.map(|text| text.to_string()),
        env: NameMap::new(),
        timeout: None,
        vars: NameMap::new(),
    }
}

fn loaded() -> LoadedConfig {
    let mut tasks = NameMap::new();
    tasks.insert("b".to_string(), task(Some("sub")));
    tasks.insert("a".to_string(), task(None));
    LoadedConfig {
        config: Config {
            ssh_target: "me@example".to_string(),
            local_root: "/l".to_string(),
            remote_root: "/r".to_string(),
            rpc_port: 12345,
            remote_bin_path: "x".to_string(),
            sync_detection_timeout: default_sync_detection_timeout(),
            tasks,
        },
        path: "/p/.sshpal.toml".to_string(),
        project_root: "/p".to_string(),
    }
}

fn good() -> HealthFacts {
    HealthFacts {
        dirs: words(&["/l", "/l/sub"]),
        tools: words(&["ssh", "scp", "rsync"]),
        port_error: None,
        remote: RemoteProbe::Ready,
    }
}

#[test]
fn a_sound_setup_is_reported_line_by_line() {
    let report = checkhealth(&loaded(), &good());
    assert!(report.ok);
    assert_eq!(
        report.text,
        "config: ok (/p/.sshpal.toml)\nproject root: ok (/p)\nlocal_root: ok (/l)\nlocal tool \
         `ssh`: ok\nlocal tool `scp`: ok\nlocal tool `rsync`: ok\nrpc port 12345: ok \
         (available)\ntask `a` cwd: ok (/l)\ntask `b` cwd: ok (/l/sub)\nremote ssh/prereqs: ok \
         (me@example)"
    );
}

#[test]
fn every_fault_is_reported() {
    let report = checkhealth(
        &loaded(),
        &HealthFacts {
            dirs: vec![],
            tools: words(&["scp"]),
            port_error: Some("address in use".to_string()),
            remote: RemoteProbe::Missing,
        },
    );
    assert!(!report.ok);
    assert_eq!(
        report.text,
        "config: ok (/p/.sshpal.toml)\nproject root: ok (/p)\nlocal_root: fail (/l) does not exist \
         or is not a directory\nlocal tool `ssh`: fail (not found in PATH)\nlocal tool `scp`: \
         ok\nlocal tool `rsync`: fail (not found in PATH)\nrpc port 12345: fail (address in \
         use)\ntask `a` cwd: fail (/l) does not exist or is not a directory\ntask `b` cwd: fail \
         (/l/sub) does not exist or is not a directory\nremote ssh/prereqs: fail (me@example) \
         missing `/bin/sh`, `curl`, or `jq`"
    );
}

#[test]
fn one_fault_is_enough() {
    let mut facts = good();
    facts.remote = RemoteProbe::Failed {
        message: "no ssh".to_string(),
    };
    let report = checkhealth(&loaded(), &facts);
    assert!(!report.ok);
    assert!(report
        .text
        .ends_with("\nremote ssh/prereqs: fail (me@example) no ssh"));
    let mut facts = good();
    facts.dirs = words(&["/l"]);
    assert!(!checkhealth(&loaded(), &facts).ok);
    let mut facts = good();
    facts.tools = words(&["ssh", "rsync"]);
    assert!(!checkhealth(&loaded(), &facts).ok);
    let mut facts = good();
    facts.port_error = Some(String::new());
    assert!(!checkhealth(&loaded(), &facts).ok);
}

#[test]
fn knows_what_to_look_for() {
    assert_eq!(required_dirs(&loaded()), words(&["/l", "/l", "/l/sub"]));
    assert_eq!(required_tools(), words(&["ssh", "scp", "rsync"]));
    let tool = local_tool_command("ssh");
    assert_eq!(tool.program, "sh");
    assert_eq!(tool.args, words(&["-lc", "command -v 'ssh' >/dev/null 2>&1"]));
    let probe = remote_probe_command("me@example");
    assert_eq!(probe.program, "ssh");
    assert_eq!(
        probe.args,
        words(&[
            "-o",
            "BatchMode=yes",
            "-o",
            "ConnectTimeout=5",
            "me@example",
            "sh -lc '[ -x /bin/sh ] && command -v curl >/dev/null 2>&1 && command -v jq >/dev/null 2>&1'",
        ])
    );
    assert_eq!(probe_answer(Some(0)), RemoteProbe::Ready);
    assert_eq!(probe_answer(Some(1)), RemoteProbe::Missing);
    assert_eq!(probe_answer(None), RemoteProbe::Missing);
    assert_eq!(sentinel_path("/work/project"), "/work/project/.sshpal/sync-token");
}
