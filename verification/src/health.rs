//! The health report: what is checked, and what the report says of it.
use vstd::prelude::*;

use crate::config::{LoadedConfig, Task};
use crate::paths;
use crate::paths::join_path;
use crate::process;
use crate::process::{shell_quote, CommandSpec};
use crate::tasks;
use crate::tasks::task_cwd;
use crate::text;
use crate::text::{contains_text, decimal_text, join};

verus! {

/// What the health check found.
#[derive(Debug, Clone, PartialEq, Eq)]
pub struct HealthReport {
    /// Whether nothing is wrong.
    pub ok: bool,
    /// One line for each check.
    pub text: String,
}

/// What the remote machine answered.
#[derive(Debug, Clone, PartialEq, Eq)]
pub enum RemoteProbe {
    /// All that the helper needs is there.
    Ready,
    /// Something that the helper needs is missing.
    Missing,
    /// The question could not be asked.
    Failed { message: String },
}

/// What was seen on both machines.
#[derive(Debug, Clone, PartialEq, Eq)]
pub struct HealthFacts {
    /// Which of the paths in question are directories.
    pub dirs: Vec<String>,
    /// Which of the tools in question are installed.
    pub tools: Vec<String>,
    /// Why the port cannot be used, where it cannot.
    pub port_error: Option<String>,
    pub remote: RemoteProbe,
}

/// The tools that have to be installed on the local machine.
pub open spec fn tool_names() -> Seq<Seq<char>> {
    seq!["ssh"@, "scp"@, "rsync"@]
}

/// The tools that have to be installed on the local machine.
pub fn required_tools() -> (tools: Vec<String>)
    ensures
        text::texts(tools@) == tool_names(),
{
    let mut tools: Vec<String> = Vec::new();
    tools.push("ssh".to_owned());
    tools.push("scp".to_owned());
    tools.push("rsync".to_owned());
    assert(text::texts(tools@) =~= tool_names());
    tools
}

/// The working directories of the tasks `names`.
pub open spec fn task_dirs(
    local_root: Seq<char>,
    names: Seq<Seq<char>>,
    tasks: Map<Seq<char>, Task>,
) -> Seq<Seq<char>> {
    names.map_values(|name: Seq<char>| tasks::working_dir(local_root, tasks[name]))
}

/// The paths that have to be directories: the local root and the working directory of each
/// task.
pub fn required_dirs(loaded: &LoadedConfig) -> (dirs: Vec<String>)
    ensures
        text::texts(dirs@) == seq![loaded.config.local_root@] + task_dirs(
            loaded.config.local_root@,
            loaded.config.tasks.keys(),
            loaded.config.tasks@,
        ),
{
    let tasks = &loaded.config.tasks;
    let local_root = loaded.config.local_root.as_str();
    let ghost cwds = task_dirs(local_root@, tasks.keys(), tasks@);
    let mut dirs: Vec<String> = Vec::new();
    dirs.push(loaded.config.local_root.clone());
    let count = tasks.len();
    for index in 0..count
        invariant
            count == tasks.keys().len(),
            cwds == task_dirs(local_root@, tasks.keys(), tasks@),
            dirs@.len() == 1 + index,
            dirs@[0]@ == local_root@,
            forall|i: int| 0 < i <= index ==> (#[trigger] dirs@[i])@ == cwds[i - 1],
    {
        dirs.push(task_cwd(local_root, tasks.value_at(index)));
    }
    assert(text::texts(dirs@) =~= seq![local_root@] + cwds);
    dirs
}

/// The command that looks for the local tool `name`.
pub fn local_tool_command(name: &str) -> (spec: CommandSpec)
    ensures
        spec@ == process::command_line(
            "sh"@,
            seq!["-lc"@, "command -v "@ + process::quoted(name@) + " >/dev/null 2>&1"@],
        ),
{
    let script = "command -v ".to_owned().concat(shell_quote(name).as_str()).concat(
        " >/dev/null 2>&1",
    );
    let spec = CommandSpec::new("sh").arg("-lc").arg(script.as_str());
    assert(spec@.args =~= seq!["-lc"@, script@]);
    spec
}

/// What the remote machine is asked: whether it has what the helper needs.
pub const REMOTE_PROBE_SCRIPT: &'static str =
    "sh -lc '[ -x /bin/sh ] && command -v curl >/dev/null 2>&1 && command -v jq >/dev/null 2>&1'";

/// The command that asks the remote machine `target` whether it has what the helper needs.
pub fn remote_probe_command(target: &str) -> (spec: CommandSpec)
    ensures
        spec@ == process::command_line(
            "ssh"@,
            seq![
                "-o"@,
                "BatchMode=yes"@,
                "-o"@,
                "ConnectTimeout=5"@,
                target@,
                REMOTE_PROBE_SCRIPT@,
            ],
        ),
{
    let spec = CommandSpec::new("ssh").arg("-o").arg("BatchMode=yes").arg("-o").arg(
        "ConnectTimeout=5",
    ).arg(target).arg(REMOTE_PROBE_SCRIPT);
    assert(spec@.args =~= seq![
        "-o"@,
        "BatchMode=yes"@,
        "-o"@,
        "ConnectTimeout=5"@,
        target@,
        REMOTE_PROBE_SCRIPT@,
    ]);
    spec
}

/// What the exit code of the question to the remote machine says.
pub fn probe_answer(code: Option<i32>) -> (probe: RemoteProbe)
    ensures
        probe == (if code == Some(0i32) {
            RemoteProbe::Ready
        } else {
            RemoteProbe::Missing
        }),
{
    match code {
        Some(0) => RemoteProbe::Ready,
        _ => RemoteProbe::Missing,
    }
}

// ---- the report ----

/// The line on a path that has to be a directory.
pub open spec fn dir_line(what: Seq<char>, path: Seq<char>, present: bool) -> Seq<char> {
    if present {
        what + ": ok ("@ + path + ")"@
    } else {
        what + ": fail ("@ + path + ") does not exist or is not a directory"@
    }
}

/// The line on a local tool.
pub open spec fn tool_line(tool: Seq<char>, found: bool) -> Seq<char> {
    "local tool `"@ + tool + (if found {
        "`: ok"@
    } else {
        "`: fail (not found in PATH)"@
    })
}

/// The line on the port of the local server.
pub open spec fn port_line(port: u16, error: Option<Seq<char>>) -> Seq<char> {
    "rpc port "@ + text::decimal(port as nat) + (match error {
        None => ": ok (available)"@,
        Some(error) => ": fail ("@ + error + ")"@,
    })
}

/// The line on the remote machine.
pub open spec fn remote_line(target: Seq<char>, probe: RemoteProbe) -> Seq<char> {
    match probe {
        RemoteProbe::Ready => "remote ssh/prereqs: ok ("@ + target + ")"@,
        RemoteProbe::Missing => {
            "remote ssh/prereqs: fail ("@ + target + ") missing `/bin/sh`, `curl`, or `jq`"@
        },
        RemoteProbe::Failed { message } => {
            "remote ssh/prereqs: fail ("@ + target + ") "@ + message@
        },
    }
}

/// The line on the working directory of the task `name`.
pub open spec fn task_dir_line(
    loaded: LoadedConfig,
    dirs: Seq<Seq<char>>,
    name: Seq<char>,
) -> Seq<char> {
    let cwd = tasks::working_dir(loaded.config.local_root@, loaded.config.tasks@[name]);
    dir_line("task `"@ + name + "` cwd"@, cwd, dirs.contains(cwd))
}

/// The lines of the report.
pub open spec fn health_lines(loaded: LoadedConfig, facts: HealthFacts) -> Seq<Seq<char>> {
    let config = loaded.config;
    let dirs = text::texts(facts.dirs@);
    let tools = text::texts(facts.tools@);
    seq![
        "config: ok ("@ + loaded.path@ + ")"@,
        "project root: ok ("@ + loaded.project_root@ + ")"@,
        dir_line("local_root"@, config.local_root@, dirs.contains(config.local_root@)),
    ] + tool_names().map_values(|tool: Seq<char>| tool_line(tool, tools.contains(tool))) + seq![
        port_line(config.rpc_port, text::maybe_text(facts.port_error)),
    ] + config.tasks.keys().map_values(|name: Seq<char>| task_dir_line(loaded, dirs, name)) + seq![
        remote_line(config.ssh_target@, facts.remote),
    ]
}

/// Whether nothing is wrong.
pub open spec fn is_healthy(loaded: LoadedConfig, facts: HealthFacts) -> bool {
    let config = loaded.config;
    let dirs = text::texts(facts.dirs@);
    let tools = text::texts(facts.tools@);
    &&& dirs.contains(config.local_root@)
    &&& forall|i: int| 0 <= i < tool_names().len() ==> tools.contains(#[trigger] tool_names()[i])
    &&& facts.port_error is None
    &&& forall|i: int|
        0 <= i < config.tasks.keys().len() ==> dirs.contains(
            tasks::working_dir(
                config.local_root@,
                config.tasks@[#[trigger] config.tasks.keys()[i]],
            ),
        )
    &&& facts.remote is Ready
}

/// The line on a path that has to be a directory.
fn dir_report(what: &str, path: &str, present: bool) -> (line: String)
    ensures
        line@ == dir_line(what@, path@, present),
{
    if present {
        what.to_owned().concat(": ok (").concat(path).concat(")")
    } else {
        what.to_owned().concat(": fail (").concat(path).concat(
            ") does not exist or is not a directory",
        )
    }
}

/// The line on a local tool.
fn tool_report(tool: &str, found: bool) -> (line: String)
    ensures
        line@ == tool_line(tool@, found),
{
    "local tool `".to_owned().concat(tool).concat(
        if found {
            "`: ok"
        } else {
            "`: fail (not found in PATH)"
        },
    )
}

/// The line on the port of the local server.
fn port_report(port: u16, error: &Option<String>) -> (line: String)
    ensures
        line@ == port_line(port, text::maybe_text(*error)),
{
    let start = "rpc port ".to_owned().concat(decimal_text(port as u128).as_str());
    match error {
        None => start.concat(": ok (available)"),
        Some(error) => {
            let rest = ": fail (".to_owned().concat(error.as_str()).concat(")");
            start.concat(rest.as_str())
        },
    }
}

/// The line on the remote machine.
fn remote_report(target: &str, probe: &RemoteProbe) -> (line: String)
    ensures
        line@ == remote_line(target@, *probe),
{
    match probe {
        RemoteProbe::Ready => {
            "remote ssh/prereqs: ok (".to_owned().concat(target).concat(")")
        },
        RemoteProbe::Missing => {
            "remote ssh/prereqs: fail (".to_owned().concat(target).concat(
                ") missing `/bin/sh`, `curl`, or `jq`",
            )
        },
        RemoteProbe::Failed { message } => {
            "remote ssh/prereqs: fail (".to_owned().concat(target).concat(") ").concat(
                message.as_str(),
            )
        },
    }
}

/// The report on the setup of `loaded`, from what was seen on both machines.
pub fn checkhealth(loaded: &LoadedConfig, facts: &HealthFacts) -> (report: HealthReport)
    ensures
        report.ok == is_healthy(*loaded, *facts),
        report.text@ == text::joined(health_lines(*loaded, *facts), "\n"@),
{
    let config = &loaded.config;
    let ghost dirs = text::texts(facts.dirs@);
    let ghost found = text::texts(facts.tools@);
    let mut ok = true;
    let mut lines: Vec<String> = Vec::new();
    lines.push("config: ok (".to_owned().concat(loaded.path.as_str()).concat(")"));
    lines.push("project root: ok (".to_owned().concat(loaded.project_root.as_str()).concat(")"));

    let root_present = contains_text(facts.dirs.as_slice(), config.local_root.as_str());
    ok = ok && root_present;
    lines.push(dir_report("local_root", config.local_root.as_str(), root_present));
    let ghost head = text::texts(lines@);
    assert(head =~= seq![
        "config: ok ("@ + loaded.path@ + ")"@,
        "project root: ok ("@ + loaded.project_root@ + ")"@,
        dir_line("local_root"@, config.local_root@, dirs.contains(config.local_root@)),
    ]);

    let tools = required_tools();
    let ghost tool_rows = tool_names().map_values(
        |tool: Seq<char>| tool_line(tool, found.contains(tool)),
    );
    assert(text::texts(lines@) =~= head + tool_rows.take(0));
    for index in 0..tools.len()
        invariant
            found == text::texts(facts.tools@),
            text::texts(tools@) == tool_names(),
            tool_rows == tool_names().map_values(
                |tool: Seq<char>| tool_line(tool, found.contains(tool)),
            ),
            ok == (root_present && forall|i: int|
                0 <= i < index ==> found.contains(#[trigger] tool_names()[i])),
            text::texts(lines@) == head + tool_rows.take(index as int),
    {
        let tool = tools[index].as_str();
        assert(tool@ == tool_names()[index as int]);
        let present = contains_text(facts.tools.as_slice(), tool);
        ok = ok && present;
        let ghost held = lines@;
        let line = tool_report(tool, present);
        lines.push(line);
        proof {
            assert(text::texts(lines@) =~= text::texts(held).push(line@));
            assert(tool_rows.take(index + 1) =~= tool_rows.take(index as int).push(line@));
        }
    }
    assert(tool_rows.take(tools@.len() as int) =~= tool_rows);

    ok = ok && facts.port_error.is_none();
    lines.push(port_report(config.rpc_port, &facts.port_error));
    let so_far = ok;
    let ghost middle = text::texts(lines@);
    assert(middle =~= head + tool_rows + seq![
        port_line(config.rpc_port, text::maybe_text(facts.port_error)),
    ]);

    let tasks = &config.tasks;
    let count = tasks.len();
    let ghost keys = tasks.keys();
    let ghost task_rows = keys.map_values(|name: Seq<char>| task_dir_line(*loaded, dirs, name));
    assert(text::texts(lines@) =~= middle + task_rows.take(0));
    for index in 0..count
        invariant
            *config == loaded.config,
            *tasks == config.tasks,
            keys == tasks.keys(),
            count == keys.len(),
            dirs == text::texts(facts.dirs@),
            task_rows == keys.map_values(|name: Seq<char>| task_dir_line(*loaded, dirs, name)),
            ok == (so_far && forall|i: int|
                0 <= i < index ==> dirs.contains(
                    tasks::working_dir(config.local_root@, tasks@[#[trigger] keys[i]]),
                )),
            text::texts(lines@) == middle + task_rows.take(index as int),
    {
        let name = tasks.name_at(index);
        let cwd = task_cwd(config.local_root.as_str(), tasks.value_at(index));
        let present = contains_text(facts.dirs.as_slice(), cwd.as_str());
        ok = ok && present;
        let what = "task `".to_owned().concat(name.as_str()).concat("` cwd");
        let ghost held = lines@;
        let line = dir_report(what.as_str(), cwd.as_str(), present);
        lines.push(line);
        proof {
            assert(text::texts(lines@) =~= text::texts(held).push(line@));
            assert(task_rows.take(index + 1) =~= task_rows.take(index as int).push(line@));
        }
    }
    assert(task_rows.take(count as int) =~= task_rows);

    let remote_ok = match &facts.remote {
        RemoteProbe::Ready => true,
        _ => false,
    };
    ok = ok && remote_ok;
    let ghost held = text::texts(lines@);
    lines.push(remote_report(config.ssh_target.as_str(), &facts.remote));
    assert(text::texts(lines@) =~= held.push(remote_line(config.ssh_target@, facts.remote)));
    assert(text::texts(lines@) =~= health_lines(*loaded, *facts));
    HealthReport { ok, text: join(lines.as_slice(), "\n") }
}

/// The file through which the remote machine shows that its files have arrived.
pub open spec fn sentinel(local_root: Seq<char>) -> Seq<char> {
    paths::path_joined(paths::path_joined(local_root, ".sshpal"@), "sync-token"@)
}

/// The file through which the remote machine shows that its files have arrived.
pub fn sentinel_path(local_root: &str) -> (path: String)
    ensures
        path@ == sentinel(local_root@),
{
    join_path(join_path(local_root, ".sshpal").as_str(), "sync-token")
}

} // verus!
