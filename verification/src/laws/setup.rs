//! The helper, the tunnel and the report on both machines.
use vstd::prelude::*;

use crate::cli::{helper_file_name, install_note, tunnel_note};
use crate::config::{Config, LoadedConfig};
use crate::health;
use crate::health::{
    checkhealth, local_tool_command, probe_answer, remote_probe_command, required_dirs,
    required_tools, sentinel_path, HealthFacts, HealthReport, RemoteProbe,
};
use crate::laws::sync;
use crate::name_map;
use crate::paths;
use crate::helper::HELPER_SCRIPT;
use crate::process;
use crate::process::{
    check_exit, install_copy_command, install_finalize_command, install_prepare_command,
    install_remote_helper, reverse_tunnel_command, run_commands, shell_quote,
    CommandRunner, CommandSpec,
};
use crate::rpc::remote_helper_script;
use crate::tasks;
use crate::text;
use crate::text::{decimal_text, replace_all, signed_decimal_text};

verus! {

// ---- the health report ----

/// Whether `name` is one of `list`.
pub open spec fn lists(list: Seq<String>, name: Seq<char>) -> bool {
    exists|i: int| 0 <= i < list.len() && (#[trigger] list[i])@ == name
}

/// A list holds a text just if its texts contain it.
pub proof fn lemma_lists(list: Seq<String>, name: Seq<char>)
    ensures
        lists(list, name) == text::texts(list).contains(name),
{
    let all = text::texts(list);
    if all.contains(name) {
        let at = all.index_of(name);
        assert(list[at]@ == name);
    }
    if lists(list, name) {
        let at = choose|i: int| 0 <= i < list.len() && (#[trigger] list[i])@ == name;
        assert(all[at] == name);
    }
}

/// Whether `dir` is the directory of a task: the local root where the task names none, and
/// otherwise what the task names, seen from the local root.
pub open spec fn is_task_dir(
    dir: Seq<char>,
    local_root: Seq<char>,
    cwd: Option<String>,
) -> bool {
    match cwd {
        None => dir == local_root,
        Some(cwd) => if local_root.len() == 0 || cwd@.len() > 0 && cwd@[0] == '/' {
            dir == cwd@
        } else {
            sync::stands_below(dir, local_root, cwd@)
        },
    }
}

/// The working directory of a task is its directory.
pub proof fn lemma_task_dir(local_root: Seq<char>, task: crate::config::Task, dir: Seq<char>)
    ensures
        dir == tasks::working_dir(local_root, task) <==> is_task_dir(dir, local_root, task.cwd),
{
    assert(local_root + paths::slash() =~= local_root.push('/'));
}

/// The report is sound just if nothing is missing on either machine: the local root and the
/// directory of every task are there, `ssh`, `scp` and `rsync` are installed, the port can be
/// used, and the remote machine has what the helper needs. Each single fault spoils it.
pub proof fn lemma_sound_setup(loaded: LoadedConfig, facts: HealthFacts, report: HealthReport)
    requires
        call_ensures(checkhealth, (&loaded, &facts), report),
    ensures
        report.ok <==> {
            &&& lists(facts.dirs@, loaded.config.local_root@)
            &&& lists(facts.tools@, "ssh"@)
            &&& lists(facts.tools@, "scp"@)
            &&& lists(facts.tools@, "rsync"@)
            &&& facts.port_error is None
            &&& facts.remote == RemoteProbe::Ready
            &&& forall|name: Seq<char>, dir: Seq<char>|
                loaded.config.tasks@.contains_key(name) && #[trigger] is_task_dir(
                    dir,
                    loaded.config.local_root@,
                    loaded.config.tasks@[name].cwd,
                ) ==> lists(facts.dirs@, dir)
        },
        report.ok ==> facts.remote is Ready,
        facts.remote is Missing ==> !report.ok,
        facts.remote is Failed ==> !report.ok,
        facts.port_error is Some ==> !report.ok,
{
    let config = loaded.config;
    let keys = config.tasks.keys();
    let dirs = text::texts(facts.dirs@);
    let tools = text::texts(facts.tools@);
    let names = health::tool_names();
    lemma_lists(facts.dirs@, config.local_root@);
    lemma_lists(facts.tools@, "ssh"@);
    lemma_lists(facts.tools@, "scp"@);
    lemma_lists(facts.tools@, "rsync"@);
    name_map::lemma_keys(config.tasks);
    assert(names[0] == "ssh"@ && names[1] == "scp"@ && names[2] == "rsync"@);
    if report.ok {
        assert forall|name: Seq<char>, dir: Seq<char>|
            config.tasks@.contains_key(name) && #[trigger] is_task_dir(
                dir,
                config.local_root@,
                config.tasks@[name].cwd,
            ) implies lists(facts.dirs@, dir) by {
            lemma_task_dir(config.local_root@, config.tasks@[name], dir);
            assert(keys.contains(name));
            let at = keys.index_of(name);
            assert(keys[at] == name);
            lemma_lists(facts.dirs@, dir);
        }
    }
    let all_dirs = forall|name: Seq<char>, dir: Seq<char>|
        config.tasks@.contains_key(name) && #[trigger] is_task_dir(
            dir,
            config.local_root@,
            config.tasks@[name].cwd,
        ) ==> lists(facts.dirs@, dir);
    if all_dirs {
        assert forall|i: int| 0 <= i < keys.len() implies dirs.contains(
            tasks::working_dir(config.local_root@, config.tasks@[#[trigger] keys[i]]),
        ) by {
            let dir = tasks::working_dir(config.local_root@, config.tasks@[keys[i]]);
            lemma_task_dir(config.local_root@, config.tasks@[keys[i]], dir);
            assert(keys.contains(keys[i]));
            lemma_lists(facts.dirs@, dir);
            assert(lists(facts.dirs@, dir));
        }
    }
}

/// What the lines of the report are about, in order.
pub open spec fn subjects(loaded: LoadedConfig) -> Seq<Seq<char>> {
    seq![
        "config"@,
        "project root"@,
        "local_root"@,
        "local tool `ssh`"@,
        "local tool `scp`"@,
        "local tool `rsync`"@,
        "rpc port "@ + text::decimal(loaded.config.rpc_port as nat),
    ] + Seq::new(
        loaded.config.tasks.keys().len(),
        |i: int| "task `"@ + loaded.config.tasks.keys()[i] + "` cwd"@,
    ) + seq!["remote ssh/prereqs"@]
}

/// Whether a line says of its subject that it fails.
pub open spec fn says_fail(line: Seq<char>, subject: Seq<char>) -> bool {
    (subject + ": fail ("@).is_prefix_of(line)
}

/// Whether a line says of its subject that it is sound.
pub open spec fn says_ok(line: Seq<char>, subject: Seq<char>) -> bool {
    (subject + ": ok"@).is_prefix_of(line)
}

proof fn lemma_prefix(front: Seq<char>, back: Seq<char>)
    ensures
        front.is_prefix_of(front + back),
{
    assert((front + back).subrange(0, front.len() as int) =~= front);
}

/// A line cannot say both.
proof fn lemma_one_verdict(line: Seq<char>, subject: Seq<char>)
    ensures
        !(says_ok(line, subject) && says_fail(line, subject)),
{
    reveal_strlit(": fail (");
    reveal_strlit(": ok");
    if says_ok(line, subject) && says_fail(line, subject) {
        let at = subject.len() as int + 2;
        let ok = subject + ": ok"@;
        let fail = subject + ": fail ("@;
        assert(ok[at] == 'o');
        assert(fail[at] == 'f');
        assert(line.subrange(0, ok.len() as int)[at] == line[at]);
        assert(line.subrange(0, fail.len() as int)[at] == line[at]);
    }
}

proof fn lemma_dir_verdict(what: Seq<char>, path: Seq<char>, present: bool)
    ensures
        says_ok(health::dir_line(what, path, present), what) == present,
        says_fail(health::dir_line(what, path, present), what) == !present,
{
    let line = health::dir_line(what, path, present);
    reveal_strlit(": fail (");
    reveal_strlit(": ok (");
    reveal_strlit(": ok");
    assert(": ok ("@ =~= ": ok"@ + " ("@) by {
        reveal_strlit(" (");
    }
    if present {
        assert(line =~= (what + ": ok"@) + (" ("@ + path + ")"@));
        lemma_prefix(what + ": ok"@, " ("@ + path + ")"@);
    } else {
        assert(line =~= (what + ": fail ("@) + (path
            + ") does not exist or is not a directory"@));
        lemma_prefix(what + ": fail ("@, path + ") does not exist or is not a directory"@);
    }
    lemma_one_verdict(line, what);
}

proof fn lemma_tool_verdict(tool: Seq<char>, subject: Seq<char>, found: bool)
    requires
        subject == "local tool `"@ + tool + "`"@,
    ensures
        says_ok(health::tool_line(tool, found), subject) == found,
        says_fail(health::tool_line(tool, found), subject) == !found,
{
    let line = health::tool_line(tool, found);
    reveal_strlit("`");
    reveal_strlit("`: ok");
    reveal_strlit(": ok");
    reveal_strlit("`: fail (not found in PATH)");
    reveal_strlit(": fail (");
    reveal_strlit("not found in PATH)");
    if found {
        assert(line =~= (subject + ": ok"@) + Seq::<char>::empty());
        lemma_prefix(subject + ": ok"@, Seq::empty());
    } else {
        assert(line =~= (subject + ": fail ("@) + "not found in PATH)"@);
        lemma_prefix(subject + ": fail ("@, "not found in PATH)"@);
    }
    lemma_one_verdict(line, subject);
}

proof fn lemma_port_verdict(port: u16, error: Option<Seq<char>>)
    ensures
        ({
            let subject = "rpc port "@ + text::decimal(port as nat);
            &&& says_ok(health::port_line(port, error), subject) == (error is None)
            &&& says_fail(health::port_line(port, error), subject) == (error is Some)
        }),
{
    let line = health::port_line(port, error);
    let subject = "rpc port "@ + text::decimal(port as nat);
    reveal_strlit(": ok (available)");
    reveal_strlit(" (available)");
    reveal_strlit(": ok");
    match error {
        None => {
            assert(line =~= (subject + ": ok"@) + " (available)"@);
            lemma_prefix(subject + ": ok"@, " (available)"@);
        },
        Some(error) => {
            assert(line =~= (subject + ": fail ("@) + (error + ")"@));
            lemma_prefix(subject + ": fail ("@, error + ")"@);
        },
    }
    lemma_one_verdict(line, subject);
}

proof fn lemma_remote_verdict(target: Seq<char>, probe: RemoteProbe)
    ensures
        says_ok(health::remote_line(target, probe), "remote ssh/prereqs"@) == (probe is Ready),
        says_fail(health::remote_line(target, probe), "remote ssh/prereqs"@) == !(probe is Ready),
{
    let line = health::remote_line(target, probe);
    let subject = "remote ssh/prereqs"@;
    reveal_strlit("remote ssh/prereqs");
    reveal_strlit("remote ssh/prereqs: ok (");
    reveal_strlit("remote ssh/prereqs: fail (");
    reveal_strlit(": ok");
    reveal_strlit(" (");
    reveal_strlit(": fail (");
    assert("remote ssh/prereqs: ok ("@ =~= subject + ": ok"@ + " ("@);
    assert("remote ssh/prereqs: fail ("@ =~= subject + ": fail ("@);
    match probe {
        RemoteProbe::Ready => {
            assert(line =~= (subject + ": ok"@) + (" ("@ + target + ")"@));
            lemma_prefix(subject + ": ok"@, " ("@ + target + ")"@);
        },
        RemoteProbe::Missing => {
            let rest = target + ") missing `/bin/sh`, `curl`, or `jq`"@;
            assert(line =~= (subject + ": fail ("@) + rest);
            lemma_prefix(subject + ": fail ("@, rest);
        },
        RemoteProbe::Failed { message } => {
            let rest = target + ") "@ + message@;
            assert(line =~= (subject + ": fail ("@) + rest);
            lemma_prefix(subject + ": fail ("@, rest);
        },
    }
    lemma_one_verdict(line, subject);
}

/// Whether the line on each subject says just that it is sound or that it fails, and says
/// it of what was seen.
pub open spec fn says_what_was_seen(
    lines: Seq<Seq<char>>,
    loaded: LoadedConfig,
    facts: HealthFacts,
) -> bool {
    let about = subjects(loaded);
    let keys = loaded.config.tasks.keys();
    &&& lines.len() == about.len()
    &&& forall|i: int|
        0 <= i < lines.len() ==> says_ok(#[trigger] lines[i], about[i]) == !says_fail(
            lines[i],
            about[i],
        )
    &&& says_ok(lines[0], about[0])
    &&& says_ok(lines[1], about[1])
    &&& says_ok(lines[2], about[2]) == lists(facts.dirs@, loaded.config.local_root@)
    &&& says_ok(lines[3], about[3]) == lists(facts.tools@, "ssh"@)
    &&& says_ok(lines[4], about[4]) == lists(facts.tools@, "scp"@)
    &&& says_ok(lines[5], about[5]) == lists(facts.tools@, "rsync"@)
    &&& says_ok(lines[6], about[6]) == (facts.port_error is None)
    &&& forall|i: int, dir: Seq<char>|
        0 <= i < keys.len() && #[trigger] is_task_dir(
            dir,
            loaded.config.local_root@,
            loaded.config.tasks@[#[trigger] keys[i]].cwd,
        ) ==> says_ok(lines[7 + i], about[7 + i]) == lists(facts.dirs@, dir)
    &&& says_ok(lines[7 + keys.len() as int], about[7 + keys.len() as int]) == (
    facts.remote is Ready)
}

/// The report has one line for each subject, in order, which says of what was seen whether it
/// is sound or fails. It is ok just if none of its lines reports a failure.
pub proof fn lemma_report_and_lines_agree(
    loaded: LoadedConfig,
    facts: HealthFacts,
    report: HealthReport,
)
    requires
        call_ensures(checkhealth, (&loaded, &facts), report),
    ensures
        exists|lines: Seq<Seq<char>>|
            {
                &&& report.text@ == #[trigger] text::joined(lines, "\n"@)
                &&& says_what_was_seen(lines, loaded, facts)
                &&& report.ok <==> forall|i: int|
                    0 <= i < lines.len() ==> !says_fail(#[trigger] lines[i], subjects(loaded)[i])
            },
{
    let config = loaded.config;
    let keys = config.tasks.keys();
    let about = subjects(loaded);
    let lines = health::health_lines(loaded, facts);
    let dirs = text::texts(facts.dirs@);
    let tools = text::texts(facts.tools@);
    let names = health::tool_names();
    let count = keys.len() as int;
    lemma_sound_setup(loaded, facts, report);
    lemma_lists(facts.dirs@, config.local_root@);
    lemma_lists(facts.tools@, "ssh"@);
    lemma_lists(facts.tools@, "scp"@);
    lemma_lists(facts.tools@, "rsync"@);
    assert(names[0] == "ssh"@ && names[1] == "scp"@ && names[2] == "rsync"@);
    reveal_strlit("config");
    reveal_strlit("config: ok (");
    reveal_strlit("project root");
    reveal_strlit("project root: ok (");
    reveal_strlit(": ok");
    reveal_strlit(" (");
    assert("config: ok ("@ =~= "config"@ + ": ok"@ + " ("@);
    assert("project root: ok ("@ =~= "project root"@ + ": ok"@ + " ("@);
    assert(lines[0] =~= ("config"@ + ": ok"@) + (" ("@ + loaded.path@ + ")"@));
    lemma_prefix("config"@ + ": ok"@, " ("@ + loaded.path@ + ")"@);
    lemma_one_verdict(lines[0], about[0]);
    assert(lines[1] =~= ("project root"@ + ": ok"@) + (" ("@ + loaded.project_root@ + ")"@));
    lemma_prefix("project root"@ + ": ok"@, " ("@ + loaded.project_root@ + ")"@);
    lemma_one_verdict(lines[1], about[1]);
    lemma_dir_verdict("local_root"@, config.local_root@, dirs.contains(config.local_root@));
    assert(lines[3] == health::tool_line("ssh"@, tools.contains("ssh"@)));
    assert(lines[4] == health::tool_line("scp"@, tools.contains("scp"@)));
    assert(lines[5] == health::tool_line("rsync"@, tools.contains("rsync"@)));
    assert(about[3] =~= "local tool `"@ + "ssh"@ + "`"@) by {
        reveal_strlit("local tool `ssh`");
        reveal_strlit("local tool `");
        reveal_strlit("ssh");
        reveal_strlit("`");
    }
    assert(about[4] =~= "local tool `"@ + "scp"@ + "`"@) by {
        reveal_strlit("local tool `scp`");
        reveal_strlit("local tool `");
        reveal_strlit("scp");
        reveal_strlit("`");
    }
    assert(about[5] =~= "local tool `"@ + "rsync"@ + "`"@) by {
        reveal_strlit("local tool `rsync`");
        reveal_strlit("local tool `");
        reveal_strlit("rsync");
        reveal_strlit("`");
    }
    lemma_tool_verdict("ssh"@, about[3], tools.contains("ssh"@));
    lemma_tool_verdict("scp"@, about[4], tools.contains("scp"@));
    lemma_tool_verdict("rsync"@, about[5], tools.contains("rsync"@));
    assert(lines[6] == health::port_line(config.rpc_port, text::maybe_text(facts.port_error)));
    lemma_port_verdict(config.rpc_port, text::maybe_text(facts.port_error));
    assert forall|i: int| 0 <= i < count implies {
        let dir = tasks::working_dir(config.local_root@, config.tasks@[#[trigger] keys[i]]);
        &&& about[7 + i] == "task `"@ + keys[i] + "` cwd"@
        &&& says_ok(lines[7 + i], about[7 + i]) == dirs.contains(dir)
        &&& says_fail(lines[7 + i], about[7 + i]) == !dirs.contains(dir)
    } by {
        let dir = tasks::working_dir(config.local_root@, config.tasks@[keys[i]]);
        assert(lines[7 + i] == health::task_dir_line(loaded, dirs, keys[i]));
        assert(about[7 + i] == "task `"@ + keys[i] + "` cwd"@);
        lemma_dir_verdict("task `"@ + keys[i] + "` cwd"@, dir, dirs.contains(dir));
    }
    assert(lines[7 + count] == health::remote_line(config.ssh_target@, facts.remote));
    assert(about[7 + count] == "remote ssh/prereqs"@);
    lemma_remote_verdict(config.ssh_target@, facts.remote);
    assert(lines.len() == 8 + count);
    assert forall|i: int| 0 <= i < lines.len() implies says_ok(#[trigger] lines[i], about[i])
        == !says_fail(lines[i], about[i]) by {
        if 7 <= i < 7 + count {
            assert(keys[i - 7] == keys[i - 7]);
        } else if i == 7 + count {
        }
    }
    assert forall|i: int, dir: Seq<char>|
        0 <= i < count && #[trigger] is_task_dir(
            dir,
            config.local_root@,
            config.tasks@[#[trigger] keys[i]].cwd,
        ) implies says_ok(lines[7 + i], about[7 + i]) == lists(facts.dirs@, dir) by {
        lemma_task_dir(config.local_root@, config.tasks@[keys[i]], dir);
        lemma_lists(facts.dirs@, dir);
    }
    assert(says_what_was_seen(lines, loaded, facts));
    let faultless = forall|i: int|
        0 <= i < lines.len() ==> !says_fail(#[trigger] lines[i], about[i]);
    if faultless {
        assert(!says_fail(lines[2], about[2]));
        assert(!says_fail(lines[3], about[3]));
        assert(!says_fail(lines[4], about[4]));
        assert(!says_fail(lines[5], about[5]));
        assert(!says_fail(lines[6], about[6]));
        assert(!says_fail(lines[7 + count], about[7 + count]));
        assert forall|i: int| 0 <= i < count implies dirs.contains(
            tasks::working_dir(config.local_root@, config.tasks@[#[trigger] keys[i]]),
        ) by {
            assert(!says_fail(lines[7 + i], about[7 + i]));
        }
        assert forall|i: int| 0 <= i < names.len() implies tools.contains(
            #[trigger] names[i],
        ) by {
        }
        assert(health::is_healthy(loaded, facts));
    }
    if report.ok {
        assert forall|i: int| 0 <= i < lines.len() implies !says_fail(
            #[trigger] lines[i],
            about[i],
        ) by {
            if 7 <= i < 7 + count {
                assert(dirs.contains(
                    tasks::working_dir(config.local_root@, config.tasks@[keys[i - 7]]),
                ));
            }
        }
    }
    assert(report.text@ == text::joined(lines, "\n"@));
}

/// What is said of a directory that has to be there.
pub open spec fn told_of_dir(what: Seq<char>, dir: Seq<char>, present: bool) -> Seq<char> {
    if present {
        what + ": ok ("@ + dir + ")"@
    } else {
        what + ": fail ("@ + dir + ") does not exist or is not a directory"@
    }
}

/// What is said of a tool that has to be there.
pub open spec fn told_of_tool(tools: Seq<String>, name: Seq<char>) -> Seq<char> {
    if lists(tools, name) {
        "local tool `"@ + name + "`: ok"@
    } else {
        "local tool `"@ + name + "`: fail (not found in PATH)"@
    }
}

/// The report names the file, the directories, the tools, the port and the remote machine that
/// it is about, and why one of them fails.
pub proof fn lemma_report_names_everything(
    loaded: LoadedConfig,
    facts: HealthFacts,
    port: String,
    report: HealthReport,
)
    requires
        call_ensures(checkhealth, (&loaded, &facts), report),
        call_ensures(decimal_text, (loaded.config.rpc_port as u128,), port),
    ensures
        exists|lines: Seq<Seq<char>>|
            {
                let keys = loaded.config.tasks.keys();
                let root = loaded.config.local_root@;
                let target = loaded.config.ssh_target@;
                &&& report.text@ == #[trigger] text::joined(lines, "\n"@)
                &&& lines.len() == keys.len() + 8
                &&& lines[0] == "config: ok ("@ + loaded.path@ + ")"@
                &&& lines[1] == "project root: ok ("@ + loaded.project_root@ + ")"@
                &&& lines[2] == told_of_dir("local_root"@, root, lists(facts.dirs@, root))
                &&& lines[3] == told_of_tool(facts.tools@, "ssh"@)
                &&& lines[4] == told_of_tool(facts.tools@, "scp"@)
                &&& lines[5] == told_of_tool(facts.tools@, "rsync"@)
                &&& lines[6] == "rpc port "@ + port@ + match facts.port_error {
                    None => ": ok (available)"@,
                    Some(error) => ": fail ("@ + error@ + ")"@,
                }
                &&& forall|i: int, dir: Seq<char>|
                    0 <= i < keys.len() && #[trigger] is_task_dir(
                        dir,
                        root,
                        loaded.config.tasks@[#[trigger] keys[i]].cwd,
                    ) ==> lines[7 + i] == told_of_dir(
                        "task `"@ + keys[i] + "` cwd"@,
                        dir,
                        lists(facts.dirs@, dir),
                    )
                &&& lines[7 + keys.len() as int] == match facts.remote {
                    RemoteProbe::Ready => "remote ssh/prereqs: ok ("@ + target + ")"@,
                    RemoteProbe::Missing => "remote ssh/prereqs: fail ("@ + target
                        + ") missing `/bin/sh`, `curl`, or `jq`"@,
                    RemoteProbe::Failed { message } => "remote ssh/prereqs: fail ("@ + target
                        + ") "@ + message@,
                }
            },
{
    let config = loaded.config;
    let keys = config.tasks.keys();
    let lines = health::health_lines(loaded, facts);
    let dirs = text::texts(facts.dirs@);
    let tools = text::texts(facts.tools@);
    let names = health::tool_names();
    lemma_lists(facts.dirs@, config.local_root@);
    lemma_lists(facts.tools@, "ssh"@);
    lemma_lists(facts.tools@, "scp"@);
    lemma_lists(facts.tools@, "rsync"@);
    assert(names[0] == "ssh"@ && names[1] == "scp"@ && names[2] == "rsync"@);
    assert(lines[3] == health::tool_line(names[0], tools.contains(names[0])));
    assert(lines[4] == health::tool_line(names[1], tools.contains(names[1])));
    assert(lines[5] == health::tool_line(names[2], tools.contains(names[2])));
    assert(lines[6] == health::port_line(config.rpc_port, text::maybe_text(facts.port_error)));
    assert forall|i: int, dir: Seq<char>|
        0 <= i < keys.len() && #[trigger] is_task_dir(
            dir,
            config.local_root@,
            config.tasks@[#[trigger] keys[i]].cwd,
        ) implies lines[7 + i] == told_of_dir(
        "task `"@ + keys[i] + "` cwd"@,
        dir,
        lists(facts.dirs@, dir),
    ) by {
        lemma_task_dir(config.local_root@, config.tasks@[keys[i]], dir);
        lemma_lists(facts.dirs@, dir);
        assert(lines[7 + i] == health::task_dir_line(loaded, dirs, keys[i]));
    }
    assert(lines[7 + keys.len() as int] == health::remote_line(config.ssh_target@, facts.remote));
    assert(report.text@ == text::joined(lines, "\n"@));
}

/// What has to be there is what the report asks for: where all the directories and tools in
/// question are found, the port can be used and the remote machine is ready, it is ok.
pub proof fn lemma_requirements_suffice(
    loaded: LoadedConfig,
    dirs: Vec<String>,
    tools: Vec<String>,
    facts: HealthFacts,
    report: HealthReport,
)
    requires
        call_ensures(required_dirs, (&loaded,), dirs),
        call_ensures(required_tools, (), tools),
        call_ensures(checkhealth, (&loaded, &facts), report),
        facts.port_error is None,
        facts.remote is Ready,
    ensures
        report.ok <==> {
            &&& forall|i: int| 0 <= i < dirs@.len() ==> lists(facts.dirs@, (#[trigger] dirs@[i])@)
            &&& forall|i: int|
                0 <= i < tools@.len() ==> lists(facts.tools@, (#[trigger] tools@[i])@)
        },
        lists(dirs@, loaded.config.local_root@),
        forall|name: Seq<char>, dir: Seq<char>|
            loaded.config.tasks@.contains_key(name) && #[trigger] is_task_dir(
                dir,
                loaded.config.local_root@,
                loaded.config.tasks@[name].cwd,
            ) ==> lists(dirs@, dir),
{
    let config = loaded.config;
    let keys = config.tasks.keys();
    let seen = text::texts(facts.dirs@);
    let found = text::texts(facts.tools@);
    let all = text::texts(dirs@);
    let names = health::tool_names();
    let cwds = health::task_dirs(config.local_root@, keys, config.tasks@);
    lemma_sound_setup(loaded, facts, report);
    name_map::lemma_keys(config.tasks);
    assert(text::texts(tools@) == names);
    assert forall|i: int| 0 <= i < tools@.len() implies (#[trigger] tools@[i])@ == names[i] by {
        assert(text::texts(tools@)[i] == tools@[i]@);
    }
    assert(all == seq![config.local_root@] + cwds);
    assert(all.len() == dirs@.len());
    assert(all[0] == config.local_root@);
    assert(dirs@[0]@ == all[0]);
    assert forall|name: Seq<char>, dir: Seq<char>|
        config.tasks@.contains_key(name) && #[trigger] is_task_dir(
            dir,
            config.local_root@,
            config.tasks@[name].cwd,
        ) implies lists(dirs@, dir) by {
        lemma_task_dir(config.local_root@, config.tasks@[name], dir);
        assert(keys.contains(name));
        let at = keys.index_of(name);
        assert(all[at + 1] == cwds[at]);
        assert(dirs@[at + 1]@ == all[at + 1]);
    }
    let complete = {
        &&& forall|i: int| 0 <= i < dirs@.len() ==> lists(facts.dirs@, (#[trigger] dirs@[i])@)
        &&& forall|i: int| 0 <= i < tools@.len() ==> lists(facts.tools@, (#[trigger] tools@[i])@)
    };
    if complete {
        assert(lists(facts.dirs@, dirs@[0]@));
        assert(lists(facts.tools@, tools@[0]@));
        assert(lists(facts.tools@, tools@[1]@));
        assert(lists(facts.tools@, tools@[2]@));
        assert forall|name: Seq<char>, dir: Seq<char>|
            config.tasks@.contains_key(name) && #[trigger] is_task_dir(
                dir,
                config.local_root@,
                config.tasks@[name].cwd,
            ) implies lists(facts.dirs@, dir) by {
            assert(lists(dirs@, dir));
            let at = choose|i: int| 0 <= i < dirs@.len() && (#[trigger] dirs@[i])@ == dir;
            assert(lists(facts.dirs@, dirs@[at]@));
        }
    }
    if report.ok {
        assert forall|i: int| 0 <= i < dirs@.len() implies lists(
            facts.dirs@,
            (#[trigger] dirs@[i])@,
        ) by {
            assert(all[i] == dirs@[i]@);
            if i > 0 {
                let name = keys[i - 1];
                assert(keys.contains(name));
                assert(all[i] == cwds[i - 1]);
                lemma_task_dir(config.local_root@, config.tasks@[name], dirs@[i]@);
                assert(is_task_dir(dirs@[i]@, config.local_root@, config.tasks@[name].cwd));
            }
        }
    }
}

/// The remote machine is ready just if the question was answered with success.
pub proof fn lemma_probe(code: Option<i32>, probe: RemoteProbe)
    requires
        call_ensures(probe_answer, (code,), probe),
    ensures
        probe is Ready <==> code == Some(0i32),
        probe is Missing <==> code != Some(0i32),
{
}

/// The remote machine is asked, without a password and not for long, for a shell, `curl` and
/// `jq`.
pub proof fn lemma_probe_command(target: &str, spec: CommandSpec)
    requires
        call_ensures(remote_probe_command, (target,), spec),
    ensures
        spec.program@ == "ssh"@,
        spec.cwd is None,
        spec.args@.len() == 6,
        spec.args@[0]@ == "-o"@,
        spec.args@[1]@ == "BatchMode=yes"@,
        spec.args@[2]@ == "-o"@,
        spec.args@[3]@ == "ConnectTimeout=5"@,
        spec.args@[4]@ == target@,
        spec.args@[5]@
            == "sh -lc '[ -x /bin/sh ] && command -v curl >/dev/null 2>&1 && command -v jq >/dev/null 2>&1'"@,
{
    sync::lemma_args(spec);
}

/// A local tool is looked for by its name, whatever characters it holds.
pub proof fn lemma_tool_command(name: &str, word: String, spec: CommandSpec)
    requires
        call_ensures(local_tool_command, (name,), spec),
        call_ensures(shell_quote, (name,), word),
    ensures
        spec.program@ == "sh"@,
        spec.cwd is None,
        spec.args@.len() == 2,
        spec.args@[0]@ == "-lc"@,
        spec.args@[1]@ == "command -v "@ + word@ + " >/dev/null 2>&1"@,
{
    sync::lemma_args(spec);
}

/// A quoted word reaches the program behind a shell as it was.
pub proof fn lemma_quote(raw: &str, word: String)
    requires
        call_ensures(shell_quote, (raw,), word),
    ensures
        process::quotes_removed(word@, process::QuoteState::Bare) == Some(raw@),
{
    process::lemma_quoted_is_read_back(raw@);
}

/// The file that shows the token stands in the directory `.sshpal` of the local root.
pub proof fn lemma_sentinel(local_root: &str, path: String)
    requires
        call_ensures(sentinel_path, (local_root,), path),
        local_root@.len() > 0,
    ensures
        path@ == sync::with_slash(local_root@) + ".sshpal/sync-token"@,
{
    reveal_strlit(".sshpal");
    reveal_strlit("sync-token");
    reveal_strlit(".sshpal/sync-token");
    let dir = sync::with_slash(local_root@) + ".sshpal"@;
    assert(local_root@ + paths::slash() =~= local_root@.push('/'));
    assert(paths::path_joined(local_root@, ".sshpal"@) == dir);
    assert(dir.last() == 'l');
    assert(".sshpal/sync-token"@ =~= ".sshpal"@ + paths::slash() + "sync-token"@);
    assert(dir + paths::slash() + "sync-token"@ =~= sync::with_slash(local_root@) + (".sshpal"@
        + paths::slash() + "sync-token"@));
}

// ---- the tunnel and the helper ----

/// The tunnel leads from the port on the remote machine to the same port of the local server,
/// and runs nothing else.
pub proof fn lemma_tunnel(config: Config, port: String, spec: CommandSpec)
    requires
        call_ensures(reverse_tunnel_command, (&config,), spec),
        call_ensures(decimal_text, (config.rpc_port as u128,), port),
    ensures
        spec.program@ == "ssh"@,
        spec.cwd is None,
        spec.args@.len() == 4,
        spec.args@[0]@ == "-N"@,
        spec.args@[1]@ == "-R"@,
        spec.args@[2]@ == port@ + ":127.0.0.1:"@ + port@,
        spec.args@[3]@ == config.ssh_target@,
{
    sync::lemma_args(spec);
}

/// Whether `word` is `path` for a remote shell: quoted, but for a leading `~/`, which the
/// shell has to expand.
pub open spec fn shell_reads(word: Seq<char>, path: Seq<char>) -> bool {
    if path.len() >= 2 && path[0] == '~' && path[1] == '/' {
        &&& word.len() >= 2
        &&& word[0] == '~'
        &&& word[1] == '/'
        &&& process::quotes_removed(word.skip(2), process::QuoteState::Bare) == Some(path.skip(2))
    } else {
        process::quotes_removed(word, process::QuoteState::Bare) == Some(path)
    }
}

/// The helper is installed on the configured machine, at the configured path: first the
/// directory of that path is made, then the local file is uploaded, and then just the uploaded
/// file is made executable and moved to the path.
pub proof fn lemma_helper_is_installed(
    config: Config,
    artifact: &str,
    port: String,
    prepare: CommandSpec,
    copy: CommandSpec,
    finalize: CommandSpec,
)
    requires
        call_ensures(install_prepare_command, (&config,), prepare),
        call_ensures(install_copy_command, (&config, artifact), copy),
        call_ensures(install_finalize_command, (&config,), finalize),
        call_ensures(decimal_text, (config.rpc_port as u128,), port),
    ensures
        process::install_lines(config, artifact@) == seq![prepare@, copy@, finalize@],
        prepare.program@ == "ssh"@,
        prepare.args@.len() == 2,
        prepare.args@[0]@ == config.ssh_target@,
        copy.program@ == "scp"@,
        copy.args@.len() == 2,
        copy.args@[0]@ == artifact@,
        copy.args@[1]@ == config.ssh_target@ + ":/tmp/sshpal-run-"@ + port@ + ".tmp"@,
        finalize.program@ == "ssh"@,
        finalize.args@.len() == 2,
        finalize.args@[0]@ == config.ssh_target@,
        exists|word: Seq<char>|
            {
                let upload = "/tmp/sshpal-run-"@ + port@ + ".tmp"@;
                &&& #[trigger] shell_reads(word, config.remote_bin_path@)
                &&& prepare.args@[1]@ == "mkdir -p \"$(dirname "@ + word + ")\""@
                &&& finalize.args@[1]@ == "chmod +x "@ + upload + " && mv "@ + upload + " "@ + word
            },
{
    sync::lemma_args(prepare);
    sync::lemma_args(copy);
    sync::lemma_args(finalize);
    reveal_strlit(":");
    reveal_strlit("/tmp/sshpal-run-");
    reveal_strlit(":/tmp/sshpal-run-");
    assert(":/tmp/sshpal-run-"@ =~= ":"@ + "/tmp/sshpal-run-"@);
    assert(copy.args@[1]@ =~= config.ssh_target@ + ":/tmp/sshpal-run-"@ + port@ + ".tmp"@);
    let path = config.remote_bin_path@;
    let word = process::quoted_path(path);
    if process::is_homed(path) {
        process::lemma_quoted_is_read_back(path.skip(2));
        assert(word.skip(2) =~= process::quoted(path.skip(2)));
    } else {
        process::lemma_quoted_is_read_back(path);
    }
    assert(shell_reads(word, path));
}

/// The helper reaches the server through the port: its script is filled with it wherever the
/// port is marked.
pub proof fn lemma_helper_script(
    port: u16,
    number: String,
    with: &str,
    script: String,
    filled: String,
)
    requires
        call_ensures(remote_helper_script, (port,), script),
        call_ensures(decimal_text, (port as u128,), number),
        with@ == number@,
        call_ensures(replace_all, (HELPER_SCRIPT, "__SSHPAL_RPC_PORT__", with), filled),
    ensures
        script@ == filled@,
{
}

/// Whether `later` is `earlier` and then a run of `lines` in order: all of them where it
/// succeeded, and otherwise up to the first that failed, whose failure is the result.
pub open spec fn stops_at_first_failure(
    earlier: process::History,
    later: process::History,
    lines: Seq<process::CommandLine>,
    result: Result<(), String>,
) -> bool {
    let count = later.len() - earlier.len();
    &&& 0 <= count <= lines.len()
    &&& forall|i: int| 0 <= i < earlier.len() ==> #[trigger] later[i] == earlier[i]
    &&& forall|i: int|
        0 <= i < count ==> (#[trigger] later[earlier.len() + i]).0 == lines[i]
    &&& match result {
        Ok(()) => count == lines.len() && forall|i: int|
            0 <= i < count ==> (#[trigger] later[earlier.len() + i]).1 is None,
        Err(message) => {
            &&& count > 0
            &&& later.last().1 == Some(message@)
            &&& forall|i: int|
                0 <= i < count - 1 ==> (#[trigger] later[earlier.len() + i]).1 is None
        },
    }
}

proof fn lemma_stops(
    earlier: process::History,
    later: process::History,
    lines: Seq<process::CommandLine>,
    result: Result<(), String>,
)
    requires
        process::ran_until_failure(earlier, later, lines, result),
    ensures
        stops_at_first_failure(earlier, later, lines, result),
{
    match result {
        Ok(()) => {
            assert forall|i: int| 0 <= i < lines.len() implies #[trigger] later[earlier.len() + i]
                == (lines[i], None::<Seq<char>>) by {}
        },
        Err(message) => {
            let at = choose|at: int|
                0 <= at < lines.len() && later == (earlier + process::succeeded(
                    #[trigger] lines.take(at),
                )).push((lines[at], Some(message@)));
            assert forall|i: int| 0 <= i < at implies #[trigger] later[earlier.len() + i] == (
                lines[i],
                None::<Seq<char>>,
            ) by {}
            assert(later[earlier.len() + at] == (lines[at], Some(message@)));
        },
    }
}

/// Commands are run in order, up to the first that fails, whose failure is the result.
pub proof fn lemma_commands_stop_at_the_first_failure<R: CommandRunner>(
    runner: &mut R,
    specs: &[CommandSpec],
    result: Result<(), String>,
)
    requires
        call_ensures(run_commands::<R>, (runner, specs), result),
    ensures
        stops_at_first_failure(
            old(runner).history(),
            final(runner).history(),
            Seq::new(specs@.len(), |i: int| specs@[i]@),
            result,
        ),
{
    let lines = process::command_lines(specs@);
    assert(lines =~= Seq::new(specs@.len(), |i: int| specs@[i]@));
    lemma_stops(old(runner).history(), final(runner).history(), lines, result);
}

/// The helper is installed by the three commands for it, in order, and the first of them that
/// fails ends the installation with its failure.
pub proof fn lemma_installation<R: CommandRunner>(
    runner: &mut R,
    config: Config,
    artifact: &str,
    port: String,
    prepare: CommandSpec,
    copy: CommandSpec,
    finalize: CommandSpec,
    result: Result<(), String>,
)
    requires
        call_ensures(install_remote_helper::<R>, (runner, &config, artifact), result),
        call_ensures(install_prepare_command, (&config,), prepare),
        call_ensures(install_copy_command, (&config, artifact), copy),
        call_ensures(install_finalize_command, (&config,), finalize),
    ensures
        stops_at_first_failure(
            old(runner).history(),
            final(runner).history(),
            seq![prepare@, copy@, finalize@],
            result,
        ),
{
    assert(process::install_lines(config, artifact@) =~= seq![prepare@, copy@, finalize@]);
    lemma_stops(
        old(runner).history(),
        final(runner).history(),
        process::install_lines(config, artifact@),
        result,
    );
}

/// A command succeeds with 0 alone. Its failure names the program, and the code or that a
/// signal ended it.
pub proof fn lemma_exit(
    program: &str,
    code: Option<i32>,
    number: String,
    result: Result<(), String>,
)
    requires
        call_ensures(check_exit, (program, code), result),
        code matches Some(code) ==> call_ensures(signed_decimal_text, (code,), number),
    ensures
        result is Ok <==> code == Some(0i32),
        result matches Err(message) ==> match code {
            Some(_) => message@ == "command "@ + program@ + " failed with status "@ + number@,
            None => message@ == "command "@ + program@ + " failed with status signal"@,
        },
{
    reveal_strlit(" failed with status ");
    reveal_strlit("signal");
    reveal_strlit(" failed with status signal");
    assert(" failed with status signal"@ =~= " failed with status "@ + "signal"@);
    if code is None {
        assert("command "@ + program@ + " failed with status "@ + "signal"@ =~= "command "@
            + program@ + " failed with status signal"@);
    }
}

/// A command is built word by word: it starts with its program, and each argument comes behind
/// those before it.
pub proof fn lemma_command_is_built(
    program: &str,
    start: CommandSpec,
    arg: &str,
    longer: CommandSpec,
    more: Vec<String>,
    longest: CommandSpec,
    dir: &str,
    placed: CommandSpec,
)
    requires
        call_ensures(CommandSpec::new, (program,), start),
        call_ensures(CommandSpec::arg, (start, arg), longer),
        call_ensures(CommandSpec::args, (longer, more), longest),
        call_ensures(CommandSpec::cwd, (longest, dir), placed),
    ensures
        start.program@ == program@,
        start.args@.len() == 0,
        start.cwd is None,
        longer.program@ == program@,
        longer.args@.len() == 1,
        longer.args@[0]@ == arg@,
        longest.program@ == program@,
        longest.args@.len() == 1 + more@.len(),
        longest.args@[0]@ == arg@,
        forall|i: int| 0 <= i < more@.len() ==> longest.args@[1 + i]@ == (#[trigger] more@[i])@,
        longest.cwd is None,
        placed.program@ == program@,
        placed.args@.len() == longest.args@.len(),
        forall|i: int|
            0 <= i < placed.args@.len() ==> (#[trigger] placed.args@[i])@ == longest.args@[i]@,
        placed.cwd matches Some(cwd) && cwd@ == dir@,
{
    sync::lemma_args(start);
    sync::lemma_args(longer);
    sync::lemma_args(longest);
    sync::lemma_args(placed);
    assert forall|i: int| 0 <= i < more@.len() implies longest.args@[1 + i]@ == (
    #[trigger] more@[i])@ by {
        assert(longest.args@[1 + i]@ == longest@.args[1 + i]);
        assert(text::texts(more@)[i] == more@[i]@);
    }
}

/// What is said of the helper and of the tunnel names the path, the machine and the port.
pub proof fn lemma_setup_notes(
    config: Config,
    port: String,
    install: String,
    tunnel: String,
)
    requires
        call_ensures(install_note, (&config,), install),
        call_ensures(tunnel_note, (&config,), tunnel),
        call_ensures(decimal_text, (config.rpc_port as u128,), port),
    ensures
        install@ == "sshpal: installing remote helper to "@ + config.remote_bin_path@ + " on "@
            + config.ssh_target@,
        tunnel@ == "sshpal: reverse tunnel started for 127.0.0.1:"@ + port@,
{
}

/// The file that holds the helper before it is installed is named by the time.
pub proof fn lemma_helper_file(nanos: u128, number: String, name: String)
    requires
        call_ensures(helper_file_name, (nanos,), name),
        call_ensures(decimal_text, (nanos,), number),
    ensures
        name@ == "sshpal-run-"@ + number@ + ".tmp"@,
{
}

} // verus!
