//! Syncing: what is copied, where to, and that it stays inside the project.
use vstd::prelude::*;

use crate::cli::{plan_sync, sync_command};
use crate::config::Config;
use crate::paths;
use crate::paths::{
    build_sync_plan, is_absolute_path, join_path, parent_dir, relative_cwd,
    resolve_relative_target, PathError, SyncDirection, SyncPlan,
};
use crate::process::{rsync_command, CommandSpec};
use crate::text;

verus! {

/// Whether `spec` copies from `source` to `dest` and deletes at the destination what the
/// source does not have.
pub open spec fn mirrors(spec: CommandSpec, source: Seq<char>, dest: Seq<char>) -> bool {
    &&& spec.program@ == "rsync"@
    &&& spec.cwd is None
    &&& spec.args@.len() == 6
    &&& spec.args@[0]@ == "-az"@
    &&& spec.args@[1]@ == "--delete"@
    &&& spec.args@[2]@ == "-e"@
    &&& spec.args@[3]@ == "ssh"@
    &&& spec.args@[4]@ == source
    &&& spec.args@[5]@ == dest
}

/// Every sync is archived, compressed, over `ssh` and with deletion, whatever the paths and
/// the direction are. A push goes from the local path to the remote one, a pull the other way.
pub proof fn lemma_every_sync_deletes(config: Config, plan: SyncPlan, spec: CommandSpec)
    requires
        call_ensures(rsync_command, (&config, &plan), spec),
    ensures
        spec.program@ == "rsync"@,
        spec.args@.len() == 6,
        spec.args@[0]@ == "-az"@,
        spec.args@[1]@ == "--delete"@,
        spec.args@[2]@ == "-e"@,
        spec.args@[3]@ == "ssh"@,
        ({
            let there = config.ssh_target@ + ":"@ + plan.remote_path@;
            match plan.direction {
                SyncDirection::Push => mirrors(spec, plan.local_path@, there),
                SyncDirection::Pull => mirrors(spec, there, plan.local_path@),
            }
        }),
{
    lemma_args(spec);
}

/// The words of a command are its arguments.
pub proof fn lemma_args(spec: CommandSpec)
    ensures
        spec@.args.len() == spec.args@.len(),
        forall|i: int| 0 <= i < spec.args@.len() ==> #[trigger] spec.args@[i]@ == spec@.args[i],
{
}

/// A path with one slash at its end.
pub open spec fn with_slash(path: Seq<char>) -> Seq<char> {
    if path.len() > 0 && path.last() == '/' {
        path
    } else {
        path.push('/')
    }
}

/// A sync of a directory deletes too, as does one of a file. Both paths of a directory end in
/// one slash, so that contents go into contents; those of a file stay as they are.
pub proof fn lemma_directories_are_mirrored(
    config: Config,
    plan: SyncPlan,
    is_dir: bool,
    spec: CommandSpec,
)
    requires
        call_ensures(sync_command, (&config, plan, is_dir), spec),
    ensures
        spec.args@[1]@ == "--delete"@,
        ({
            let target = config.ssh_target@ + ":"@;
            match (plan.direction, is_dir) {
                (SyncDirection::Push, false) => mirrors(
                    spec,
                    plan.local_path@,
                    target + plan.remote_path@,
                ),
                (SyncDirection::Pull, false) => mirrors(
                    spec,
                    target + plan.remote_path@,
                    plan.local_path@,
                ),
                (SyncDirection::Push, true) => mirrors(
                    spec,
                    with_slash(plan.local_path@),
                    target + with_slash(plan.remote_path@),
                ),
                (SyncDirection::Pull, true) => mirrors(
                    spec,
                    target + with_slash(plan.remote_path@),
                    with_slash(plan.local_path@),
                ),
            }
        }),
{
    lemma_args(spec);
    assert(plan.local_path@ + paths::slash() =~= plan.local_path@.push('/'));
    assert(plan.remote_path@ + paths::slash() =~= plan.remote_path@.push('/'));
}

/// The plan for a directory is the plan, with a slash behind both paths.
pub proof fn lemma_plan_for_directory(plan: SyncPlan, whole: SyncPlan)
    requires
        call_ensures(SyncPlan::for_directory, (plan,), whole),
    ensures
        whole.direction == plan.direction,
        whole.relative_path@ == plan.relative_path@,
        whole.local_path@ == with_slash(plan.local_path@),
        whole.remote_path@ == with_slash(plan.remote_path@),
{
    assert(plan.local_path@ + paths::slash() =~= plan.local_path@.push('/'));
    assert(plan.remote_path@ + paths::slash() =~= plan.remote_path@.push('/'));
}

// ---- paths ----

/// A path is absolute just if it starts with a slash.
pub proof fn lemma_absolute(path: &str, absolute: bool)
    requires
        call_ensures(is_absolute_path, (path,), absolute),
    ensures
        absolute <==> path@.len() > 0 && path@[0] == '/',
{
}

/// The directory above an absolute path is what its names lead to without the last one; the
/// root has none above it.
pub proof fn lemma_parent(names: Seq<Seq<char>>, path: &str, parent: Option<String>)
    requires
        name_entries(names),
        path@ == seq!['/'] + text::joined(names, seq!['/']),
        call_ensures(parent_dir, (path,), parent),
    ensures
        names.len() == 0 ==> parent is None,
        names.len() > 0 ==> (parent matches Some(parent) && parent@ == seq!['/'] + text::joined(
            names.drop_last(),
            seq!['/'],
        )),
{
    lemma_absolute_components(names);
    let list = paths::components(path@);
    if names.len() > 0 {
        let last = names[names.len() - 1];
        assert(names_entry(last));
        assert(list.last() == last);
        assert(last != paths::slash()) by {
            if last == paths::slash() {
                assert(last[0] == '/');
            }
        }
        assert(list.drop_last() =~= seq![paths::slash()] + names.drop_last());
        assert(list.drop_last().drop_first() =~= names.drop_last());
    } else {
        assert(list =~= seq![paths::slash()]);
    }
}

/// Whether `joined` is `path` below the directory `base`: the base, one slash and the path.
pub open spec fn stands_below(joined: Seq<char>, base: Seq<char>, path: Seq<char>) -> bool {
    joined == with_slash(base) + path
}

/// A path seen from a directory stands below it, unless it is absolute: then it stands for
/// itself. From no directory every path stands for itself.
pub proof fn lemma_join(base: &str, path: &str, result: String)
    requires
        call_ensures(join_path, (base, path), result),
    ensures
        path@.len() > 0 && path@[0] == '/' ==> result@ == path@,
        base@.len() == 0 ==> result@ == path@,
        base@.len() > 0 && !(path@.len() > 0 && path@[0] == '/') ==> stands_below(
            result@,
            base@,
            path@,
        ),
{
    assert(base@ + paths::slash() =~= base@.push('/'));
}

/// Whether a segment of `path` that starts at `at` is `..`.
pub open spec fn goes_up_at(path: Seq<char>, at: int) -> bool {
    &&& 0 <= at
    &&& at + 2 <= path.len()
    &&& at == 0 || path[at - 1] == '/'
    &&& path[at] == '.'
    &&& path[at + 1] == '.'
    &&& at + 2 == path.len() || path[at + 2] == '/'
}

/// Whether `path` leads down only: it is relative, and no segment of it is `..`.
pub open spec fn leads_down(path: Seq<char>) -> bool {
    &&& !(path.len() > 0 && path[0] == '/')
    &&& forall|at: int| !#[trigger] goes_up_at(path, at)
}

/// Entries lead down.
proof fn lemma_entries_lead_down(list: Seq<Seq<char>>)
    requires
        paths::all_entries(list),
    ensures
        leads_down(text::joined(list, paths::slash())),
    decreases list.len(),
{
    let path = text::joined(list, paths::slash());
    paths::lemma_entries_path(list);
    if list.len() > 0 {
        let last = list[list.len() - 1];
        let short = list.drop_last();
        assert(paths::is_entry(last));
        assert forall|i: int| 0 <= i < short.len() implies paths::is_entry(#[trigger] short[i]) by {
            assert(short[i] == list[i]);
        }
        lemma_entries_lead_down(short);
        let before = text::joined(short, paths::slash());
        assert forall|at: int| !#[trigger] goes_up_at(path, at) by {
            if goes_up_at(path, at) {
                let from = if list.len() == 1 {
                    0
                } else {
                    before.len() + 1
                };
                if at >= from {
                    assert(path.skip(from as int) =~= last);
                    assert(at == from) by {
                        if at > from {
                            assert(last[at - 1 - from] == '/');
                        }
                    }
                    if at + 2 == path.len() {
                        assert(last =~= paths::dot_dot());
                    } else {
                        assert(last[2] == '/');
                    }
                    assert(false);
                } else {
                    assert(path.take(before.len() as int) =~= before);
                    assert(path[before.len() as int] == '/');
                    assert(at + 2 <= before.len());
                    if at > 0 {
                        assert(before[at - 1] == path[at - 1]);
                    }
                    assert(before[at] == path[at]);
                    assert(before[at + 1] == path[at + 1]);
                    if at + 2 < before.len() {
                        assert(before[at + 2] == path[at + 2]);
                    }
                    assert(goes_up_at(before, at));
                    assert(false);
                }
            }
        }
    }
}

/// A sync stays inside the project: both paths stand below their roots, the local one below
/// the local root and the remote one below the remote root, at the same place, which is
/// reached by going down only. An absolute path is refused.
pub proof fn lemma_sync_stays_inside(
    config: Config,
    local_root: &str,
    cwd: &str,
    path: &str,
    direction: SyncDirection,
    plan: Result<SyncPlan, PathError>,
)
    requires
        call_ensures(plan_sync, (&config, local_root, cwd, path, direction), plan),
    ensures
        match plan {
            Ok(plan) => {
                &&& plan.direction == direction
                &&& leads_down(plan.relative_path@)
                &&& config.local_root@.len() > 0 ==> stands_below(
                    plan.local_path@,
                    config.local_root@,
                    plan.relative_path@,
                )
                &&& config.remote_root@.len() > 0 ==> stands_below(
                    plan.remote_path@,
                    config.remote_root@,
                    plan.relative_path@,
                )
                &&& !(path@.len() > 0 && path@[0] == '/')
            },
            Err(_) => true,
        },
{
    if let Ok(plan) = plan {
        let relative = plan.relative_path@;
        paths::lemma_target_below_root(paths::below_root(local_root@, cwd@)->Ok_0, path@);
        lemma_entries_lead_down(paths::components(relative));
        assert(config.local_root@ + paths::slash() =~= config.local_root@.push('/'));
        assert(config.remote_root@ + paths::slash() =~= config.remote_root@.push('/'));
    }
}

/// A push and a pull of the same path, asked for in the same place, are about the same two
/// paths, and one is refused just if the other is, for the same reason.
pub proof fn lemma_push_and_pull_agree(
    config: Config,
    local_root: &str,
    cwd: &str,
    path: &str,
    push: Result<SyncPlan, PathError>,
    pull: Result<SyncPlan, PathError>,
)
    requires
        call_ensures(plan_sync, (&config, local_root, cwd, path, SyncDirection::Push), push),
        call_ensures(plan_sync, (&config, local_root, cwd, path, SyncDirection::Pull), pull),
    ensures
        match (push, pull) {
            (Ok(push), Ok(pull)) => {
                &&& push.direction is Push
                &&& pull.direction is Pull
                &&& push.local_path@ == pull.local_path@
                &&& push.remote_path@ == pull.remote_path@
            },
            (Err(push), Err(pull)) => push@ == pull@,
            _ => false,
        },
{
}

/// Whether `name` is the name of an entry of a directory.
pub open spec fn names_entry(name: Seq<char>) -> bool {
    &&& name.len() > 0
    &&& forall|i: int| 0 <= i < name.len() ==> #[trigger] name[i] != '/'
    &&& !(name.len() == 1 && name[0] == '.')
    &&& !(name.len() == 2 && name[0] == '.' && name[1] == '.')
}

/// A path, and one more name behind it.
pub open spec fn followed(path: Seq<char>, name: Seq<char>) -> Seq<char> {
    if path.len() == 0 {
        name
    } else {
        path + seq!['/'] + name
    }
}

proof fn lemma_step_of_target(cwd_rel: Seq<char>, path: Seq<char>, name: Seq<char>)
    requires
        !paths::is_absolute(cwd_rel),
        !paths::is_absolute(path),
        path.len() > 0,
        !name.contains('/'),
    ensures
        paths::target_parts(cwd_rel, path + seq!['/'] + name) == match paths::target_parts(
            cwd_rel,
            path,
        ) {
            Some(parts) => paths::step(parts, name),
            None => None,
        },
        !paths::is_absolute(path + seq!['/'] + name),
{
    paths::lemma_segments_at_slash(path, name);
    paths::lemma_segments_of_one(name);
    assert((paths::segments(path) + seq![name]).drop_last() =~= paths::segments(path));
}

proof fn lemma_joined_followed(parts: Seq<Seq<char>>, name: Seq<char>)
    requires
        paths::all_entries(parts),
    ensures
        text::joined(parts.push(name), paths::slash()) == followed(
            text::joined(parts, paths::slash()),
            name,
        ),
{
    assert(parts.push(name).drop_last() =~= parts);
    if parts.len() > 0 {
        assert(paths::is_entry(parts[0]));
        assert(paths::is_entry(parts[parts.len() - 1]));
        assert(text::joined(parts, paths::slash()).len() > 0);
    }
}

/// A path is walked name by name: after one more name the target is the entry of that name,
/// after `.` or a doubled slash it is the same, and after `..` it is what the entry stood in.
/// Above the root there is nothing, and what is refused stays refused.
pub proof fn lemma_target_is_walked(
    cwd_rel: &str,
    path: &str,
    longer: &str,
    name: Seq<char>,
    target: Result<String, PathError>,
    next: Result<String, PathError>,
)
    requires
        call_ensures(resolve_relative_target, (cwd_rel, path), target),
        call_ensures(resolve_relative_target, (cwd_rel, longer), next),
        path@.len() > 0,
        longer@ == path@ + seq!['/'] + name,
        forall|i: int| 0 <= i < name.len() ==> #[trigger] name[i] != '/',
    ensures
        match target {
            Err(_) => next is Err,
            Ok(target) => if names_entry(name) {
                next matches Ok(next) && next@ == followed(target@, name)
            } else if name.len() == 2 {
                match next {
                    Ok(next) => exists|last: Seq<char>|
                        names_entry(last) && target@ == #[trigger] followed(next@, last),
                    Err(error) => target@.len() == 0 && error is Escapes,
                }
            } else {
                next matches Ok(next) && next@ == target@
            },
        },
{
    assert(!name.contains('/'));
    if paths::is_absolute(path@) {
        assert(longer@[0] == '/');
    } else if !paths::is_absolute(cwd_rel@) {
        lemma_step_of_target(cwd_rel@, path@, name);
        assert(longer@[0] == path@[0]);
        if let Some(parts) = paths::target_parts(cwd_rel@, path@) {
            paths::lemma_segments_clean(cwd_rel@);
            paths::lemma_segments_clean(path@);
            paths::lemma_walked_entries(Seq::empty(), paths::segments(cwd_rel@));
            let middle = paths::walked(Seq::empty(), paths::segments(cwd_rel@))->0;
            paths::lemma_walked_entries(middle, paths::segments(path@));
            assert(name.len() == 1 && name[0] == '.' ==> name =~= paths::dot());
            assert(name.len() == 2 && name[0] == '.' && name[1] == '.' ==> name
                =~= paths::dot_dot());
            if names_entry(name) {
                lemma_joined_followed(parts, name);
            } else if name.len() == 2 && parts.len() > 0 {
                let rest = parts.drop_last();
                let last = parts[parts.len() - 1];
                assert(paths::is_entry(last));
                assert forall|i: int| 0 <= i < last.len() implies #[trigger] last[i] != '/' by {
                    if last[i] == '/' {
                        assert(last.contains('/'));
                    }
                }
                assert(last.len() == 1 && last[0] == '.' ==> last =~= paths::dot());
                assert(last.len() == 2 && last[0] == '.' && last[1] == '.' ==> last
                    =~= paths::dot_dot());
                assert forall|i: int| 0 <= i < rest.len() implies paths::is_entry(
                    #[trigger] rest[i],
                ) by {
                    assert(rest[i] == parts[i]);
                }
                lemma_joined_followed(rest, last);
                assert(rest.push(last) =~= parts);
                assert(names_entry(last));
                assert(text::joined(parts, paths::slash()) == followed(
                    text::joined(rest, paths::slash()),
                    last,
                ));
            }
        }
    }
}

/// Whether every one of `names` is the name of an entry.
pub open spec fn name_entries(names: Seq<Seq<char>>) -> bool {
    forall|i: int| 0 <= i < names.len() ==> names_entry(#[trigger] names[i])
}

proof fn lemma_name_entries(names: Seq<Seq<char>>)
    requires
        name_entries(names),
    ensures
        paths::all_entries(names),
{
    assert forall|i: int| 0 <= i < names.len() implies paths::is_entry(#[trigger] names[i]) by {
        assert(names_entry(names[i]));
        if names[i].contains('/') {
            let at = names[i].index_of('/');
            assert(names[i][at] == '/');
        }
    }
}

/// The components of the absolute path that `names` lead to: the root, and the names.
pub proof fn lemma_absolute_components(names: Seq<Seq<char>>)
    requires
        name_entries(names),
    ensures
        paths::components(seq!['/'] + text::joined(names, seq!['/'])) == seq![seq!['/']] + names,
{
    lemma_name_entries(names);
    let root = paths::slash();
    paths::lemma_joined_components(root, names);
    paths::lemma_entries_path(names);
    paths::lemma_entries_path(Seq::empty());
    paths::lemma_segments_at_slash(Seq::empty(), Seq::empty());
    assert(Seq::<char>::empty() + paths::slash() + Seq::<char>::empty() =~= root);
    reveal_with_fuel(paths::named, 3);
    assert(paths::segments(root) =~= seq![Seq::<char>::empty(), Seq::<char>::empty()]);
    assert(paths::segments(root).drop_last().drop_last() =~= Seq::<Seq<char>>::empty());
    assert(paths::named(paths::segments(root)) =~= Seq::<Seq<char>>::empty());
    assert(paths::components(root) =~= seq![seq!['/']]);
}

/// The place of a working directory below the root: where the names that lead to it start
/// with those that lead to the root, it is what follows them, and otherwise the directory is
/// outside the root and is refused.
pub proof fn lemma_place_below_root(
    root_names: Seq<Seq<char>>,
    cwd_names: Seq<Seq<char>>,
    local_root: &str,
    cwd: &str,
    relative: Result<String, PathError>,
)
    requires
        name_entries(root_names),
        name_entries(cwd_names),
        local_root@ == seq!['/'] + text::joined(root_names, seq!['/']),
        cwd@ == seq!['/'] + text::joined(cwd_names, seq!['/']),
        call_ensures(relative_cwd, (local_root, cwd), relative),
    ensures
        match relative {
            Ok(relative) => {
                &&& root_names.is_prefix_of(cwd_names)
                &&& relative@ == text::joined(
                    cwd_names.skip(root_names.len() as int),
                    seq!['/'],
                )
            },
            Err(error) => {
                &&& !root_names.is_prefix_of(cwd_names)
                &&& error is OutsideRoot
            },
        },
{
    lemma_absolute_components(root_names);
    lemma_absolute_components(cwd_names);
    let root = paths::components(local_root@);
    let all = paths::components(cwd@);
    assert(root.is_prefix_of(all) == root_names.is_prefix_of(cwd_names)) by {
        if root_names.is_prefix_of(cwd_names) {
            assert(root =~= all.subrange(0, root.len() as int)) by {
                assert forall|i: int| 0 < i < root.len() implies root[i] == all[i] by {
                    assert(root_names[i - 1] == cwd_names.subrange(
                        0,
                        root_names.len() as int,
                    )[i - 1]);
                }
            }
        }
        if root.is_prefix_of(all) {
            assert(root_names =~= cwd_names.subrange(0, root_names.len() as int)) by {
                assert forall|i: int| 0 <= i < root_names.len() implies root_names[i]
                    == cwd_names[i] by {
                    assert(root[i + 1] == all.subrange(0, root.len() as int)[i + 1]);
                }
            }
        }
    }
    if root_names.is_prefix_of(cwd_names) {
        let rest = cwd_names.skip(root_names.len() as int);
        assert(all.skip(root.len() as int) =~= rest);
        if rest.len() > 0 {
            assert(names_entry(cwd_names[root_names.len() as int]));
            assert(rest[0] == cwd_names[root_names.len() as int]);
            assert(rest[0] != paths::slash()) by {
                if rest[0] == paths::slash() {
                    assert(rest[0][0] == '/');
                }
            }
        }
    }
}

/// A sync is planned from the place of the working directory below the root, for which the
/// path is resolved: what is refused there is refused.
pub proof fn lemma_sync_is_planned_from_here(
    config: Config,
    local_root: &str,
    cwd: &str,
    path: &str,
    direction: SyncDirection,
    here: Result<String, PathError>,
    target: Result<String, PathError>,
    plan: Result<SyncPlan, PathError>,
)
    requires
        call_ensures(plan_sync, (&config, local_root, cwd, path, direction), plan),
        call_ensures(relative_cwd, (local_root, cwd), here),
        here matches Ok(here) ==> exists|text: &str|
            text@ == here@ && #[trigger] call_ensures(
                resolve_relative_target,
                (text, path),
                target,
            ),
    ensures
        match (here, target) {
            (Err(error), _) => plan matches Err(refused) && refused@ == error@,
            (Ok(_), Err(error)) => plan matches Err(refused) && refused@ == error@,
            (Ok(_), Ok(target)) => plan matches Ok(plan) && plan.relative_path@ == target@,
        },
{
}

/// A plan between two roots is about the resolved path, below both of them.
pub proof fn lemma_plan_is_below_both_roots(
    local_root: &str,
    remote_root: &str,
    cwd_rel: &str,
    path: &str,
    direction: SyncDirection,
    target: Result<String, PathError>,
    plan: Result<SyncPlan, PathError>,
)
    requires
        call_ensures(
            build_sync_plan,
            (local_root, remote_root, cwd_rel, path, direction),
            plan,
        ),
        call_ensures(resolve_relative_target, (cwd_rel, path), target),
        local_root@.len() > 0,
        remote_root@.len() > 0,
    ensures
        match target {
            Err(error) => plan matches Err(refused) && refused@ == error@,
            Ok(target) => {
                &&& plan matches Ok(plan)
                &&& plan.direction == direction
                &&& plan.relative_path@ == target@
                &&& leads_down(target@)
                &&& stands_below(plan.local_path@, local_root@, target@)
                &&& stands_below(plan.remote_path@, remote_root@, target@)
            },
        },
{
    if let Ok(target) = target {
        paths::lemma_target_below_root(cwd_rel@, path@);
        lemma_entries_lead_down(paths::components(target@));
        assert(local_root@ + paths::slash() =~= local_root@.push('/'));
        assert(remote_root@ + paths::slash() =~= remote_root@.push('/'));
    }
}

/// The target of a single name: from the directory that `names` lead to, `.` is the directory
/// itself, a name is the entry of that name in it, and `..` is the directory above it, or
/// nothing at the root. Absolute paths are no targets.
pub proof fn lemma_target_of_one_name(
    names: Seq<Seq<char>>,
    cwd_rel: &str,
    path: &str,
    target: Result<String, PathError>,
)
    requires
        name_entries(names),
        cwd_rel@ == text::joined(names, seq!['/']),
        call_ensures(resolve_relative_target, (cwd_rel, path), target),
    ensures
        path@.len() > 0 && path@[0] == '/' ==> (target matches Err(error) && error@ == (
        PathError::Absolute { path: path@ })),
        path@ == seq!['.'] ==> (target matches Ok(target) && target@ == cwd_rel@),
        path@.len() == 0 ==> (target matches Ok(target) && target@ == cwd_rel@),
        names_entry(path@) ==> (target matches Ok(target) && target@ == followed(
            cwd_rel@,
            path@,
        )),
        path@ == seq!['.', '.'] ==> if names.len() == 0 {
            target matches Err(error) && error is Escapes
        } else {
            target matches Ok(target) && target@ == text::joined(names.drop_last(), seq!['/'])
        },
{
    lemma_name_entries(names);
    paths::lemma_entries_path(names);
    let start = Seq::<Seq<char>>::empty();
    reveal_with_fuel(paths::walked, 2);
    if names.len() > 0 {
        assert forall|i: int| 0 <= i < names.len() implies !(#[trigger] names[i]).contains(
            '/',
        ) by {
            assert(paths::is_entry(names[i]));
        }
        paths::lemma_segments_joined(names);
        paths::lemma_walked_down(start, names);
        assert(start + names =~= names);
    } else {
        assert(paths::segments(cwd_rel@) =~= seq![Seq::<char>::empty()]);
        assert(paths::segments(cwd_rel@).drop_last() =~= start);
        assert(names =~= start);
    }
    assert(paths::walked(start, paths::segments(cwd_rel@)) == Some(names));
    if !path@.contains('/') {
        paths::lemma_segments_of_one(path@);
        assert(paths::segments(path@).drop_last() =~= start);
        if path@.len() > 0 && path@[0] == '/' {
            assert(path@.contains('/'));
        }
        assert(path@.len() == 1 && path@[0] == '.' ==> path@ =~= paths::dot());
        assert(path@.len() == 2 && path@[0] == '.' && path@[1] == '.' ==> path@
            =~= paths::dot_dot());
        if names_entry(path@) {
            lemma_joined_followed(names, path@);
        }
    } else {
        let at = path@.index_of('/');
        assert(path@[at] == '/');
    }
}

} // verus!
