//! Slash-separated paths as text, and the paths that a sync works on.
use vstd::prelude::*;

use crate::text;
use crate::text::{chars_of, join, same_text};

verus! {

/// Which way files are copied.
#[derive(Debug, Clone, Copy, PartialEq, Eq, Structural)]
pub enum SyncDirection {
    /// From the local machine to the remote one.
    Push,
    /// From the remote machine to the local one.
    Pull,
}

/// What a sync copies, and where it stands on both machines.
#[derive(Debug, Clone, PartialEq, Eq)]
pub struct SyncPlan {
    pub direction: SyncDirection,
    /// The path below the project root.
    pub relative_path: String,
    pub local_path: String,
    pub remote_path: String,
}

/// Why a path cannot be used.
#[derive(Debug, PartialEq, Eq)]
pub enum PathError<S = String> {
    /// The working directory is outside the local root.
    OutsideRoot { cwd: S, local_root: S },
    /// An absolute path was given where a relative one is wanted.
    Absolute { path: S },
    /// The path leads above the project root.
    Escapes,
    /// The base of the path is not relative.
    Unsupported { path: S },
}

impl View for PathError<String> {
    type V = PathError<Seq<char>>;

    open spec fn view(&self) -> PathError<Seq<char>> {
        match self {
            PathError::OutsideRoot { cwd, local_root } => {
                PathError::OutsideRoot { cwd: cwd@, local_root: local_root@ }
            },
            PathError::Absolute { path } => PathError::Absolute { path: path@ },
            PathError::Escapes => PathError::Escapes,
            PathError::Unsupported { path } => PathError::Unsupported { path: path@ },
        }
    }
}

impl PathError<Seq<char>> {
    /// The sentence that reports the error.
    pub open spec fn text(self) -> Seq<char> {
        match self {
            PathError::OutsideRoot { cwd, local_root } => {
                "cwd "@ + cwd + " is not under "@ + local_root
            },
            PathError::Absolute { path } => "absolute paths are not allowed: "@ + path,
            PathError::Escapes => "path escapes project root"@,
            PathError::Unsupported { path } => "unsupported path component in "@ + path,
        }
    }
}

impl PathError<String> {
    /// The sentence that reports the error.
    pub fn message(&self) -> (message: String)
        ensures
            message@ == self@.text(),
    {
        match self {
            PathError::OutsideRoot { cwd, local_root } => {
                "cwd ".to_owned().concat(cwd.as_str()).concat(" is not under ").concat(
                    local_root.as_str(),
                )
            },
            PathError::Absolute { path } => {
                "absolute paths are not allowed: ".to_owned().concat(path.as_str())
            },
            PathError::Escapes => "path escapes project root".to_owned(),
            PathError::Unsupported { path } => {
                "unsupported path component in ".to_owned().concat(path.as_str())
            },
        }
    }
}

// ---- paths as text ----

/// The separator as a text.
pub open spec fn slash() -> Seq<char> {
    seq!['/']
}

/// The segment that stands for the directory itself.
pub open spec fn dot() -> Seq<char> {
    seq!['.']
}

/// The segment that stands for the directory above.
pub open spec fn dot_dot() -> Seq<char> {
    seq!['.', '.']
}

/// Whether a path starts at the root.
pub open spec fn is_absolute(path: Seq<char>) -> bool {
    path.len() > 0 && path[0] == '/'
}

/// What stands between the slashes of a path.
pub open spec fn segments(path: Seq<char>) -> Seq<Seq<char>>
    decreases path.len(),
{
    if path.len() == 0 {
        seq![Seq::empty()]
    } else {
        let before = segments(path.drop_last());
        if path.last() == '/' {
            before.push(Seq::empty())
        } else {
            before.drop_last().push(before.last().push(path.last()))
        }
    }
}

/// The segments that name something: not the empty ones that doubled slashes leave, and
/// not `.`.
pub open spec fn named(list: Seq<Seq<char>>) -> Seq<Seq<char>>
    decreases list.len(),
{
    if list.len() == 0 {
        Seq::empty()
    } else if list.last().len() == 0 || list.last() == dot() {
        named(list.drop_last())
    } else {
        named(list.drop_last()).push(list.last())
    }
}

/// What a path starts from: the root, as `/`; the current directory, where it is written
/// as a leading `.`; or nothing.
pub open spec fn path_start(path: Seq<char>) -> Seq<Seq<char>> {
    if is_absolute(path) {
        seq![slash()]
    } else if segments(path)[0] == dot() {
        seq![dot()]
    } else {
        Seq::empty()
    }
}

/// The components of a path: where it starts, and the segments that name something.
pub open spec fn components(path: Seq<char>) -> Seq<Seq<char>> {
    path_start(path) + named(segments(path))
}

/// The path that components write, without doubled or trailing slashes.
pub open spec fn path_of(list: Seq<Seq<char>>) -> Seq<char> {
    if list.len() > 0 && list[0] == slash() {
        slash() + text::joined(list.drop_first(), slash())
    } else {
        text::joined(list, slash())
    }
}

/// `path` seen from `base`: an absolute path stands for itself.
pub open spec fn path_joined(base: Seq<char>, path: Seq<char>) -> Seq<char> {
    if is_absolute(path) || base.len() == 0 {
        path
    } else if base.last() == '/' {
        base + path
    } else {
        base + slash() + path
    }
}

/// The directory that holds `path`; nothing holds the root or the empty path.
pub open spec fn parent_of(path: Seq<char>) -> Option<Seq<char>> {
    let list = components(path);
    if list.len() == 0 || list.last() == slash() {
        None
    } else {
        Some(path_of(list.drop_last()))
    }
}

/// Whether `path` starts at the root.
pub fn is_absolute_path(path: &str) -> (absolute: bool)
    ensures
        absolute == is_absolute(path@),
{
    let chars = chars_of(path);
    chars.len() > 0 && chars[0] == '/'
}

/// What stands between the slashes of `path`.
pub fn path_segments(path: &str) -> (list: Vec<String>)
    ensures
        text::texts(list@) == segments(path@),
        list@.len() > 0,
{
    let chars = chars_of(path);
    let mut list: Vec<String> = Vec::new();
    let mut current = String::new();
    let mut index: usize = 0;
    assert(text::texts(list@).push(current@) == segments(chars@.take(0)));
    while index < chars.len()
        invariant
            chars@ == path@,
            index <= chars.len(),
            text::texts(list@).push(current@) == segments(chars@.take(index as int)),
        decreases chars.len() - index,
    {
        let ghost before = text::texts(list@).push(current@);
        assert(chars@.take(index + 1).drop_last() == chars@.take(index as int));
        assert(before.drop_last() == text::texts(list@));
        let ch = chars[index];
        if ch == '/' {
            let ghost held = list@;
            let ghost last = current@;
            list.push(current);
            current = String::new();
            assert(text::texts(list@) == text::texts(held).push(last));
        } else {
            current.push(ch);
        }
        index = index + 1;
    }
    assert(chars@.take(index as int) == path@);
    let ghost held = list@;
    let ghost last = current@;
    list.push(current);
    assert(text::texts(list@) == text::texts(held).push(last));
    list
}

/// The components of `path`.
pub fn path_components(path: &str) -> (list: Vec<String>)
    ensures
        text::texts(list@) == components(path@),
{
    let parts = path_segments(path);
    let mut list: Vec<String> = Vec::new();
    proof {
        reveal_strlit("/");
        reveal_strlit(".");
        assert("/"@ == slash());
        assert("."@ == dot());
        assert(text::texts(parts@)[0] == parts@[0]@);
    }
    if is_absolute_path(path) {
        list.push("/".to_owned());
    } else if same_text(parts[0].as_str(), ".") {
        list.push(".".to_owned());
    }
    assert(text::texts(list@) == path_start(path@));
    let ghost all = text::texts(parts@);
    assert(path_start(path@) + named(all.take(0)) == path_start(path@));
    for index in 0..parts.len()
        invariant
            all == text::texts(parts@),
            "."@ == dot(),
            text::texts(list@) == path_start(path@) + named(all.take(index as int)),
    {
        let ghost held = list@;
        assert(all.take(index + 1).drop_last() == all.take(index as int));
        assert(all.take(index + 1).last() == parts@[index as int]@);
        if !parts[index].as_str().is_empty() && !same_text(parts[index].as_str(), ".") {
            list.push(parts[index].clone());
            assert(text::texts(list@) == text::texts(held).push(parts@[index as int]@));
        }
    }
    assert(all.take(parts@.len() as int) == all);
    list
}

/// The path that `list` writes from `from` on.
fn path_from_components(list: &Vec<String>, from: usize) -> (path: String)
    requires
        from <= list@.len(),
    ensures
        path@ == path_of(text::texts(list@).skip(from as int)),
{
    proof {
        reveal_strlit("/");
        assert("/"@ == slash());
    }
    let mut rest: Vec<String> = Vec::new();
    let mut absolute = false;
    let ghost all = text::texts(list@).skip(from as int);
    let mut index: usize = from;
    if index < list.len() && same_text(list[index].as_str(), "/") {
        absolute = true;
        index = index + 1;
    }
    assert(absolute == (all.len() > 0 && all[0] == slash()));
    let ghost start = index as int;
    while index < list.len()
        invariant
            0 <= start <= index <= list.len(),
            text::texts(rest@) == text::texts(list@).subrange(start, index as int),
        decreases list.len() - index,
    {
        let ghost held = rest@;
        rest.push(list[index].clone());
        assert(text::texts(rest@) == text::texts(held).push(list@[index as int]@));
        index = index + 1;
    }
    let tail = join(rest.as_slice(), "/");
    if absolute {
        assert(text::texts(rest@) == all.drop_first());
        "/".to_owned().concat(tail.as_str())
    } else {
        assert(text::texts(rest@) == all);
        tail
    }
}

/// `path` seen from `base`.
pub fn join_path(base: &str, path: &str) -> (result: String)
    ensures
        result@ == path_joined(base@, path@),
{
    let front = chars_of(base);
    if is_absolute_path(path) || front.len() == 0 {
        path.to_owned()
    } else if front[front.len() - 1] == '/' {
        base.to_owned().concat(path)
    } else {
        proof {
            reveal_strlit("/");
            assert("/"@ == slash());
        }
        base.to_owned().concat("/").concat(path)
    }
}

/// The directory that holds `path`.
pub fn parent_dir(path: &str) -> (parent: Option<String>)
    ensures
        text::maybe_text(parent) == parent_of(path@),
{
    let mut list = path_components(path);
    proof {
        reveal_strlit("/");
        assert("/"@ == slash());
    }
    if list.len() == 0 || same_text(list[list.len() - 1].as_str(), "/") {
        None
    } else {
        let ghost all = text::texts(list@);
        list.pop();
        assert(text::texts(list@).skip(0) == all.drop_last());
        Some(path_from_components(&list, 0))
    }
}

// ---- the target of a sync ----

/// The path from the project root after one more segment; going up from the root leads
/// nowhere.
pub open spec fn step(parts: Seq<Seq<char>>, segment: Seq<char>) -> Option<Seq<Seq<char>>> {
    if segment.len() == 0 || segment == dot() {
        Some(parts)
    } else if segment == dot_dot() {
        if parts.len() == 0 {
            None
        } else {
            Some(parts.drop_last())
        }
    } else {
        Some(parts.push(segment))
    }
}

/// The path from the project root after all of `list`, if it never leads above the root.
pub open spec fn walked(parts: Seq<Seq<char>>, list: Seq<Seq<char>>) -> Option<Seq<Seq<char>>>
    decreases list.len(),
{
    if list.len() == 0 {
        Some(parts)
    } else {
        match walked(parts, list.drop_last()) {
            Some(reached) => step(reached, list.last()),
            None => None,
        }
    }
}

/// The segments that lead from the project root to `path`, seen from `cwd_rel`.
pub open spec fn target_parts(cwd_rel: Seq<char>, path: Seq<char>) -> Option<Seq<Seq<char>>> {
    match walked(Seq::empty(), segments(cwd_rel)) {
        Some(parts) => walked(parts, segments(path)),
        None => None,
    }
}

/// The path below the project root that `path`, seen from `cwd_rel`, stands for.
pub open spec fn relative_target(cwd_rel: Seq<char>, path: Seq<char>) -> Result<
    Seq<char>,
    PathError<Seq<char>>,
> {
    if is_absolute(path) {
        Err(PathError::Absolute { path })
    } else if is_absolute(cwd_rel) {
        Err(PathError::Unsupported { path })
    } else {
        match target_parts(cwd_rel, path) {
            Some(parts) => Ok(text::joined(parts, slash())),
            None => Err(PathError::Escapes),
        }
    }
}

/// Walks on from `from` over `list`.
fn walk(from: Vec<String>, list: &Vec<String>) -> (reached: Option<Vec<String>>)
    ensures
        match reached {
            Some(parts) => walked(text::texts(from@), text::texts(list@)) == Some(
                text::texts(parts@),
            ),
            None => walked(text::texts(from@), text::texts(list@)) is None,
        },
{
    let ghost start = text::texts(from@);
    let ghost all = text::texts(list@);
    proof {
        reveal_strlit(".");
        reveal_strlit("..");
        assert("."@ == dot());
        assert(".."@ == dot_dot());
    }
    let mut parts = from;
    let mut index: usize = 0;
    assert(all.take(0) == Seq::<Seq<char>>::empty());
    while index < list.len()
        invariant
            "."@ == dot(),
            ".."@ == dot_dot(),
            start == text::texts(from@),
            all == text::texts(list@),
            index <= list.len(),
            walked(start, all.take(index as int)) == Some(text::texts(parts@)),
        decreases list.len() - index,
    {
        let ghost held = text::texts(parts@);
        let segment = list[index].as_str();
        assert(all.take(index + 1).drop_last() == all.take(index as int));
        assert(all.take(index + 1).last() == segment@);
        if segment.is_empty() || same_text(segment, ".") {
        } else if same_text(segment, "..") {
            if parts.len() == 0 {
                proof {
                    lemma_walked_stops(start, all, index + 1);
                }
                return None;
            }
            parts.pop();
            assert(text::texts(parts@) == held.drop_last());
        } else {
            parts.push(list[index].clone());
            assert(text::texts(parts@) == held.push(segment@));
        }
        index = index + 1;
    }
    assert(all.take(index as int) == all);
    Some(parts)
}

proof fn lemma_walked_stops(parts: Seq<Seq<char>>, list: Seq<Seq<char>>, at: int)
    requires
        0 <= at <= list.len(),
        walked(parts, list.take(at)) is None,
    ensures
        walked(parts, list) is None,
    decreases list.len() - at,
{
    if at == list.len() {
        assert(list.take(at) == list);
    } else {
        assert(list.take(at + 1).drop_last() == list.take(at));
        lemma_walked_stops(parts, list, at + 1);
    }
}

/// Resolves `path`, seen from `cwd_rel`, to a path below the project root.
pub fn resolve_relative_target(cwd_rel: &str, path: &str) -> (target: Result<String, PathError>)
    ensures
        match target {
            Ok(relative) => relative_target(cwd_rel@, path@) == Ok::<_, PathError<Seq<char>>>(
                relative@,
            ),
            Err(error) => relative_target(cwd_rel@, path@) == Err::<Seq<char>, _>(error@),
        },
{
    if is_absolute_path(path) {
        return Err(PathError::Absolute { path: path.to_owned() });
    }
    if is_absolute_path(cwd_rel) {
        return Err(PathError::Unsupported { path: path.to_owned() });
    }
    proof {
        reveal_strlit("/");
        assert("/"@ == slash());
    }
    let parts: Vec<String> = Vec::new();
    assert(text::texts(parts@) == Seq::<Seq<char>>::empty());
    let from_cwd = match walk(parts, &path_segments(cwd_rel)) {
        Some(parts) => parts,
        None => return Err(PathError::Escapes),
    };
    match walk(from_cwd, &path_segments(path)) {
        Some(parts) => Ok(join(parts.as_slice(), "/")),
        None => Err(PathError::Escapes),
    }
}

/// The path of `cwd` below `local_root`. Both are paths as the file system resolves them.
pub open spec fn below_root(local_root: Seq<char>, cwd: Seq<char>) -> Result<
    Seq<char>,
    PathError<Seq<char>>,
> {
    let root = components(local_root);
    let all = components(cwd);
    if root.is_prefix_of(all) {
        Ok(path_of(all.skip(root.len() as int)))
    } else {
        Err(PathError::OutsideRoot { cwd, local_root })
    }
}

/// The path of `cwd` below `local_root`. Both are paths as the file system resolves them.
pub fn relative_cwd(local_root: &str, cwd: &str) -> (relative: Result<String, PathError>)
    ensures
        match relative {
            Ok(path) => below_root(local_root@, cwd@) == Ok::<_, PathError<Seq<char>>>(path@),
            Err(error) => below_root(local_root@, cwd@) == Err::<Seq<char>, _>(error@),
        },
{
    let root = path_components(local_root);
    let all = path_components(cwd);
    let ghost root_list = components(local_root@);
    let ghost all_list = components(cwd@);
    let mut index: usize = 0;
    while index < root.len()
        invariant
            root_list == text::texts(root@),
            all_list == text::texts(all@),
            root_list == components(local_root@),
            all_list == components(cwd@),
            index <= root.len(),
            index <= all.len(),
            forall|i: int| 0 <= i < index ==> root_list[i] == all_list[i],
        decreases root.len() - index,
    {
        if index >= all.len() || !same_text(root[index].as_str(), all[index].as_str()) {
            proof {
                if index < all@.len() {
                    assert(root_list[index as int] != all_list[index as int]);
                }
                if root_list.is_prefix_of(all_list) {
                    assert(all_list.subrange(0, root_list.len() as int)[index as int]
                        == all_list[index as int]);
                }
            }
            return Err(
                PathError::OutsideRoot { cwd: cwd.to_owned(), local_root: local_root.to_owned() },
            );
        }
        index = index + 1;
    }
    assert(root_list == all_list.subrange(0, root_list.len() as int));
    Ok(path_from_components(&all, root.len()))
}

/// The plan that copies `path`, seen from `cwd_rel`, between the two roots.
pub fn build_sync_plan(
    local_root: &str,
    remote_root: &str,
    cwd_rel: &str,
    path: &str,
    direction: SyncDirection,
) -> (plan: Result<SyncPlan, PathError>)
    ensures
        match plan {
            Ok(plan) => {
                &&& relative_target(cwd_rel@, path@) == Ok::<_, PathError<Seq<char>>>(
                    plan.relative_path@,
                )
                &&& plan.direction == direction
                &&& plan.local_path@ == path_joined(local_root@, plan.relative_path@)
                &&& plan.remote_path@ == path_joined(remote_root@, plan.relative_path@)
            },
            Err(error) => relative_target(cwd_rel@, path@) == Err::<Seq<char>, _>(error@),
        },
{
    match resolve_relative_target(cwd_rel, path) {
        Ok(relative_path) => {
            let local_path = join_path(local_root, relative_path.as_str());
            let remote_path = join_path(remote_root, relative_path.as_str());
            Ok(SyncPlan { direction, relative_path, local_path, remote_path })
        },
        Err(error) => Err(error),
    }
}

/// A path written as that of a directory: with a slash at its end.
pub open spec fn directory_form(path: Seq<char>) -> Seq<char> {
    if path.len() > 0 && path.last() == '/' {
        path
    } else {
        path + slash()
    }
}

/// Writes `path` with a slash at its end.
fn as_directory(path: String) -> (result: String)
    ensures
        result@ == directory_form(path@),
{
    let chars = chars_of(path.as_str());
    if chars.len() > 0 && chars[chars.len() - 1] == '/' {
        path
    } else {
        let mut result = path;
        result.push('/');
        assert(result@ == path@ + slash());
        result
    }
}

impl SyncPlan {
    /// The plan for a path that is a directory: both paths end in a slash, so that the
    /// contents of the one go into the other.
    pub fn for_directory(self) -> (plan: SyncPlan)
        ensures
            plan.direction == self.direction,
            plan.relative_path == self.relative_path,
            plan.local_path@ == directory_form(self.local_path@),
            plan.remote_path@ == directory_form(self.remote_path@),
    {
        SyncPlan {
            direction: self.direction,
            relative_path: self.relative_path,
            local_path: as_directory(self.local_path),
            remote_path: as_directory(self.remote_path),
        }
    }
}

// ---- where a sync can reach ----

/// A segment that names an entry of the directory before it.
pub open spec fn is_entry(segment: Seq<char>) -> bool {
    &&& segment.len() > 0
    &&& segment != dot()
    &&& segment != dot_dot()
    &&& !segment.contains('/')
}

/// Segments that lead downwards only.
pub open spec fn all_entries(list: Seq<Seq<char>>) -> bool {
    forall|i: int| 0 <= i < list.len() ==> is_entry(#[trigger] list[i])
}

pub proof fn lemma_segments_clean(path: Seq<char>)
    ensures
        segments(path).len() > 0,
        forall|i: int| 0 <= i < segments(path).len() ==> !(#[trigger] segments(path)[i]).contains('/'),
    decreases path.len(),
{
    if path.len() > 0 {
        lemma_segments_clean(path.drop_last());
        let before = segments(path.drop_last());
        let all = segments(path);
        assert forall|i: int| 0 <= i < all.len() implies !(#[trigger] all[i]).contains('/') by {
            if i < before.len() - 1 {
                assert(all[i] == before[i]);
            } else if path.last() == '/' {
                if i == before.len() - 1 {
                    assert(all[i] == before[i]);
                }
            } else {
                assert(!before[i].contains('/'));
                assert(all[i] == before[i].push(path.last()));
                if all[i].contains('/') {
                    let k = all[i].index_of('/');
                    assert(before[i][k] == '/');
                }
            }
        }
    }
}

pub proof fn lemma_segments_at_slash(left: Seq<char>, right: Seq<char>)
    ensures
        segments(left + slash() + right) == segments(left) + segments(right),
    decreases right.len(),
{
    let all = left + slash() + right;
    if right.len() == 0 {
        assert(all.drop_last() == left);
        assert(segments(left) + segments(right) == segments(left).push(Seq::empty()));
    } else {
        lemma_segments_at_slash(left, right.drop_last());
        lemma_segments_clean(right.drop_last());
        assert(all.drop_last() == left + slash() + right.drop_last());
        let front = segments(left);
        let back = segments(right.drop_last());
        if right.last() == '/' {
            assert((front + back).push(Seq::empty()) == front + back.push(Seq::empty()));
        } else {
            assert((front + back).drop_last() == front + back.drop_last());
            assert((front + back.drop_last()).push(back.last().push(right.last())) == front + (
            back.drop_last().push(back.last().push(right.last()))));
        }
    }
}

pub proof fn lemma_segments_of_one(segment: Seq<char>)
    requires
        !segment.contains('/'),
    ensures
        segments(segment) == seq![segment],
    decreases segment.len(),
{
    if segment.len() == 0 {
        assert(segment == Seq::<char>::empty());
    } else {
        let short = segment.drop_last();
        assert(!short.contains('/')) by {
            if short.contains('/') {
                assert(segment[short.index_of('/')] == '/');
            }
        }
        lemma_segments_of_one(short);
        assert(segment[segment.len() - 1] != '/');
        assert(short.push(segment.last()) == segment);
        assert(seq![short].drop_last().push(segment) == seq![segment]);
    }
}

pub proof fn lemma_segments_joined(list: Seq<Seq<char>>)
    requires
        list.len() > 0,
        forall|i: int| 0 <= i < list.len() ==> !(#[trigger] list[i]).contains('/'),
    ensures
        segments(text::joined(list, slash())) == list,
    decreases list.len(),
{
    lemma_segments_of_one(list[list.len() - 1]);
    if list.len() == 1 {
        assert(list == seq![list[0]]);
    } else {
        let short = list.drop_last();
        assert forall|i: int| 0 <= i < short.len() implies !(#[trigger] short[i]).contains('/') by {
            assert(short[i] == list[i]);
        }
        lemma_segments_joined(short);
        lemma_segments_at_slash(text::joined(short, slash()), list.last());
        assert(short + seq![list.last()] == list);
    }
}

proof fn lemma_named_concat(left: Seq<Seq<char>>, right: Seq<Seq<char>>)
    ensures
        named(left + right) == named(left) + named(right),
    decreases right.len(),
{
    if right.len() == 0 {
        assert(left + right == left);
        assert(named(left) + named(right) == named(left));
    } else {
        lemma_named_concat(left, right.drop_last());
        assert((left + right).drop_last() == left + right.drop_last());
        assert((left + right).last() == right.last());
        if right.last().len() != 0 && right.last() != dot() {
            assert((named(left) + named(right.drop_last())).push(right.last()) == named(left)
                + named(right.drop_last()).push(right.last()));
        }
    }
}

proof fn lemma_named_entries(list: Seq<Seq<char>>)
    requires
        all_entries(list),
    ensures
        named(list) == list,
    decreases list.len(),
{
    if list.len() > 0 {
        let short = list.drop_last();
        assert forall|i: int| 0 <= i < short.len() implies is_entry(#[trigger] short[i]) by {
            assert(short[i] == list[i]);
        }
        lemma_named_entries(short);
        assert(is_entry(list[list.len() - 1]));
        assert(short.push(list.last()) == list);
    } else {
        assert(list == Seq::<Seq<char>>::empty());
    }
}

pub proof fn lemma_walked_entries(parts: Seq<Seq<char>>, list: Seq<Seq<char>>)
    requires
        all_entries(parts),
        forall|i: int| 0 <= i < list.len() ==> !(#[trigger] list[i]).contains('/'),
        walked(parts, list) is Some,
    ensures
        all_entries(walked(parts, list)->0),
    decreases list.len(),
{
    if list.len() > 0 {
        let short = list.drop_last();
        assert forall|i: int| 0 <= i < short.len() implies !(#[trigger] short[i]).contains('/') by {
            assert(short[i] == list[i]);
        }
        lemma_walked_entries(parts, short);
        let reached = walked(parts, short)->0;
        let last = list[list.len() - 1];
        assert(!last.contains('/'));
        let next = step(reached, last)->0;
        assert forall|i: int| 0 <= i < next.len() implies is_entry(#[trigger] next[i]) by {
            if i < reached.len() {
                assert(is_entry(reached[i]));
            }
        }
    }
}

pub proof fn lemma_walked_down(parts: Seq<Seq<char>>, list: Seq<Seq<char>>)
    requires
        all_entries(list),
    ensures
        walked(parts, list) == Some(parts + list),
    decreases list.len(),
{
    if list.len() == 0 {
        assert(parts + list == parts);
    } else {
        let short = list.drop_last();
        assert forall|i: int| 0 <= i < short.len() implies is_entry(#[trigger] short[i]) by {
            assert(short[i] == list[i]);
        }
        lemma_walked_down(parts, short);
        assert(is_entry(list[list.len() - 1]));
        assert((parts + short).push(list.last()) == parts + list);
    }
}

/// The path that entries write holds just these entries, and is relative.
pub proof fn lemma_entries_path(list: Seq<Seq<char>>)
    requires
        all_entries(list),
    ensures
        !is_absolute(text::joined(list, slash())),
        components(text::joined(list, slash())) == list,
        named(segments(text::joined(list, slash()))) == list,
        segments(text::joined(list, slash()))[0] != dot(),
{
    let path = text::joined(list, slash());
    if list.len() == 0 {
        reveal_with_fuel(named, 2);
        assert(segments(path) == seq![Seq::<char>::empty()]);
        assert(segments(path).drop_last() == Seq::<Seq<char>>::empty());
        assert(list == Seq::<Seq<char>>::empty());
    } else {
        assert forall|i: int| 0 <= i < list.len() implies !(#[trigger] list[i]).contains('/') by {
            assert(is_entry(list[i]));
        }
        lemma_segments_joined(list);
        lemma_named_entries(list);
        assert(is_entry(list[0]));
        if is_absolute(path) {
            let rest = path.drop_first();
            assert(path == Seq::<char>::empty() + slash() + rest);
            lemma_segments_at_slash(Seq::empty(), rest);
            assert(segments(path)[0] == Seq::<char>::empty());
        }
        assert(Seq::<Seq<char>>::empty() + list == list);
    }
}

/// The target of a sync lies below the project root: it is reached from the root by going
/// down only, through the components of the resolved path.
pub proof fn lemma_target_below_root(cwd_rel: Seq<char>, path: Seq<char>)
    requires
        relative_target(cwd_rel, path) is Ok,
    ensures
        all_entries(components(relative_target(cwd_rel, path)->Ok_0)),
        !is_absolute(relative_target(cwd_rel, path)->Ok_0),
        relative_target(cwd_rel, path)->Ok_0 == text::joined(
            components(relative_target(cwd_rel, path)->Ok_0),
            slash(),
        ),
{
    let start = Seq::<Seq<char>>::empty();
    lemma_segments_clean(cwd_rel);
    lemma_segments_clean(path);
    lemma_walked_entries(start, segments(cwd_rel));
    let middle = walked(start, segments(cwd_rel))->0;
    lemma_walked_entries(middle, segments(path));
    lemma_entries_path(target_parts(cwd_rel, path)->0);
}

/// Joining a root and a path of entries puts the entries behind the components of the
/// root.
pub proof fn lemma_joined_components(root: Seq<char>, list: Seq<Seq<char>>)
    requires
        all_entries(list),
    ensures
        components(path_joined(root, text::joined(list, slash()))) == components(root) + list,
{
    let relative = text::joined(list, slash());
    let path = path_joined(root, relative);
    lemma_entries_path(list);
    lemma_entries_path(Seq::empty());
    assert(named(segments(Seq::<char>::empty())) == Seq::<Seq<char>>::empty());
    if root.len() == 0 {
        assert(root == Seq::<char>::empty());
        assert(components(root) == Seq::<Seq<char>>::empty());
        assert(components(root) + list == list);
    } else {
        lemma_segments_clean(root);
        if root.last() == '/' {
            let base = root.drop_last();
            assert(root == base + slash() + Seq::<char>::empty());
            assert(path == base + slash() + relative);
            lemma_segments_clean(base);
            lemma_segments_at_slash(base, Seq::empty());
            lemma_segments_at_slash(base, relative);
            lemma_named_concat(segments(base), segments(relative));
            lemma_named_concat(segments(base), segments(Seq::empty()));
            assert(named(segments(base)) + Seq::<Seq<char>>::empty() == named(segments(base)));
        } else {
            lemma_segments_at_slash(root, relative);
            lemma_named_concat(segments(root), segments(relative));
        }
        assert(path[0] == root[0]);
        assert(segments(path)[0] == segments(root)[0]);
        assert(path_start(path) == path_start(root));
        assert(path_start(root) + (named(segments(root)) + list) == path_start(root) + named(
            segments(root),
        ) + list);
    }
}

/// Both paths of a plan lie below their roots, at the same place: the components of each
/// are those of its root, followed by those of the relative path.
pub proof fn lemma_plan_confined(
    local_root: Seq<char>,
    remote_root: Seq<char>,
    cwd_rel: Seq<char>,
    path: Seq<char>,
)
    requires
        relative_target(cwd_rel, path) is Ok,
    ensures
        ({
            let relative = relative_target(cwd_rel, path)->Ok_0;
            &&& all_entries(components(relative))
            &&& components(path_joined(local_root, relative)) == components(local_root)
                + components(relative)
            &&& components(path_joined(remote_root, relative)) == components(remote_root)
                + components(relative)
        }),
{
    lemma_target_below_root(cwd_rel, path);
    let list = components(relative_target(cwd_rel, path)->Ok_0);
    lemma_joined_components(local_root, list);
    lemma_joined_components(remote_root, list);
}

/// The path of a working directory below the root is what was joined to the root.
pub proof fn lemma_relative_cwd_undoes_join(root: Seq<char>, list: Seq<Seq<char>>)
    requires
        all_entries(list),
    ensures
        below_root(root, path_joined(root, text::joined(list, slash()))) == Ok::<
            _,
            PathError<Seq<char>>,
        >(text::joined(list, slash())),
{
    let cwd = path_joined(root, text::joined(list, slash()));
    lemma_joined_components(root, list);
    let front = components(root);
    let all = components(cwd);
    assert(front == all.subrange(0, front.len() as int));
    assert(all.skip(front.len() as int) == list);
    if list.len() > 0 {
        assert(is_entry(list[0]));
        assert(slash()[0] == '/');
    }
}

/// Syncing `.` syncs the working directory itself: from a directory below the root the
/// target is the path of that directory.
pub proof fn lemma_sync_dot(cwd_rel: Seq<char>)
    requires
        cwd_rel == text::joined(components(cwd_rel), slash()),
        all_entries(components(cwd_rel)),
    ensures
        relative_target(cwd_rel, dot()) == Ok::<_, PathError<Seq<char>>>(cwd_rel),
{
    let list = components(cwd_rel);
    lemma_entries_path(list);
    lemma_segments_of_one(dot());
    let start = Seq::<Seq<char>>::empty();
    if list.len() > 0 {
        assert forall|i: int| 0 <= i < list.len() implies !(#[trigger] list[i]).contains('/') by {
            assert(is_entry(list[i]));
        }
        lemma_segments_joined(list);
        lemma_walked_down(start, list);
        assert(start + list == list);
    } else {
        reveal_with_fuel(walked, 2);
        assert(segments(cwd_rel) == seq![Seq::<char>::empty()]);
        assert(segments(cwd_rel).drop_last() == start);
        assert(walked(start, segments(cwd_rel)) == Some(list));
    }
    reveal_with_fuel(walked, 2);
    assert(segments(dot()).drop_last() == start);
}

/// The directory form of a path leads to the same place.
pub proof fn lemma_directory_form_components(path: Seq<char>)
    requires
        path.len() > 0,
    ensures
        components(directory_form(path)) == components(path),
{
    if path.last() != '/' {
        assert(path + slash() == path + slash() + Seq::<char>::empty());
        lemma_segments_at_slash(path, Seq::empty());
        lemma_segments_clean(path);
        lemma_named_concat(segments(path), segments(Seq::empty()));
        lemma_entries_path(Seq::empty());
        assert(named(segments(path)) + Seq::<Seq<char>>::empty() == named(segments(path)));
        assert((path + slash())[0] == path[0]);
    }
}

// ---- the directories above a path ----

/// A segment that names something.
pub open spec fn is_named(segment: Seq<char>) -> bool {
    segment.len() > 0 && segment != dot() && !segment.contains('/')
}

proof fn lemma_named_all(list: Seq<Seq<char>>)
    requires
        forall|i: int| 0 <= i < list.len() ==> !(#[trigger] list[i]).contains('/'),
    ensures
        forall|i: int| 0 <= i < named(list).len() ==> is_named(#[trigger] named(list)[i]),
    decreases list.len(),
{
    if list.len() > 0 {
        let short = list.drop_last();
        assert forall|i: int| 0 <= i < short.len() implies !(#[trigger] short[i]).contains('/') by {
            assert(short[i] == list[i]);
        }
        lemma_named_all(short);
        let last = list[list.len() - 1];
        assert(!last.contains('/'));
        assert forall|i: int| 0 <= i < named(list).len() implies is_named(
            #[trigger] named(list)[i],
        ) by {
            if i < named(short).len() {
                assert(is_named(named(short)[i]));
            }
        }
    }
}

proof fn lemma_named_stays(list: Seq<Seq<char>>)
    requires
        forall|i: int| 0 <= i < list.len() ==> is_named(#[trigger] list[i]),
    ensures
        named(list) == list,
    decreases list.len(),
{
    if list.len() > 0 {
        let short = list.drop_last();
        assert forall|i: int| 0 <= i < short.len() implies is_named(#[trigger] short[i]) by {
            assert(short[i] == list[i]);
        }
        lemma_named_stays(short);
        assert(is_named(list[list.len() - 1]));
        assert(short.push(list.last()) == list);
    } else {
        assert(list == Seq::<Seq<char>>::empty());
    }
}

/// The directory above an absolute path is absolute too, and is reached by leaving the
/// last component away.
pub proof fn lemma_parent_components(path: Seq<char>)
    requires
        is_absolute(path),
        parent_of(path) is Some,
    ensures
        is_absolute(parent_of(path)->0),
        components(parent_of(path)->0) == components(path).drop_last(),
{
    let all = components(path);
    let names = named(segments(path));
    lemma_segments_clean(path);
    lemma_named_all(segments(path));
    assert(all.len() == 1 + names.len());
    assert(names.len() > 0) by {
        if names.len() == 0 {
            assert(all.last() == slash());
        }
    }
    let rest = names.drop_last();
    assert forall|i: int| 0 <= i < rest.len() implies is_named(#[trigger] rest[i])
        && !rest[i].contains('/') by {
        assert(is_named(names[i]));
    }
    assert(all.drop_last() == seq![slash()] + rest);
    assert(all.drop_last().drop_first() == rest);
    let below = text::joined(rest, slash());
    let parent = slash() + below;
    assert(parent_of(path) == Some(parent));
    assert(parent == Seq::<char>::empty() + slash() + below);
    lemma_segments_at_slash(Seq::empty(), below);
    lemma_named_concat(segments(Seq::empty()), segments(below));
    lemma_entries_path(Seq::empty());
    assert(named(segments(Seq::<char>::empty())) == Seq::<Seq<char>>::empty());
    assert(Seq::<Seq<char>>::empty() + named(segments(below)) == named(segments(below)));
    if rest.len() > 0 {
        lemma_segments_joined(rest);
        lemma_named_stays(rest);
    } else {
        assert(below == Seq::<char>::empty());
        assert(rest == Seq::<Seq<char>>::empty());
    }
}

} // verus!
