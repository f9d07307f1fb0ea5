//! Paths and sync plans.
use sshpal::paths::{
    build_sync_plan, is_absolute_path, join_path, parent_dir, path_components, path_segments,
    relative_cwd, resolve_relative_target, PathError, SyncDirection,
};

#[test]
fn resolves_nested_dot() {
    let rel = resolve_relative_target("foo/bar", ".").unwrap();
    assert_eq!(rel, "foo/bar");
}

#[test]
fn rejects_escape() {
    let err = resolve_relative_target("foo", "../../etc").unwrap_err();
    assert!(err.message().contains("escapes"));
}

#[test]
fn rejects_absolute() {
    assert!(resolve_relative_target("foo", "/tmp").is_err());
}

#[test]
fn computes_relative_cwd() {
    let rel = relative_cwd("/tmp/work/root", "/tmp/work/root/a/b").unwrap();
    assert_eq!(rel, "a/b");
}

#[test]
fn builds_sync_plan() {
    let plan = build_sync_plan("/local", "/remote", "foo", "bar", SyncDirection::Push).unwrap();
    assert_eq!(plan.local_path, "/local/foo/bar");
    assert_eq!(plan.remote_path, "/remote/foo/bar");
}

#[test]
fn resolves_within_the_root() {
    let resolve = |cwd: &str, path: &str| resolve_relative_target(cwd, path).unwrap();
    assert_eq!(resolve("foo", ".."), "");
    assert_eq!(resolve("a/b", "../c/./d//e"), "a/c/d/e");
    assert_eq!(resolve("", "src/lib.rs"), "src/lib.rs");
    assert_eq!(resolve("a/..", "b"), "b");
}

#[test]
fn reports_path_errors() {
    assert_eq!(
        resolve_relative_target("foo", "/tmp").unwrap_err().message(),
        "absolute paths are not allowed: /tmp"
    );
    assert_eq!(resolve_relative_target("", ".."), Err(PathError::Escapes));
    assert_eq!(PathError::<String>::Escapes.message(), "path escapes project root");
    assert_eq!(
        resolve_relative_target("/abs", "x").unwrap_err().message(),
        "unsupported path component in x"
    );
    assert_eq!(
        relative_cwd("/a/bc", "/a/b").unwrap_err().message(),
        "cwd /a/b is not under /a/bc"
    );
    assert_eq!(relative_cwd("/a", "/a"), Ok(String::new()));
}

#[test]
fn paths_behave_as_those_of_std() {
    let samples = [
        "/", "/a", "/a/", "/a/b", "a/b", "./a", "a/./b", "a//b", "..", "", ".", "/a/..", "a/", "//a",
    ];
    for sample in samples {
        let path = std::path::Path::new(sample);
        assert_eq!(is_absolute_path(sample), path.is_absolute(), "{sample}");
        let parent = path.parent().map(|parent| parent.to_str().unwrap().to_string());
        let ours = parent_dir(sample);
        let same = match (&ours, &parent) {
            (Some(ours), Some(parent)) => {
                std::path::Path::new(ours) == std::path::Path::new(parent)
            }
            (None, None) => true,
            _ => false,
        };
        assert!(same, "{sample}: {ours:?} {parent:?}");
        let components: Vec<String> = path
            .components()
            .map(|part| part.as_os_str().to_str().unwrap().to_string())
            .collect();
        assert_eq!(path_components(sample), components, "{sample}");
        for other in samples {
            let joined = path.join(other);
            assert_eq!(join_path(sample, other), joined.to_str().unwrap(), "{sample} {other}");
        }
    }
    assert_eq!(path_segments("/a//b"), vec!["", "a", "", "b"]);
}

#[test]
fn directories_are_planned_with_a_slash() {
    let plan = build_sync_plan("/local", "/remote", "", "src", SyncDirection::Pull).unwrap();
    let plan = plan.for_directory();
    assert_eq!(plan.local_path, "/local/src/");
    assert_eq!(plan.remote_path, "/remote/src/");
    assert_eq!(plan.relative_path, "src");
    let root = build_sync_plan("/local", "/remote", "", ".", SyncDirection::Pull).unwrap();
    assert_eq!(root.for_directory().local_path, "/local/");
}
