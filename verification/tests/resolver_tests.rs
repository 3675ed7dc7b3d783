use gitinit::fsmodel::FsModel;
use gitinit::paths::{join_paths, normalize, parent_str};
use gitinit::repository::{InitError, Repository};

#[test]
fn path_resolves_under_control_dir() {
    let r = Repository::new("/repo");
    assert_eq!(r.path("description"), "/repo/.git/description");
    assert!(r.path("objects/ab").starts_with("/repo/.git/"));
}

#[test]
fn path_with_absolute_name_replaces() {
    let r = Repository::new("/repo");
    assert_eq!(r.path("/elsewhere"), "/elsewhere");
}

#[test]
fn readiness_gating() {
    let mut fs = FsModel::new();
    let r = Repository::new("/w");
    assert_eq!(r.file(&fs, "description"), None);
    r.mkdir(&mut fs, ".").unwrap();
    assert_eq!(r.file(&fs, "description"), Some("/w/.git/description".to_string()));
}

#[test]
fn dir_probe_answers_only_directories() {
    let mut fs = FsModel::new();
    let r = Repository::new("/w");
    assert_eq!(r.dir(&fs, "objects"), None);
    fs.record_file("/w/.git/objects", "oops".to_string());
    assert_eq!(r.dir(&fs, "objects"), None);
    fs.record_dir("/w/.git/objects");
    assert_eq!(r.dir(&fs, "objects"), Some("/w/.git/objects".to_string()));
}

#[test]
fn mkdir_twice_is_idempotent() {
    let mut fs = FsModel::new();
    let r = Repository::new("/x");
    assert!(r.mkdir(&mut fs, "objects").is_ok());
    assert!(r.mkdir(&mut fs, "objects").is_ok());
    assert!(fs.is_dir("/x/.git/objects"));
    assert!(!fs.is_file("/x/.git/objects"));
}

#[test]
fn mkdir_blocked_by_file() {
    let mut fs = FsModel::new();
    let r = Repository::new("/y");
    fs.record_file("/y/.git", "occupied".to_string());
    let e = r.mkdir(&mut fs, "objects");
    match e {
        Err(InitError::CreateDir(p)) => assert_eq!(p, "/y/.git/objects"),
        _ => panic!("expected a directory-creation failure"),
    }
}

#[test]
fn mkdir_normalizes_dot_segments() {
    let mut fs = FsModel::new();
    let r = Repository::new("/n");
    assert!(r.mkdir(&mut fs, "a/./b").is_ok());
    assert!(fs.is_dir("/n/.git/a/b"));
}

#[test]
fn normalize_collapses_segments() {
    assert_eq!(normalize("/a//b/./c"), "/a/b/c");
    assert_eq!(normalize("a/b/../c"), "a/c");
    assert_eq!(normalize("/.."), "/");
    assert_eq!(normalize("../x"), "../x");
    assert_eq!(normalize("/tmp/t/.git/."), "/tmp/t/.git");
}

#[test]
fn join_and_parent_semantics() {
    assert_eq!(join_paths("/a", "b"), "/a/b");
    assert_eq!(join_paths("/a/", "b"), "/a/b");
    assert_eq!(join_paths("/a", "/b"), "/b");
    assert_eq!(join_paths("", "b"), "b");
    assert_eq!(parent_str("/a/b"), Some("/a".to_string()));
    assert_eq!(parent_str("abc"), None);
}

#[test]
fn default_config_content() {
    let cfg = gitinit::config::default_config();
    assert_eq!(cfg.len(), 1);
    assert_eq!(cfg[0].0, "core");
    assert_eq!(
        cfg[0].1,
        vec![
            ("repositoryformatversion".to_string(), "0".to_string()),
            ("filemode".to_string(), "false".to_string()),
            ("bare".to_string(), "false".to_string()),
        ],
    );
}
