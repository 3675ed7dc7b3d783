use gitinit::fsmodel::FsModel;
use gitinit::init::Command;
use gitinit::repository::{InitError, Repository};

#[test]
fn command_create() {
    let mut fs = FsModel::new();
    let p = "/tmp/work";
    fs.record_dir(p);
    assert!(Command::create(&mut fs, p).is_ok());

    assert!(fs.is_dir(&format!("{}/{}", p, ".git/branches")));
    assert!(fs.is_dir(&format!("{}/{}", p, ".git/objects")));
    assert!(fs.is_dir(&format!("{}/{}", p, ".git/refs/heads")));
    assert!(fs.is_dir(&format!("{}/{}", p, ".git/refs/tags")));

    assert!(fs.is_file(&format!("{}/{}", p, ".git/description")));
    assert!(fs.is_file(&format!("{}/{}", p, ".git/HEAD")));
    assert!(fs.is_file(&format!("{}/{}", p, ".git/config")));
}

#[test]
fn mkdir() {
    let mut fs = FsModel::new();
    let p = "/tmp/scratch";
    fs.record_dir(p);
    let r = Repository::new(p);
    assert!(r.mkdir(&mut fs, ".").is_ok());
    assert!(fs.is_dir(&format!("{}/{}", p, ".git")));
}

#[test]
fn file() {
    let mut fs = FsModel::new();
    let p = "/tmp/probe";
    fs.record_dir(p);
    let r = Repository::new(p);

    r.mkdir(&mut fs, ".").unwrap();

    assert_eq!(r.file(&fs, "description"), Some(format!("{}/.git/description", p)));
}

#[test]
fn end_to_end_layout() {
    let mut fs = FsModel::new();
    let root = "/tmp/fresh";
    let repo = Command::create(&mut fs, root);
    assert!(repo.is_ok());

    assert!(fs.is_dir("/tmp/fresh/.git/branches"));
    assert!(fs.is_dir("/tmp/fresh/.git/objects"));
    assert!(fs.is_dir("/tmp/fresh/.git/refs/heads"));
    assert!(fs.is_dir("/tmp/fresh/.git/refs/tags"));
    assert!(fs.is_file("/tmp/fresh/.git/description"));
    assert!(fs.is_file("/tmp/fresh/.git/HEAD"));
    assert!(fs.is_file("/tmp/fresh/.git/config"));

    assert_eq!(
        fs.file_content("/tmp/fresh/.git/HEAD"),
        Some("ref: refs/heads/main\n".to_string()),
    );
    assert_eq!(
        fs.file_content("/tmp/fresh/.git/description"),
        Some(
            "Unnamed repository; edit this file 'description' to name the repository.\n"
                .to_string()
        ),
    );
}

#[test]
fn config_round_trips_through_ini() {
    let mut fs = FsModel::new();
    Command::create(&mut fs, "/tmp/cfg").unwrap();
    let text = fs.file_content("/tmp/cfg/.git/config").unwrap();
    let parsed = ini::Ini::load_from_str(&text).unwrap();
    let core = parsed.section(Some("core")).unwrap();
    assert_eq!(core.get("repositoryformatversion"), Some("0"));
    assert_eq!(core.get("filemode"), Some("false"));
    assert_eq!(core.get("bare"), Some("false"));
}

#[test]
fn create_rejects_file_target() {
    let mut fs = FsModel::new();
    fs.record_file("/w", String::new());
    let r = Command::create(&mut fs, "/w");
    assert!(matches!(r, Err(InitError::InvalidTarget(_))));
    // no mutation happened: no control directory appeared
    assert!(!fs.contains_path("/w/.git"));
    assert!(fs.is_file("/w"));
}

#[test]
fn create_again_keeps_everything() {
    let mut fs = FsModel::new();
    let root = "/r";
    Command::create(&mut fs, root).unwrap();
    let head_before = fs.file_content("/r/.git/HEAD");
    let desc_before = fs.file_content("/r/.git/description");
    let cfg_before = fs.file_content("/r/.git/config");
    assert!(Command::create(&mut fs, root).is_ok());
    assert_eq!(fs.file_content("/r/.git/HEAD"), head_before);
    assert_eq!(fs.file_content("/r/.git/description"), desc_before);
    assert_eq!(fs.file_content("/r/.git/config"), cfg_before);
    assert!(fs.is_dir("/r/.git/branches"));
    assert!(fs.is_dir("/r/.git/refs/tags"));
}

#[test]
fn create_with_relative_root() {
    let mut fs = FsModel::new();
    assert!(Command::create(&mut fs, "project").is_ok());
    assert!(fs.is_dir("project"));
    assert!(fs.is_dir("project/.git/objects"));
    assert!(fs.is_file("project/.git/HEAD"));
}

#[test]
fn create_with_empty_root_fails() {
    let mut fs = FsModel::new();
    let r = Command::create(&mut fs, "");
    assert!(matches!(r, Err(InitError::CreateDir(_))));
}

#[test]
fn create_conflicting_seed_directory() {
    let mut fs = FsModel::new();
    fs.record_dir("/z/.git/description");
    let r = Command::create(&mut fs, "/z");
    assert!(matches!(r, Err(InitError::FileConflict(_))));
}
