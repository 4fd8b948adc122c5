use rnr_buf::cli::Opts;
use rnr_buf::config::Config;
use rnr_buf::filesystem::{all_dirs_exist, get_last_component, has_hidden, missing_ancestor_dirs,
    DiskState};

fn disk_of(paths: &[&str]) -> DiskState {
    let mut disk = DiskState::new();
    for p in paths {
        disk.record((*p).to_owned());
    }
    disk
}

#[test]
fn test_get_last_component() {
    assert_eq!("c.txt", get_last_component("a/b/c.txt"));
    assert_eq!("file", get_last_component("file"));
    assert_eq!("b", get_last_component("a/b/"));
    assert_eq!("a", get_last_component("/a"));
    assert_eq!("", get_last_component(""));
}

#[test]
fn test_has_hidden() {
    assert!(has_hidden(".git/config"));
    assert!(has_hidden("a/.hidden/b"));
    assert!(has_hidden("a/b/.c"));
    assert!(!has_hidden("a/b/c"));
    assert!(!has_hidden("a.b/c.d"));
}

#[test]
fn test_all_dirs_exist() {
    let disk = disk_of(&["new", "new/sub", "new/sub/file.txt"]);
    assert!(all_dirs_exist("new/sub/file.txt", &disk));
    assert!(all_dirs_exist("toplevel.txt", &disk));
    assert!(!all_dirs_exist("new/other/file.txt", &disk));
}

#[test]
fn test_missing_ancestor_dirs() {
    let disk = disk_of(&["new"]);
    let missing = missing_ancestor_dirs("new/sub/deeper/file.txt", &disk);
    assert_eq!(
        vec!["new/sub".to_owned(), "new/sub/deeper".to_owned()],
        missing
    );
    let none = missing_ancestor_dirs("new/file.txt", &disk);
    assert!(none.is_empty());
}

#[test]
fn test_config_defaults() {
    let cfg = Config::new();
    assert!(!cfg.automatic_rename);
    assert!(!cfg.absolute);
    assert!(cfg.editor.is_none());
    assert!(!cfg.ignore_hidden);
    assert!(cfg.recursive);
    assert!(cfg.mkdir);
    assert!(!cfg.yes);
    assert!(!cfg.quiet);
}

#[test]
fn test_config_from_args() {
    let opts = Opts {
        paths: vec!["somewhere".to_owned()],
        editor: Some("ed".to_owned()),
        recursive: false,
        absolute: true,
        automatic_rename: true,
        ignore_hidden: true,
        mkdir: false,
        yes: true,
        quiet: true,
    };
    let cfg = Config::from_args(&opts);
    assert!(cfg.absolute);
    assert_eq!(Some("ed".to_owned()), cfg.editor);
    assert!(!cfg.recursive);
    assert!(cfg.automatic_rename);
    assert!(cfg.ignore_hidden);
    assert!(!cfg.mkdir);
    assert!(cfg.yes);
    assert!(cfg.quiet);
}
