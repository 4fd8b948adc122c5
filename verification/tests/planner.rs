use rnr_buf::config::Config;
use rnr_buf::errors::PlanError;
use rnr_buf::filelist::FileList;
use rnr_buf::filesystem::DiskState;
use rnr_buf::plan::batch_operations;

fn config() -> Config {
    Config {
        automatic_rename: false,
        absolute: false,
        editor: None,
        ignore_hidden: false,
        recursive: true,
        mkdir: false,
        yes: false,
        quiet: false,
    }
}

fn disk_of(paths: &[&str]) -> DiskState {
    let mut disk = DiskState::new();
    for p in paths {
        disk.record((*p).to_owned());
    }
    disk
}

fn canonical(lines: &str) -> FileList {
    let mut list = FileList::new_from_raw(lines.to_owned()).expect("should parse");
    list.enumerate();
    list
}

fn parsed(lines: &str) -> FileList {
    FileList::new_from_raw(lines.to_owned()).expect("should parse")
}

#[test]
fn test_unchanged_listing_plans_nothing() {
    let original = canonical("a.txt\nb.txt\nc.txt\n");
    let modified = parsed(&original.raw.clone());
    let disk = disk_of(&["a.txt", "b.txt", "c.txt"]);
    let outcome =
        batch_operations(&original, &modified, &config(), &disk).expect("planning should succeed");
    assert_eq!(0, outcome.len());
}

#[test]
fn test_reordered_but_unchanged_plans_nothing() {
    let original = canonical("a.txt\nb.txt\n");
    let modified = parsed("b.txt\na.txt\n");
    let disk = disk_of(&["a.txt", "b.txt"]);
    let outcome =
        batch_operations(&original, &modified, &config(), &disk).expect("planning should succeed");
    assert_eq!(0, outcome.len());
}

#[test]
fn test_count_mismatch() {
    let original = canonical("a.txt\nb.txt\n");
    let modified = parsed("a.txt\n");
    let disk = disk_of(&["a.txt", "b.txt"]);
    match batch_operations(&original, &modified, &config(), &disk) {
        Err(PlanError::CountMismatch) => {}
        _ => panic!("expected CountMismatch"),
    }
}

#[test]
fn test_positional_correlation() {
    // b.txt is absent from the modified listing and correlates by rank to c.txt
    let original = canonical("a.txt\nb.txt\n");
    let modified = parsed("a.txt\nc.txt\n");
    let disk = disk_of(&["a.txt", "b.txt"]);
    let outcome =
        batch_operations(&original, &modified, &config(), &disk).expect("planning should succeed");
    assert_eq!(1, outcome.len());
    assert_eq!("b.txt", outcome[0].source);
    assert_eq!("c.txt", outcome[0].destination);
    assert_eq!("c.txt", outcome[0].given_destination_path);
    assert!(outcome[0].mkdirs.is_empty());
}

#[test]
fn test_batch_operations_move() {
    let original = canonical("file_1.txt\nfile_3.txt\n");
    let modified = parsed("file_1.txt\nfile_4.txt\n");
    let disk = disk_of(&["file_1.txt", "file_3.txt"]);
    let outcome =
        batch_operations(&original, &modified, &config(), &disk).expect("planning should succeed");
    assert_eq!(1, outcome.len());
    assert_eq!("file_3.txt", outcome[0].source);
    assert_eq!("file_4.txt", outcome[0].destination);
}

#[test]
fn test_batch_operations_move_many() {
    let original = canonical("file_1.txt\nfile_2.txt\nother/other_file_1.txt\n");
    let modified = parsed("file_10.txt\nfile_20.txt\nother/other_file_10.txt\n");
    let disk = disk_of(&[
        "other",
        "file_1.txt",
        "file_2.txt",
        "other/other_file_1.txt",
    ]);
    let outcome =
        batch_operations(&original, &modified, &config(), &disk).expect("planning should succeed");
    assert_eq!(3, outcome.len());
    assert_eq!("file_1.txt", outcome[0].source);
    assert_eq!("file_10.txt", outcome[0].destination);
    assert_eq!("file_2.txt", outcome[1].source);
    assert_eq!("file_20.txt", outcome[1].destination);
    assert_eq!("other/other_file_1.txt", outcome[2].source);
    assert_eq!("other/other_file_10.txt", outcome[2].destination);
}

#[test]
fn test_destination_exists() {
    let original = canonical("keep.txt\nold.txt\n");
    let modified = parsed("keep.txt\nother/taken.txt\n");
    let disk = disk_of(&["keep.txt", "old.txt", "other", "other/taken.txt"]);
    match batch_operations(&original, &modified, &config(), &disk) {
        Err(PlanError::DestinationExists(p)) => assert_eq!("other/taken.txt", p),
        _ => panic!("expected DestinationExists"),
    }
}

#[test]
fn test_destination_exists_automatic_rename() {
    let original = canonical("keep.txt\nold.txt\n");
    let modified = parsed("keep.txt\nother/taken.txt\n");
    let disk = disk_of(&["keep.txt", "old.txt", "other", "other/taken.txt"]);
    let mut cfg = config();
    cfg.automatic_rename = true;
    let outcome =
        batch_operations(&original, &modified, &cfg, &disk).expect("planning should succeed");
    assert_eq!(1, outcome.len());
    assert_eq!("old.txt", outcome[0].source);
    assert_eq!("other/taken.txt", outcome[0].given_destination_path);
    assert_eq!("other/taken_1.txt", outcome[0].destination);
}

#[test]
fn test_destination_exists_automatic_rename_next_free() {
    let original = canonical("keep.txt\nold.txt\n");
    let modified = parsed("keep.txt\nother/taken.txt\n");
    let disk = disk_of(&[
        "keep.txt",
        "old.txt",
        "other",
        "other/taken.txt",
        "other/taken_1.txt",
    ]);
    let mut cfg = config();
    cfg.automatic_rename = true;
    let outcome =
        batch_operations(&original, &modified, &cfg, &disk).expect("planning should succeed");
    assert_eq!(1, outcome.len());
    assert_eq!("other/taken_2.txt", outcome[0].destination);
}

#[test]
fn test_missing_directories() {
    let original = canonical("a.txt\nb.txt\n");
    let modified = parsed("a.txt\nnew/sub/file.txt\n");
    let disk = disk_of(&["a.txt", "b.txt"]);
    match batch_operations(&original, &modified, &config(), &disk) {
        Err(PlanError::MissingDirectories(p)) => assert_eq!("new/sub/file.txt", p),
        _ => panic!("expected MissingDirectories"),
    }
}

#[test]
fn test_missing_directories_mkdir() {
    let original = canonical("a.txt\nb.txt\n");
    let modified = parsed("a.txt\nnew/sub/file.txt\n");
    let disk = disk_of(&["a.txt", "b.txt"]);
    let mut cfg = config();
    cfg.mkdir = true;
    let outcome =
        batch_operations(&original, &modified, &cfg, &disk).expect("planning should succeed");
    assert_eq!(1, outcome.len());
    assert_eq!("b.txt", outcome[0].source);
    assert_eq!("new/sub/file.txt", outcome[0].destination);
    assert_eq!(vec!["new".to_owned(), "new/sub".to_owned()], outcome[0].mkdirs);
}

#[test]
fn test_blank_lines_do_not_shift_correlation() {
    // blank lines in the edited buffer are ignored, not counted as ranks
    let original = canonical("a.txt\nb.txt\n");
    let modified = parsed("a.txt\n\nc.txt\n\n");
    let disk = disk_of(&["a.txt", "b.txt"]);
    let outcome =
        batch_operations(&original, &modified, &config(), &disk).expect("planning should succeed");
    assert_eq!(1, outcome.len());
    assert_eq!("b.txt", outcome[0].source);
    assert_eq!("c.txt", outcome[0].destination);
}

#[test]
fn test_autoname_and_mkdir_together() {
    let original = canonical("a.txt\nb.txt\n");
    let modified = parsed("a.txt\nnew/b.txt\n");
    // "new" exists as does the requested destination inside it
    let disk = disk_of(&["a.txt", "b.txt", "new", "new/b.txt", "new/sub-less.txt"]);
    let mut cfg = config();
    cfg.automatic_rename = true;
    cfg.mkdir = true;
    let outcome =
        batch_operations(&original, &modified, &cfg, &disk).expect("planning should succeed");
    assert_eq!(1, outcome.len());
    assert_eq!("new/b.txt", outcome[0].given_destination_path);
    assert_eq!("new/b_1.txt", outcome[0].destination);
    assert!(outcome[0].mkdirs.is_empty());
}

#[test]
fn test_error_messages() {
    assert_eq!(
        "original and modified listings differ in length",
        PlanError::CountMismatch.describe()
    );
    assert_eq!(
        "duplicate path: x.txt",
        PlanError::DuplicatePath("x.txt".to_owned()).describe()
    );
}
