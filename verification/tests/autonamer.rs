use rnr_buf::filesystem::{file_autonamer, DiskState};

fn disk_of(paths: &[&str]) -> DiskState {
    let mut disk = DiskState::new();
    for p in paths {
        disk.record((*p).to_owned());
    }
    disk
}

#[test]
fn test_rename_no_match() {
    // a path that does not exist comes back unchanged
    let disk = disk_of(&["other.txt"]);
    assert_eq!("file_1.txt", file_autonamer("file_1.txt", &disk));
}

#[test]
fn test_rename_match() {
    let disk = disk_of(&["file_1.txt"]);
    assert_eq!("file_2.txt", file_autonamer("file_1.txt", &disk));
}

#[test]
fn test_rename_compound() {
    let disk = disk_of(&["file.txt"]);
    assert_eq!("file_1.txt", file_autonamer("file.txt", &disk));
}

#[test]
fn test_rename_utf8() {
    let disk = disk_of(&["👨.txt"]);
    assert_eq!("👨_1.txt", file_autonamer("👨.txt", &disk));
}

#[test]
fn test_rename_harder_match() {
    // "_1file9" has no numeric suffix: "1file9" is not a number
    let disk = disk_of(&["_1file9.txt"]);
    assert_eq!("_1file9_1.txt", file_autonamer("_1file9.txt", &disk));
}

#[test]
fn test_rename_no_extension() {
    let disk = disk_of(&["file"]);
    assert_eq!("file_1", file_autonamer("file", &disk));
}

#[test]
fn test_rename_skips_taken_numbers() {
    let disk = disk_of(&["file_1.txt", "file_2.txt", "file_3.txt"]);
    assert_eq!("file_4.txt", file_autonamer("file_1.txt", &disk));
}

#[test]
fn test_rename_keeps_directory() {
    let disk = disk_of(&["some/dir/report_7.pdf", "some/dir/report_8.pdf"]);
    assert_eq!(
        "some/dir/report_9.pdf",
        file_autonamer("some/dir/report_7.pdf", &disk)
    );
}

#[test]
fn test_rename_counter_continues_from_suffix() {
    // the counter starts from the existing numeric suffix, not from one
    let disk = disk_of(&["photo_41.png"]);
    assert_eq!("photo_42.png", file_autonamer("photo_41.png", &disk));
}
