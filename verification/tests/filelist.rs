use rnr_buf::filehierarchy::FileHierarchy;
use rnr_buf::filelist::FileList;

#[test]
fn test_new_from_raw() {
    let raw = "tmp/file_1.txt\ntmp/file_2.txt\ntmp/file_4.txt";

    if let Ok(result) = FileList::new_from_raw(raw.to_owned()) {
        let first = result.get_by_index(0).unwrap_or_else(|| {
            panic!("Failed to get the first item from the list.");
        });

        assert_eq!(3, result.list.len());
        assert_eq!("tmp/file_1.txt", first.source);
    } else {
        panic!("Failed to create FileList from raw data.");
    }
}

#[test]
#[should_panic]
fn test_duplicate_file() {
    let raw = "tmp/file_1.txt\ntmp/file_2.txt\ntmp/file_1.txt";
    let _ = FileList::new_from_raw(raw.to_owned()).unwrap_or_else(|err| {
        panic!(
            "Expected to fail with duplicate file error, but got: {:?}",
            err.describe()
        );
    });
}

#[test]
fn test_hierarchy() {
    let raw = "tmp/b.txt\ntmp/a.txt\ntmp/c.txt";
    let mut hierarchy =
        FileHierarchy::new_from_raw(raw.to_owned()).expect("hierarchy should parse");
    assert_eq!(3, hierarchy.list.len());

    // tentative positions are the line indices
    let by_line = hierarchy.get_by_index(1).expect("line 1 should be present");
    assert_eq!("tmp/a.txt", by_line.source);

    // canonicalization re-ranks by ascending path and rebuilds the buffer
    let canonical = hierarchy.enumerate();
    assert_eq!("tmp/a.txt\ntmp/b.txt\ntmp/c.txt\n", canonical.raw);
    let first = canonical.get_by_index(0).expect("rank 0 should be present");
    assert_eq!("tmp/a.txt", first.source);
    assert_eq!(0, first.position);
    let last = canonical.get_by_index(2).expect("rank 2 should be present");
    assert_eq!("tmp/c.txt", last.source);

    let by_file = canonical
        .get_by_file("tmp/b.txt")
        .expect("path lookup should succeed");
    assert_eq!(1, by_file.position);
    assert!(canonical.get_by_file("tmp/d.txt").is_none());
}

#[test]
fn test_parse_skips_blank_lines() {
    // blank lines are ignored and not counted when ranking
    let raw = "tmp/x.txt\n\ntmp/y.txt\n";
    let parsed = FileList::new_from_raw(raw.to_owned()).expect("should parse");
    assert_eq!(2, parsed.list.len());
    assert_eq!(
        "tmp/y.txt",
        parsed.get_by_index(1).expect("rank 1 present").source
    );
    assert_eq!(raw, parsed.raw);
}

#[test]
fn test_duplicate_anywhere_fails() {
    // a repeated line fails wherever the repetition occurs
    for raw in [
        "a\na\nb\nc",
        "a\nb\na\nc",
        "a\nb\nc\nc",
        "a\n\nb\n\na",
    ] {
        let result = FileList::new_from_raw(raw.to_owned());
        match result {
            Err(rnr_buf::errors::PlanError::DuplicatePath(_)) => {}
            _ => panic!("expected DuplicatePath for {:?}", raw),
        }
    }
}

#[test]
fn test_duplicate_error_names_the_line() {
    let raw = "a\nb\nb\nc\nc";
    match FileList::new_from_raw(raw.to_owned()) {
        Err(rnr_buf::errors::PlanError::DuplicatePath(p)) => assert_eq!("b", p),
        _ => panic!("expected DuplicatePath"),
    }
}

#[test]
fn test_insert_rejects_duplicates() {
    let mut list = FileList::new();
    assert!(list.insert("b".to_owned(), 0));
    assert!(list.insert("a".to_owned(), 1));
    assert!(!list.insert("a".to_owned(), 2));
    assert_eq!(2, list.list.len());
    // kept in ascending path order
    assert_eq!("a", list.list[0].source);
    assert_eq!("b", list.list[1].source);
}

#[test]
fn test_hierarchy_enumerate_idempotent() {
    let raw = "z\nm\na\n";
    let mut parsed = FileHierarchy::new_from_raw(raw.to_owned()).expect("should parse");
    let once = parsed.enumerate();
    let mut once_again = FileHierarchy::new_from_raw(once.raw.clone()).expect("should parse");
    let twice = once_again.enumerate();
    assert_eq!(once.raw, twice.raw);
    assert_eq!(once.list.len(), twice.list.len());
    for (a, b) in once.list.iter().zip(twice.list.iter()) {
        assert_eq!(a.source, b.source);
        assert_eq!(a.position, b.position);
    }
}

#[test]
fn test_enumerate_idempotent() {
    let raw = "z\nm\na\n";
    let mut once = FileList::new_from_raw(raw.to_owned()).expect("should parse");
    once.enumerate();
    let mut twice = FileList::new_from_raw(raw.to_owned()).expect("should parse");
    twice.enumerate();
    twice.enumerate();
    assert_eq!(once.raw, twice.raw);
    assert_eq!(once.list.len(), twice.list.len());
    for (a, b) in once.list.iter().zip(twice.list.iter()) {
        assert_eq!(a.source, b.source);
        assert_eq!(a.position, b.position);
    }
    assert_eq!("a\nm\nz\n", once.raw);
}
