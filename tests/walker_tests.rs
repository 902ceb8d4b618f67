use dup_finder::aggregate::ErrorKind;
use dup_finder::walker::{Entry, Walker, MIN_FILE_LEN};

#[test]
fn root_that_is_not_a_directory_walks_nothing() {
    let mut w = Walker::new("file.bin".to_string(), false);
    assert!(w.is_done());
    assert!(w.next_directory().is_none());
    let (jobs, errors) = w.finish();
    assert!(jobs.is_empty());
    assert!(errors.is_empty());
}

#[test]
fn small_files_are_skipped() {
    let mut w = Walker::new("/r".to_string(), true);
    assert_eq!(w.next_directory(), Some("/r".to_string()));
    assert_eq!(w.visit(Entry::File("/r/c.txt".to_string(), 10)), None);
    assert_eq!(w.visit(Entry::File("/r/d.bin".to_string(), MIN_FILE_LEN - 1)), None);
    assert_eq!(w.visit(Entry::File("/r/e.bin".to_string(), MIN_FILE_LEN)), Some("/r/e.bin".to_string()));
    let (jobs, errors) = w.finish();
    assert_eq!(jobs, vec!["/r/e.bin".to_string()]);
    assert!(errors.is_empty());
}

#[test]
fn subdirectories_are_listed_depth_first() {
    let mut w = Walker::new("/r".to_string(), true);
    assert_eq!(w.next_directory(), Some("/r".to_string()));
    assert_eq!(w.visit(Entry::Directory("/r/x".to_string())), None);
    assert_eq!(w.visit(Entry::Directory("/r/y".to_string())), None);
    assert_eq!(w.next_directory(), Some("/r/y".to_string()));
    assert_eq!(w.visit(Entry::Directory("/r/y/z".to_string())), None);
    assert_eq!(w.next_directory(), Some("/r/y/z".to_string()));
    assert_eq!(w.next_directory(), Some("/r/x".to_string()));
    assert!(w.is_done());
    assert_eq!(w.next_directory(), None);
}

#[test]
fn failures_are_recorded_and_the_walk_goes_on() {
    let mut w = Walker::new("/r".to_string(), true);
    w.next_directory();
    w.visit(Entry::Directory("/r/locked".to_string()));
    w.visit(Entry::Unreadable("/r/gone".to_string()));
    w.visit(Entry::Directory("/r/ok".to_string()));
    assert_eq!(w.next_directory(), Some("/r/ok".to_string()));
    assert_eq!(w.visit(Entry::File("/r/ok/a.bin".to_string(), 4096)), Some("/r/ok/a.bin".to_string()));
    assert_eq!(w.next_directory(), Some("/r/locked".to_string()));
    w.listing_failed("/r/locked".to_string());
    assert!(w.is_done());
    let (jobs, errors) = w.finish();
    assert_eq!(jobs, vec!["/r/ok/a.bin".to_string()]);
    assert_eq!(errors.len(), 2);
    assert_eq!(errors[0].kind, ErrorKind::Metadata);
    assert_eq!(errors[0].path, "/r/gone");
    assert_eq!(errors[1].kind, ErrorKind::DirectoryRead);
    assert_eq!(errors[1].path, "/r/locked");
}
