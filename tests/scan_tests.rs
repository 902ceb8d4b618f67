use dup_finder::aggregate::{aggregate, ErrorKind, FileRecord, Report, ScanError, EXIT_OK, EXIT_PARTIAL};
use dup_finder::digest::{ContentHasher, FileDigest};
use dup_finder::render::render_report;
use dup_finder::walker::{Entry, Walker};
use std::collections::BTreeMap;
use std::collections::BTreeSet;

/// An in-memory tree: directories with their entries, file contents, and
/// directories that cannot be listed.
struct Tree {
    dirs: BTreeMap<String, Vec<String>>,
    files: BTreeMap<String, Vec<u8>>,
    locked: BTreeSet<String>,
}

impl Tree {
    fn new(root: &str) -> Tree {
        let mut dirs = BTreeMap::new();
        dirs.insert(root.to_string(), Vec::new());
        Tree { dirs, files: BTreeMap::new(), locked: BTreeSet::new() }
    }

    fn parent(path: &str) -> String {
        path[..path.rfind('/').unwrap()].to_string()
    }

    fn dir(&mut self, path: &str) {
        self.dirs.get_mut(&Tree::parent(path)).unwrap().push(path.to_string());
        self.dirs.insert(path.to_string(), Vec::new());
    }

    fn file(&mut self, path: &str, content: Vec<u8>) {
        self.dirs.get_mut(&Tree::parent(path)).unwrap().push(path.to_string());
        self.files.insert(path.to_string(), content);
    }
}

fn digest_of(content: &[u8]) -> FileDigest {
    let mut h = ContentHasher::new();
    for chunk in content.chunks(1024) {
        h.absorb(chunk);
    }
    h.finish()
}

fn scan(tree: &Tree, root: &str) -> Report {
    let mut w = Walker::new(root.to_string(), tree.dirs.contains_key(root));
    let mut jobs = Vec::new();
    while let Some(dir) = w.next_directory() {
        if tree.locked.contains(&dir) {
            w.listing_failed(dir);
            continue;
        }
        for entry in &tree.dirs[&dir] {
            let e = if tree.dirs.contains_key(entry) {
                Entry::Directory(entry.clone())
            } else {
                Entry::File(entry.clone(), tree.files[entry].len() as u64)
            };
            if let Some(p) = w.visit(e) {
                jobs.push(p);
            }
        }
    }
    let (issued, walk_errors) = w.finish();
    assert_eq!(issued, jobs);
    let outcomes: Vec<Result<FileRecord, ScanError>> = jobs
        .into_iter()
        .map(|p| {
            let digest = digest_of(&tree.files[&p]);
            Ok(FileRecord { path: p, digest })
        })
        .collect();
    aggregate(walk_errors, &outcomes)
}

fn group_sets(r: &Report) -> BTreeSet<BTreeSet<String>> {
    r.groups.iter().map(|g| g.paths.iter().cloned().collect()).collect()
}

fn record(path: &str, byte: u8) -> Result<FileRecord, ScanError> {
    Ok(FileRecord { path: path.to_string(), digest: digest_of(&vec![byte; 2048]) })
}

#[test]
fn scenario_two_equal_files_and_a_small_one() {
    let mut t = Tree::new("/r");
    t.file("/r/a.bin", vec![7u8; 2048]);
    t.file("/r/b.bin", vec![7u8; 2048]);
    t.file("/r/c.txt", b"0123456789".to_vec());
    let r = scan(&t, "/r");
    assert_eq!(r.groups.len(), 1);
    let paths: BTreeSet<String> = r.groups[0].paths.iter().cloned().collect();
    let want: BTreeSet<String> = ["/r/a.bin", "/r/b.bin"].iter().map(|s| s.to_string()).collect();
    assert_eq!(paths, want);
    assert_eq!(r.total_files, 2);
    assert!(r.errors.is_empty());
    assert_eq!(r.exit_status(), EXIT_OK);
    let text = render_report(&r.groups, r.total_files as u64);
    let g = &r.groups[0].paths;
    assert_eq!(text, format!("\n{}\n{}\n\nTotal files: 2\n", g[0], g[1]));
}

#[test]
fn scenario_empty_directory() {
    let t = Tree::new("/r");
    let r = scan(&t, "/r");
    assert!(r.groups.is_empty());
    assert_eq!(r.total_files, 0);
    assert_eq!(render_report(&r.groups, r.total_files as u64), "Total files: 0\n");
}

#[test]
fn scenario_nested_duplicates_at_different_depths() {
    let mut t = Tree::new("/root");
    t.dir("/root/x");
    t.dir("/root/y");
    t.dir("/root/y/z");
    t.file("/root/x/a.bin", vec![3u8; 1500]);
    t.file("/root/y/z/b.bin", vec![3u8; 1500]);
    let r = scan(&t, "/root");
    assert_eq!(r.groups.len(), 1);
    let paths: BTreeSet<String> = r.groups[0].paths.iter().cloned().collect();
    let want: BTreeSet<String> = ["/root/x/a.bin", "/root/y/z/b.bin"].iter().map(|s| s.to_string()).collect();
    assert_eq!(paths, want);
    assert_eq!(r.total_files, 2);
}

#[test]
fn scenario_unlistable_directory_beside_duplicates() {
    let mut t = Tree::new("/r");
    t.dir("/r/locked");
    t.dir("/r/ok");
    t.file("/r/ok/a.bin", vec![9u8; 4096]);
    t.file("/r/ok/b.bin", vec![9u8; 4096]);
    t.locked.insert("/r/locked".to_string());
    let r = scan(&t, "/r");
    assert_eq!(r.groups.len(), 1);
    assert_eq!(r.groups[0].paths.len(), 2);
    assert_eq!(r.total_files, 2);
    assert_eq!(r.errors.len(), 1);
    assert_eq!(r.errors[0].kind, ErrorKind::DirectoryRead);
    assert_eq!(r.errors[0].path, "/r/locked");
    assert_eq!(r.exit_status(), EXIT_PARTIAL);
}

#[test]
fn root_that_is_not_a_directory_reports_nothing() {
    let mut t = Tree::new("/r");
    t.file("/r/a.bin", vec![1u8; 2048]);
    let r = scan(&t, "/r/a.bin");
    assert!(r.groups.is_empty());
    assert_eq!(r.total_files, 0);
}

#[test]
fn small_files_never_counted_or_grouped() {
    let mut t = Tree::new("/r");
    t.file("/r/a", vec![5u8; 1023]);
    t.file("/r/b", vec![5u8; 1023]);
    t.file("/r/c", vec![5u8; 1024]);
    let r = scan(&t, "/r");
    assert!(r.groups.is_empty());
    assert_eq!(r.total_files, 1);
}

#[test]
fn total_counts_files_read_in_full() {
    let outcomes = vec![
        record("/r/a", 1),
        Err(ScanError { kind: ErrorKind::Open, path: "/r/b".to_string() }),
        record("/r/c", 2),
        Err(ScanError { kind: ErrorKind::Read, path: "/r/d".to_string() }),
    ];
    let walk = vec![ScanError { kind: ErrorKind::Metadata, path: "/r/e".to_string() }];
    let r = aggregate(walk, &outcomes);
    assert_eq!(r.total_files, 2);
    assert!(r.groups.is_empty());
    let kinds: Vec<ErrorKind> = r.errors.iter().map(|e| e.kind).collect();
    assert_eq!(kinds, vec![ErrorKind::Metadata, ErrorKind::Open, ErrorKind::Read]);
}

#[test]
fn groups_keep_completion_order_and_distinct_paths() {
    let outcomes = vec![
        record("/r/b", 1),
        record("/r/x", 2),
        record("/r/a", 1),
        record("/r/b", 1),
        record("/r/c", 1),
    ];
    let r = aggregate(Vec::new(), &outcomes);
    assert_eq!(r.groups.len(), 1);
    assert_eq!(r.groups[0].paths, vec!["/r/b".to_string(), "/r/a".to_string(), "/r/c".to_string()]);
    assert!(r.groups[0].digest.same_as(&digest_of(&vec![1u8; 2048])));
    assert_eq!(r.total_files, 4);
}

#[test]
fn rescanning_in_another_order_gives_the_same_groups() {
    let first = vec![record("/r/a", 1), record("/r/b", 2), record("/r/c", 1), record("/r/d", 2), record("/r/e", 3)];
    let second = vec![record("/r/d", 2), record("/r/e", 3), record("/r/c", 1), record("/r/b", 2), record("/r/a", 1)];
    let r1 = aggregate(Vec::new(), &first);
    let r2 = aggregate(Vec::new(), &second);
    assert_eq!(group_sets(&r1), group_sets(&r2));
    assert_eq!(group_sets(&r1).len(), 2);
    assert_eq!(r1.total_files, r2.total_files);
    assert_eq!(r1.total_files, 5);
}

#[test]
fn render_writes_each_group_framed_by_blank_lines() {
    let outcomes = vec![record("/a", 1), record("/b", 2), record("/c", 1), record("/d", 2), record("/e", 2)];
    let r = aggregate(Vec::new(), &outcomes);
    let text = render_report(&r.groups, 1234567);
    assert_eq!(text, "\n/a\n/c\n\n\n/b\n/d\n/e\n\nTotal files: 1234567\n");
}
