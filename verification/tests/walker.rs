use std::path::PathBuf;

use dupfind::error::ScanError;
use dupfind::file::{Dir, File};
use dupfind::mode::ReccursionMode;
use dupfind::walker::{Entry, EntryKind, Found, Listing, Metadata, Walker};

fn file(name: &str, len: u64) -> Entry {
    Entry { path: PathBuf::from(name), metadata: Some(Metadata { kind: EntryKind::File, len }) }
}

fn dir(name: &str) -> Entry {
    Entry {
        path: PathBuf::from(name),
        metadata: Some(Metadata { kind: EntryKind::Directory, len: 4096 }),
    }
}

fn link(name: &str) -> Entry {
    Entry { path: PathBuf::from(name), metadata: Some(Metadata { kind: EntryKind::Other, len: 9 }) }
}

fn unknown(name: &str) -> Entry {
    Entry { path: PathBuf::from(name), metadata: None }
}

fn drain(walker: &mut Walker) -> Vec<Dir> {
    let mut dirs = Vec::new();
    while let Some(next) = walker.next_dir() {
        dirs.push(next);
    }
    dirs
}

#[test]
fn new_walker_starts_at_the_root_with_the_budget_of_the_mode() {
    let mut limited = Walker::new(PathBuf::from("/r"), ReccursionMode::Limited { depth: 3 });
    assert_eq!(limited.mode(), ReccursionMode::Limited { depth: 3 });
    assert_eq!(limited.next_dir(), Some(Dir { path: PathBuf::from("/r"), depth: 3 }));
    assert_eq!(limited.next_dir(), None);
    assert_eq!(limited.next_dir(), None);

    let mut flat = Walker::new(PathBuf::from("/r"), ReccursionMode::NonRecursive);
    assert_eq!(flat.next_dir(), Some(Dir { path: PathBuf::from("/r"), depth: 0 }));
    assert_eq!(flat.next_dir(), None);

    let mut unlimited = Walker::new(PathBuf::from("/r"), ReccursionMode::Unlimited);
    assert_eq!(unlimited.next_dir(), Some(Dir { path: PathBuf::from("/r"), depth: 0 }));
    assert_eq!(unlimited.next_dir(), None);
}

#[test]
fn failed_listing_gives_one_error_and_queues_nothing() {
    let mut walker = Walker::new(PathBuf::from("/r"), ReccursionMode::Unlimited);
    let root = walker.next_dir().unwrap();
    let found = walker.visit(&root, Listing::Failed);
    assert_eq!(
        found,
        Found {
            files: vec![],
            errors: vec![ScanError::DirectoryReadError { path: PathBuf::from("/r") }],
        }
    );
    assert_eq!(walker.next_dir(), None);
}

#[test]
fn empty_files_and_other_entries_are_passed_over() {
    let mut walker = Walker::new(PathBuf::from("/r"), ReccursionMode::Unlimited);
    let root = walker.next_dir().unwrap();
    let found = walker.visit(
        &root,
        Listing::Entries(vec![
            file("/r/empty", 0),
            file("/r/one", 1),
            link("/r/link"),
            file("/r/big", u64::MAX),
            file("/r/empty2", 0),
        ]),
    );
    assert_eq!(
        found.files,
        vec![
            File { path: PathBuf::from("/r/one"), size: 1, digest: None },
            File { path: PathBuf::from("/r/big"), size: u64::MAX, digest: None },
        ]
    );
    assert!(found.errors.is_empty());
    assert_eq!(walker.next_dir(), None);
}

#[test]
fn entry_without_metadata_is_reported_and_skipped() {
    let mut walker = Walker::new(PathBuf::from("/r"), ReccursionMode::Unlimited);
    let root = walker.next_dir().unwrap();
    let found = walker.visit(
        &root,
        Listing::Entries(vec![
            unknown("/r/x"),
            file("/r/a", 2),
            unknown("/r/y"),
            dir("/r/d"),
        ]),
    );
    assert_eq!(found.files, vec![File { path: PathBuf::from("/r/a"), size: 2, digest: None }]);
    assert_eq!(
        found.errors,
        vec![
            ScanError::MetadataError { path: PathBuf::from("/r/x") },
            ScanError::MetadataError { path: PathBuf::from("/r/y") },
        ]
    );
    assert_eq!(drain(&mut walker), vec![Dir { path: PathBuf::from("/r/d"), depth: 0 }]);
}

#[test]
fn non_recursive_walker_enters_no_directory() {
    let mut walker = Walker::new(PathBuf::from("/r"), ReccursionMode::NonRecursive);
    let root = walker.next_dir().unwrap();
    let found = walker.visit(&root, Listing::Entries(vec![dir("/r/d"), file("/r/a", 2), dir("/r/e")]));
    assert_eq!(found.files.len(), 1);
    assert_eq!(walker.next_dir(), None);
}

#[test]
fn unlimited_walker_enters_every_directory_with_budget_zero() {
    let mut walker = Walker::new(PathBuf::from("/r"), ReccursionMode::Unlimited);
    let root = walker.next_dir().unwrap();
    walker.visit(&root, Listing::Entries(vec![dir("/r/d"), file("/r/a", 2), dir("/r/e")]));
    let deep = Dir { path: PathBuf::from("/r/d"), depth: 0 };
    assert_eq!(walker.next_dir(), Some(deep.clone()));
    walker.visit(&deep, Listing::Entries(vec![dir("/r/d/x")]));
    assert_eq!(
        drain(&mut walker),
        vec![
            Dir { path: PathBuf::from("/r/e"), depth: 0 },
            Dir { path: PathBuf::from("/r/d/x"), depth: 0 },
        ]
    );
}

#[test]
fn limited_walker_counts_the_budget_down() {
    let mut walker = Walker::new(PathBuf::from("/r"), ReccursionMode::Limited { depth: 2 });
    let root = walker.next_dir().unwrap();
    assert_eq!(root.depth, 2);
    walker.visit(&root, Listing::Entries(vec![dir("/r/d")]));
    let first = walker.next_dir().unwrap();
    assert_eq!(first, Dir { path: PathBuf::from("/r/d"), depth: 1 });
    walker.visit(&first, Listing::Entries(vec![dir("/r/d/e")]));
    let second = walker.next_dir().unwrap();
    assert_eq!(second, Dir { path: PathBuf::from("/r/d/e"), depth: 0 });
    let found = walker.visit(
        &second,
        Listing::Entries(vec![dir("/r/d/e/f"), file("/r/d/e/a", 1)]),
    );
    assert_eq!(found.files, vec![File { path: PathBuf::from("/r/d/e/a"), size: 1, digest: None }]);
    assert_eq!(walker.next_dir(), None);
}

#[test]
fn limited_walker_with_depth_zero_stays_in_the_root() {
    let mut walker = Walker::new(PathBuf::from("/r"), ReccursionMode::Limited { depth: 0 });
    let root = walker.next_dir().unwrap();
    let found = walker.visit(&root, Listing::Entries(vec![dir("/r/d"), file("/r/a", 2)]));
    assert_eq!(found.files, vec![File { path: PathBuf::from("/r/a"), size: 2, digest: None }]);
    assert_eq!(walker.next_dir(), None);
}

#[test]
fn directories_are_read_first_in_first_out() {
    let mut walker = Walker::new(PathBuf::from("/r"), ReccursionMode::Limited { depth: 9 });
    let root = walker.next_dir().unwrap();
    walker.visit(&root, Listing::Entries(vec![dir("/r/1"), dir("/r/2"), dir("/r/3")]));
    let one = walker.next_dir().unwrap();
    assert_eq!(one, Dir { path: PathBuf::from("/r/1"), depth: 8 });
    walker.visit(&one, Listing::Entries(vec![dir("/r/1/a"), dir("/r/1/b")]));
    let two = walker.next_dir().unwrap();
    assert_eq!(two, Dir { path: PathBuf::from("/r/2"), depth: 8 });
    walker.visit(&two, Listing::Entries(vec![dir("/r/2/a")]));
    assert_eq!(
        drain(&mut walker),
        vec![
            Dir { path: PathBuf::from("/r/3"), depth: 8 },
            Dir { path: PathBuf::from("/r/1/a"), depth: 7 },
            Dir { path: PathBuf::from("/r/1/b"), depth: 7 },
            Dir { path: PathBuf::from("/r/2/a"), depth: 7 },
        ]
    );
}

#[test]
fn empty_listing_finds_nothing() {
    let mut walker = Walker::new(PathBuf::from("/r"), ReccursionMode::Unlimited);
    let root = walker.next_dir().unwrap();
    let found = walker.visit(&root, Listing::Entries(vec![]));
    assert_eq!(found, Found { files: vec![], errors: vec![] });
    assert_eq!(walker.next_dir(), None);
}
