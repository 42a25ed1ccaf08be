use std::collections::HashMap;
use std::path::PathBuf;

use dupfind::digest::hash_file;
use dupfind::error::ScanError;
use dupfind::file::File;
use dupfind::grouper::{candidates, group, Criterion, DuplicateGroup};
use dupfind::mode::ReccursionMode;
use dupfind::walker::{Entry, EntryKind, Listing, Metadata, Walker};

/// A directory tree held in memory, standing in for the disk.
struct Disk {
    /// The entries of each directory that can be listed.
    dirs: HashMap<PathBuf, Vec<PathBuf>>,
    /// The content of each file.
    files: HashMap<PathBuf, Vec<u8>>,
    /// Directories whose listing fails.
    locked: Vec<PathBuf>,
    /// Files that were found but cannot be read.
    unreadable: Vec<PathBuf>,
}

impl Disk {
    fn new(root: &str) -> Disk {
        let mut dirs = HashMap::new();
        dirs.insert(PathBuf::from(root), Vec::new());
        Disk { dirs, files: HashMap::new(), locked: Vec::new(), unreadable: Vec::new() }
    }

    fn add_dir(&mut self, path: &str) {
        let path = PathBuf::from(path);
        let parent = path.parent().unwrap().to_path_buf();
        self.dirs.get_mut(&parent).unwrap().push(path.clone());
        self.dirs.insert(path, Vec::new());
    }

    fn add_file(&mut self, path: &str, content: &[u8]) {
        let path = PathBuf::from(path);
        let parent = path.parent().unwrap().to_path_buf();
        self.dirs.get_mut(&parent).unwrap().push(path.clone());
        self.files.insert(path, content.to_vec());
    }

    fn list(&self, path: &PathBuf) -> Listing {
        if self.locked.contains(path) {
            return Listing::Failed;
        }
        match self.dirs.get(path) {
            None => Listing::Failed,
            Some(children) => Listing::Entries(
                children
                    .iter()
                    .map(|child| {
                        let metadata = if self.dirs.contains_key(child) {
                            Metadata { kind: EntryKind::Directory, len: 0 }
                        } else {
                            Metadata { kind: EntryKind::File, len: self.files[child].len() as u64 }
                        };
                        Entry { path: child.clone(), metadata: Some(metadata) }
                    })
                    .collect(),
            ),
        }
    }

    fn read(&self, path: &PathBuf) -> Option<Vec<u8>> {
        if self.unreadable.contains(path) {
            None
        } else {
            self.files.get(path).cloned()
        }
    }
}

fn walk(disk: &Disk, root: &str, mode: ReccursionMode) -> (Vec<File>, Vec<ScanError>) {
    let mut walker = Walker::new(PathBuf::from(root), mode);
    let mut files = Vec::new();
    let mut errors = Vec::new();
    while let Some(dir) = walker.next_dir() {
        let found = walker.visit(&dir, disk.list(&dir.path));
        files.extend(found.files);
        errors.extend(found.errors);
    }
    (files, errors)
}

fn scan(disk: &Disk, root: &str, mode: ReccursionMode) -> (Vec<DuplicateGroup>, Vec<ScanError>) {
    let (files, mut errors) = walk(disk, root, mode);
    let mut hashed = Vec::new();
    for file in candidates(files) {
        let content = disk.read(&file.path);
        match hash_file(file, content) {
            Ok(file) => hashed.push(file),
            Err(error) => errors.push(error),
        }
    }
    (group(hashed, Criterion::Digest), errors)
}

fn paths(group: &DuplicateGroup) -> Vec<PathBuf> {
    let mut paths: Vec<PathBuf> = group.members().iter().map(|file| file.path.clone()).collect();
    paths.sort();
    paths
}

fn found_paths(files: &[File]) -> Vec<PathBuf> {
    let mut paths: Vec<PathBuf> = files.iter().map(|file| file.path.clone()).collect();
    paths.sort();
    paths
}

fn sample() -> Disk {
    let mut disk = Disk::new("/root");
    disk.add_file("/root/a.txt", b"X");
    disk.add_file("/root/b.txt", b"X");
    disk.add_file("/root/c.txt", b"Y");
    disk.add_dir("/root/sub");
    disk.add_file("/root/sub/d.txt", b"X");
    disk
}

fn deep() -> Disk {
    let mut disk = Disk::new("/r");
    disk.add_file("/r/f1", b"one");
    disk.add_dir("/r/d1");
    disk.add_file("/r/d1/f2", b"two");
    disk.add_dir("/r/d1/d2");
    disk.add_file("/r/d1/d2/f3", b"three");
    disk.add_dir("/r/d1/d2/d3");
    disk.add_file("/r/d1/d2/d3/f4", b"four");
    disk.add_dir("/r/d1/d2/d3/d4");
    disk.add_file("/r/d1/d2/d3/d4/f5", b"five");
    disk.add_file("/r/empty", b"");
    disk.add_file("/r/d1/empty", b"");
    disk
}

#[test]
fn non_recursive_scan_reports_the_two_copies_in_the_root() {
    let (groups, errors) = scan(&sample(), "/root", ReccursionMode::NonRecursive);
    assert!(errors.is_empty());
    assert_eq!(groups.len(), 1);
    assert_eq!(
        paths(&groups[0]),
        vec![PathBuf::from("/root/a.txt"), PathBuf::from("/root/b.txt")]
    );
    assert_eq!(groups[0].key(), seahash::hash(b"X"));
}

#[test]
fn unlimited_scan_reports_the_copy_in_the_subdirectory_too() {
    let (groups, errors) = scan(&sample(), "/root", ReccursionMode::Unlimited);
    assert!(errors.is_empty());
    assert_eq!(groups.len(), 1);
    assert_eq!(
        paths(&groups[0]),
        vec![
            PathBuf::from("/root/a.txt"),
            PathBuf::from("/root/b.txt"),
            PathBuf::from("/root/sub/d.txt"),
        ]
    );
}

#[test]
fn limited_scan_with_depth_one_reads_the_subdirectory() {
    let (groups, _) = scan(&sample(), "/root", ReccursionMode::Limited { depth: 1 });
    assert_eq!(groups.len(), 1);
    assert_eq!(groups[0].members().len(), 3);
    let (groups, _) = scan(&sample(), "/root", ReccursionMode::Limited { depth: 0 });
    assert_eq!(groups.len(), 1);
    assert_eq!(groups[0].members().len(), 2);
}

#[test]
fn same_size_with_other_bytes_is_no_duplicate() {
    let mut disk = Disk::new("/r");
    disk.add_file("/r/one", b"abcd");
    disk.add_file("/r/two", b"abce");
    let (files, _) = walk(&disk, "/r", ReccursionMode::NonRecursive);
    assert_eq!(candidates(files).len(), 2);
    let (groups, errors) = scan(&disk, "/r", ReccursionMode::NonRecursive);
    assert!(groups.is_empty());
    assert!(errors.is_empty());
}

#[test]
fn same_size_groups_only_equal_bytes() {
    let mut disk = Disk::new("/r");
    disk.add_file("/r/1", b"aaaa");
    disk.add_file("/r/2", b"bbbb");
    disk.add_file("/r/3", b"aaaa");
    disk.add_file("/r/4", b"bbbb");
    disk.add_file("/r/5", b"cccc");
    let (groups, _) = scan(&disk, "/r", ReccursionMode::NonRecursive);
    assert_eq!(groups.len(), 2);
    assert_eq!(paths(&groups[0]), vec![PathBuf::from("/r/1"), PathBuf::from("/r/3")]);
    assert_eq!(paths(&groups[1]), vec![PathBuf::from("/r/2"), PathBuf::from("/r/4")]);
}

#[test]
fn empty_files_are_never_found_nor_reported() {
    let mut disk = Disk::new("/r");
    disk.add_file("/r/e1", b"");
    disk.add_file("/r/e2", b"");
    disk.add_dir("/r/d");
    disk.add_file("/r/d/e3", b"");
    disk.add_file("/r/x", b"x");
    let (files, _) = walk(&disk, "/r", ReccursionMode::Unlimited);
    assert_eq!(found_paths(&files), vec![PathBuf::from("/r/x")]);
    let (groups, _) = scan(&disk, "/r", ReccursionMode::Unlimited);
    assert!(groups.is_empty());
}

#[test]
fn non_recursive_walk_finds_only_the_root_files() {
    let (files, _) = walk(&deep(), "/r", ReccursionMode::NonRecursive);
    assert_eq!(found_paths(&files), vec![PathBuf::from("/r/f1")]);
}

#[test]
fn limited_walk_finds_files_down_to_its_depth_and_none_deeper() {
    let expected = [
        vec!["/r/f1"],
        vec!["/r/d1/f2", "/r/f1"],
        vec!["/r/d1/d2/f3", "/r/d1/f2", "/r/f1"],
        vec!["/r/d1/d2/d3/f4", "/r/d1/d2/f3", "/r/d1/f2", "/r/f1"],
        vec!["/r/d1/d2/d3/d4/f5", "/r/d1/d2/d3/f4", "/r/d1/d2/f3", "/r/d1/f2", "/r/f1"],
        vec!["/r/d1/d2/d3/d4/f5", "/r/d1/d2/d3/f4", "/r/d1/d2/f3", "/r/d1/f2", "/r/f1"],
    ];
    for (depth, names) in expected.iter().enumerate() {
        let (files, _) = walk(&deep(), "/r", ReccursionMode::Limited { depth: depth as u8 });
        let names: Vec<PathBuf> = names.iter().map(PathBuf::from).collect();
        assert_eq!(found_paths(&files), names, "depth {}", depth);
    }
}

#[test]
fn unlimited_walk_finds_files_at_every_level() {
    let (files, errors) = walk(&deep(), "/r", ReccursionMode::Unlimited);
    assert!(errors.is_empty());
    assert_eq!(
        found_paths(&files),
        vec![
            PathBuf::from("/r/d1/d2/d3/d4/f5"),
            PathBuf::from("/r/d1/d2/d3/f4"),
            PathBuf::from("/r/d1/d2/f3"),
            PathBuf::from("/r/d1/f2"),
            PathBuf::from("/r/f1"),
        ]
    );
}

#[test]
fn walk_finds_files_level_by_level() {
    let (files, _) = walk(&deep(), "/r", ReccursionMode::Unlimited);
    let order: Vec<PathBuf> = files.iter().map(|file| file.path.clone()).collect();
    assert_eq!(
        order,
        vec![
            PathBuf::from("/r/f1"),
            PathBuf::from("/r/d1/f2"),
            PathBuf::from("/r/d1/d2/f3"),
            PathBuf::from("/r/d1/d2/d3/f4"),
            PathBuf::from("/r/d1/d2/d3/d4/f5"),
        ]
    );
}

#[test]
fn scanning_twice_reports_the_same_groups() {
    let disk = sample();
    let (first, _) = scan(&disk, "/root", ReccursionMode::Unlimited);
    let (second, _) = scan(&disk, "/root", ReccursionMode::Unlimited);
    assert_eq!(first, second);
}

#[test]
fn unreadable_directory_hides_its_files_and_no_others() {
    let mut disk = Disk::new("/r");
    disk.add_file("/r/a", b"same");
    disk.add_dir("/r/locked");
    disk.add_file("/r/locked/b", b"same");
    disk.add_dir("/r/locked/inner");
    disk.add_file("/r/locked/inner/c", b"same");
    disk.add_dir("/r/open");
    disk.add_file("/r/open/d", b"same");
    disk.locked.push(PathBuf::from("/r/locked"));
    let (groups, errors) = scan(&disk, "/r", ReccursionMode::Unlimited);
    assert_eq!(errors, vec![ScanError::DirectoryReadError { path: PathBuf::from("/r/locked") }]);
    assert_eq!(groups.len(), 1);
    assert_eq!(paths(&groups[0]), vec![PathBuf::from("/r/a"), PathBuf::from("/r/open/d")]);
}

#[test]
fn unreadable_root_gives_no_group_and_one_error() {
    let mut disk = sample();
    disk.locked.push(PathBuf::from("/root"));
    let (groups, errors) = scan(&disk, "/root", ReccursionMode::Unlimited);
    assert!(groups.is_empty());
    assert_eq!(errors, vec![ScanError::DirectoryReadError { path: PathBuf::from("/root") }]);
}

#[test]
fn unreadable_file_is_left_out_and_reported() {
    let mut disk = Disk::new("/r");
    disk.add_file("/r/a", b"same");
    disk.add_file("/r/b", b"same");
    disk.add_file("/r/c", b"same");
    disk.unreadable.push(PathBuf::from("/r/b"));
    let (groups, errors) = scan(&disk, "/r", ReccursionMode::NonRecursive);
    assert_eq!(errors, vec![ScanError::FileReadError { path: PathBuf::from("/r/b") }]);
    assert_eq!(groups.len(), 1);
    assert_eq!(paths(&groups[0]), vec![PathBuf::from("/r/a"), PathBuf::from("/r/c")]);
}

#[test]
fn files_of_unique_size_are_not_candidates() {
    let mut disk = Disk::new("/r");
    disk.add_file("/r/short", b"1");
    disk.add_file("/r/long", b"12345");
    disk.add_file("/r/pair1", b"123");
    disk.add_file("/r/pair2", b"321");
    let (files, _) = walk(&disk, "/r", ReccursionMode::NonRecursive);
    let found = candidates(files);
    assert_eq!(found_paths(&found), vec![PathBuf::from("/r/pair1"), PathBuf::from("/r/pair2")]);
}
