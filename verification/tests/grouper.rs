use std::path::PathBuf;

use dupfind::file::File;
use dupfind::grouper::{candidates, flatten, group, Criterion, DuplicateGroup};

fn sized(name: &str, size: u64) -> File {
    File::new(&PathBuf::from(name), size)
}

fn digested(name: &str, size: u64, digest: u64) -> File {
    File::new(&PathBuf::from(name), size).with_digest(digest)
}

fn names(group: &DuplicateGroup) -> Vec<String> {
    group.members().iter().map(|file| file.path.display().to_string()).collect()
}

#[test]
fn criterion_gives_size_or_digest() {
    let plain = sized("a", 10);
    let hashed = digested("b", 10, 77);
    assert_eq!(Criterion::Size.key(&plain), Some(10));
    assert_eq!(Criterion::Size.key(&hashed), Some(10));
    assert_eq!(Criterion::Digest.key(&plain), None);
    assert_eq!(Criterion::Digest.key(&hashed), Some(77));
}

#[test]
fn no_files_no_groups() {
    assert!(group(Vec::new(), Criterion::Size).is_empty());
    assert!(group(Vec::new(), Criterion::Digest).is_empty());
    assert!(candidates(Vec::new()).is_empty());
}

#[test]
fn files_of_unique_size_are_in_no_group() {
    let files = vec![sized("a", 1), sized("b", 2), sized("c", 3)];
    assert!(group(files.clone(), Criterion::Size).is_empty());
    assert!(candidates(files).is_empty());
}

#[test]
fn groups_by_size_in_order_first_seen() {
    let files = vec![
        sized("a", 5),
        sized("b", 9),
        sized("c", 7),
        sized("d", 9),
        sized("e", 5),
        sized("f", 9),
        sized("g", 1),
    ];
    let groups = group(files, Criterion::Size);
    assert_eq!(groups.len(), 2);
    assert_eq!(groups[0].key(), 5);
    assert_eq!(groups[0].by(), Criterion::Size);
    assert_eq!(names(&groups[0]), vec!["a", "e"]);
    assert_eq!(groups[1].key(), 9);
    assert_eq!(names(&groups[1]), vec!["b", "d", "f"]);
}

#[test]
fn groups_by_digest_and_skips_files_without_digest() {
    let files = vec![
        digested("a", 1, 100),
        sized("unhashed1", 1),
        digested("b", 1, 200),
        digested("c", 2, 100),
        sized("unhashed2", 1),
        digested("d", 1, 300),
        digested("e", 1, 200),
    ];
    let groups = group(files, Criterion::Digest);
    assert_eq!(groups.len(), 2);
    assert_eq!(groups[0].key(), 100);
    assert_eq!(groups[0].by(), Criterion::Digest);
    assert_eq!(names(&groups[0]), vec!["a", "c"]);
    assert_eq!(groups[1].key(), 200);
    assert_eq!(names(&groups[1]), vec!["b", "e"]);
}

#[test]
fn every_group_has_at_least_two_members_sharing_the_key() {
    let files: Vec<File> = (0..40u64).map(|i| sized(&format!("f{}", i), i % 7 + i / 30)).collect();
    let groups = group(files, Criterion::Size);
    assert!(!groups.is_empty());
    for g in &groups {
        assert!(g.members().len() >= 2);
        for member in g.members() {
            assert_eq!(member.size, g.key());
        }
    }
}

#[test]
fn into_members_gives_the_members() {
    let groups = group(vec![sized("a", 4), sized("b", 4)], Criterion::Size);
    assert_eq!(groups.len(), 1);
    let mut groups = groups;
    let members = groups.remove(0).into_members();
    assert_eq!(members, vec![sized("a", 4), sized("b", 4)]);
}

#[test]
fn flatten_joins_members_group_after_group() {
    let files = vec![sized("a", 5), sized("b", 9), sized("c", 5), sized("d", 9), sized("e", 2)];
    let flat = flatten(group(files, Criterion::Size));
    assert_eq!(flat, vec![sized("a", 5), sized("c", 5), sized("b", 9), sized("d", 9)]);
    assert!(flatten(Vec::new()).is_empty());
}

#[test]
fn candidates_are_the_files_that_share_a_size() {
    let files = vec![
        sized("a", 5),
        sized("b", 9),
        sized("c", 7),
        sized("d", 9),
        sized("e", 5),
        sized("f", 9),
    ];
    let found = candidates(files);
    assert_eq!(
        found,
        vec![sized("a", 5), sized("e", 5), sized("b", 9), sized("d", 9), sized("f", 9)]
    );
}

#[test]
fn arrival_order_changes_no_membership() {
    let files = vec![
        digested("a", 1, 10),
        digested("b", 1, 20),
        digested("c", 1, 10),
        digested("d", 1, 30),
        digested("e", 1, 20),
        digested("f", 1, 10),
    ];
    let mut reversed = files.clone();
    reversed.reverse();
    let forward = group(files, Criterion::Digest);
    let backward = group(reversed, Criterion::Digest);
    assert_eq!(forward.len(), backward.len());
    for g in &forward {
        let like = backward.iter().find(|h| h.key() == g.key()).expect("a group with the same key");
        let mut left = names(g);
        let mut right = names(like);
        left.sort();
        right.sort();
        assert_eq!(left, right);
    }
}

#[test]
fn same_descriptor_twice_is_a_group() {
    let groups = group(vec![sized("a", 3), sized("a", 3)], Criterion::Size);
    assert_eq!(groups.len(), 1);
    assert_eq!(names(&groups[0]), vec!["a", "a"]);
}
