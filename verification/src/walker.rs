//! The walk through a directory tree, one directory at a time.
//!
//! The walker decides; its caller reads the disk. The caller takes the next
//! directory from the walker, lists it, and hands the listing back; the
//! walker says which files were found and remembers which subdirectories to
//! read later.

use vstd::prelude::*;
use std::collections::VecDeque;
use std::path::PathBuf;
use crate::error::ScanError;
use crate::file::{Dir, File};
use crate::mode::ReccursionMode;
use crate::seq_lemmas::lemma_pick_push;

verus! {

/// What kind of thing a directory entry is.
#[derive(Debug, Clone, Copy, PartialEq, Eq, Structural)]
pub enum EntryKind {
    /// A regular file.
    File,
    /// A directory.
    Directory,
    /// Anything else, a symbolic link for one.
    Other,
}

/// What the walk reads of an entry's metadata.
#[derive(Debug, Clone, Copy, PartialEq, Eq, Structural)]
pub struct Metadata {
    pub kind: EntryKind,
    /// The length in bytes.
    pub len: u64,
}

/// One entry of a directory.
#[derive(Debug, Clone, PartialEq, Eq)]
pub struct Entry {
    pub path: PathBuf,
    /// The entry's metadata, or nothing where it could not be read.
    pub metadata: Option<Metadata>,
}

/// What listing a directory gave.
#[derive(Debug, Clone, PartialEq, Eq)]
pub enum Listing {
    /// The directory could not be read.
    Failed,
    /// The entries of the directory.
    Entries(Vec<Entry>),
}

/// What the walker makes of one listing.
#[derive(Debug, Clone, PartialEq, Eq)]
pub struct Found {
    /// The files to hand on, in the order of the listing.
    pub files: Vec<File>,
    /// What was left out, and why, in the order of the listing.
    pub errors: Vec<ScanError>,
}

/// An entry counts as a file of the scan when it is a regular file that is
/// not empty.
pub open spec fn is_found_file(entry: Entry) -> bool {
    entry.metadata matches Some(metadata) && metadata.kind is File && metadata.len > 0
}

/// The descriptor of an entry that is a file of the scan.
pub open spec fn found_file(entry: Entry) -> File {
    File { path: entry.path, size: entry.metadata->0.len, digest: None }
}

/// The files of the scan among the entries, in their order.
pub open spec fn found_files(entries: Seq<Entry>) -> Seq<File> {
    entries.filter(|entry: Entry| is_found_file(entry)).map_values(
        |entry: Entry| found_file(entry),
    )
}

/// The budget of a directory found in a directory of budget `budget`, or
/// nothing where the mode does not let the walk enter it.
pub open spec fn child_budget(mode: ReccursionMode, budget: u8) -> Option<u8> {
    match mode {
        ReccursionMode::NonRecursive => None,
        ReccursionMode::Limited { .. } => if budget > 0 {
            Some((budget - 1) as u8)
        } else {
            None
        },
        ReccursionMode::Unlimited => Some(0u8),
    }
}

/// An entry is entered when it is a directory and the mode allows it.
pub open spec fn is_entered(mode: ReccursionMode, budget: u8, entry: Entry) -> bool {
    entry.metadata matches Some(metadata) && metadata.kind is Directory && child_budget(
        mode,
        budget,
    ) is Some
}

/// The task for an entry that is entered.
pub open spec fn entered_dir(mode: ReccursionMode, budget: u8, entry: Entry) -> Dir {
    Dir { path: entry.path, depth: child_budget(mode, budget)->0 }
}

/// The directories to read later among the entries, in their order.
pub open spec fn entered_dirs(mode: ReccursionMode, budget: u8, entries: Seq<Entry>) -> Seq<Dir> {
    entries.filter(|entry: Entry| is_entered(mode, budget, entry)).map_values(
        |entry: Entry| entered_dir(mode, budget, entry),
    )
}

/// One error for each entry whose metadata could not be read, in their order.
pub open spec fn unusable(entries: Seq<Entry>) -> Seq<ScanError> {
    entries.filter(|entry: Entry| entry.metadata is None).map_values(
        |entry: Entry| ScanError::MetadataError { path: entry.path },
    )
}

/// The state of a walk.
pub struct WalkerView {
    pub mode: ReccursionMode,
    /// The directories still to read, the next one first.
    pub pending: Seq<Dir>,
}

/// A walk in progress: the mode, and the directories still to read.
pub struct Walker {
    mode: ReccursionMode,
    queue: VecDeque<Dir>,
}

impl View for Walker {
    type V = WalkerView;

    closed spec fn view(&self) -> WalkerView {
        WalkerView { mode: self.mode, pending: self.queue@ }
    }
}

impl Walker {
    /// A walk that starts at `root`, with the budget that the mode gives.
    pub fn new(root: PathBuf, mode: ReccursionMode) -> (walker: Walker)
        ensures
            walker@.mode == mode,
            walker@.pending == seq![Dir { path: root, depth: mode.spec_depth() }],
    {
        let mut queue: VecDeque<Dir> = VecDeque::new();
        queue.push_back(Dir { path: root, depth: mode.depth() });
        let walker = Walker { mode, queue };
        assert(walker@.pending =~= seq![Dir { path: root, depth: mode.spec_depth() }]);
        walker
    }

    /// The mode of the walk.
    pub fn mode(&self) -> (mode: ReccursionMode)
        ensures
            mode == self@.mode,
    {
        self.mode
    }

    /// Takes the next directory to read, or nothing when the walk is over.
    pub fn next_dir(&mut self) -> (next: Option<Dir>)
        ensures
            final(self)@.mode == old(self)@.mode,
            old(self)@.pending.len() == 0 ==> next is None && final(self)@.pending == old(self)@.pending,
            old(self)@.pending.len() > 0 ==> next == Some(old(self)@.pending[0]) && final(self)@.pending == old(self)@.pending.drop_first(),
    {
        let next = self.queue.pop_front();
        proof {
            if old(self)@.pending.len() > 0 {
                assert(self.queue@ =~= old(self)@.pending.drop_first());
            }
        }
        next
    }

    /// Takes in what listing `dir` gave.
    ///
    /// A listing that failed gives one error and changes nothing else. Of
    /// the entries of one that succeeded, each regular file that is not
    /// empty is found, each directory that the mode lets the walk enter is
    /// queued behind the directories already waiting, with the budget that
    /// is left, and each entry without metadata is reported and skipped.
    pub fn visit(&mut self, dir: &Dir, listing: Listing) -> (found: Found)
        ensures
            final(self)@.mode == old(self)@.mode,
            match listing {
                Listing::Failed => {
                    &&& found.files@ == Seq::<File>::empty()
                    &&& found.errors@ == seq![ScanError::DirectoryReadError { path: dir.path }]
                    &&& final(self)@.pending == old(self)@.pending
                },
                Listing::Entries(entries) => {
                    &&& found.files@ == found_files(entries@)
                    &&& found.errors@ == unusable(entries@)
                    &&& final(self)@.pending == old(self)@.pending + entered_dirs(
                        old(self)@.mode,
                        dir.depth,
                        entries@,
                    )
                },
            },
    {
        let mut files: Vec<File> = Vec::new();
        let mut errors: Vec<ScanError> = Vec::new();
        match listing {
            Listing::Failed => {
                errors.push(ScanError::DirectoryReadError { path: dir.path.clone() });
                assert(errors@ =~= seq![ScanError::DirectoryReadError { path: dir.path }]);
            },
            Listing::Entries(entries) => {
                let ghost all = entries@;
                let ghost mode = self.mode;
                let ghost waiting = self.queue@;
                let budget = self.child_budget(dir.depth);
                proof {
                    reveal(Seq::filter);
                    assert(all.take(0) =~= Seq::<Entry>::empty());
                    assert(found_files(all.take(0)) =~= Seq::<File>::empty());
                    assert(unusable(all.take(0)) =~= Seq::<ScanError>::empty());
                    assert(entered_dirs(mode, dir.depth, all.take(0)) =~= Seq::<Dir>::empty());
                    assert(self.queue@ =~= waiting + entered_dirs(mode, dir.depth, all.take(0)));
                }
                for entry in it: entries
                    invariant
                        it.seq() == all,
                        self.mode == mode,
                        budget == child_budget(mode, dir.depth),
                        files@ == found_files(all.take(it.index())),
                        errors@ == unusable(all.take(it.index())),
                        self.queue@ == waiting + entered_dirs(
                            mode,
                            dir.depth,
                            all.take(it.index()),
                        ),
                {
                    proof {
                        let done = all.take(it.index());
                        assert(all.take(it.index() + 1) == done.push(entry));
                        lemma_pick_push(
                            done,
                            entry,
                            |e: Entry| is_found_file(e),
                            |e: Entry| found_file(e),
                        );
                        lemma_pick_push(
                            done,
                            entry,
                            |e: Entry| e.metadata is None,
                            |e: Entry| ScanError::MetadataError { path: e.path },
                        );
                        lemma_pick_push(
                            done,
                            entry,
                            |e: Entry| is_entered(mode, dir.depth, e),
                            |e: Entry| entered_dir(mode, dir.depth, e),
                        );
                    }
                    match entry.metadata {
                        None => {
                            errors.push(ScanError::MetadataError { path: entry.path });
                        },
                        Some(metadata) => {
                            match metadata.kind {
                                EntryKind::File => {
                                    if metadata.len > 0 {
                                        files.push(
                                            File {
                                                path: entry.path,
                                                size: metadata.len,
                                                digest: None,
                                            },
                                        );
                                    }
                                },
                                EntryKind::Directory => {
                                    match budget {
                                        Some(depth) => {
                                            let ghost queued = self.queue@;
                                            self.queue.push_back(Dir { path: entry.path, depth });
                                            assert(self.queue@ =~= queued.push(
                                                entered_dir(mode, dir.depth, entry),
                                            ));
                                        },
                                        None => {},
                                    }
                                },
                                EntryKind::Other => {},
                            }
                        },
                    }
                    assert(self.queue@ =~= waiting + entered_dirs(
                        mode,
                        dir.depth,
                        all.take(it.index() + 1),
                    ));
                }
                assert(all.take(all.len() as int) == all);
            },
        }
        Found { files, errors }
    }

    /// The budget of a directory found in a directory of budget `budget`, or
    /// nothing where the mode does not let the walk enter it.
    fn child_budget(&self, budget: u8) -> (child: Option<u8>)
        ensures
            child == child_budget(self@.mode, budget),
    {
        if !self.mode.is_reccursive() {
            None
        } else if self.mode.is_unlimited() {
            Some(0)
        } else if budget == 0 {
            None
        } else {
            Some(budget - 1)
        }
    }
}

} // verus!
