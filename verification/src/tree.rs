//! What a walk finds in a directory tree.
//!
//! A tree is given as the walk would see it: each entry with, for a
//! directory, what listing it gives. `walk` runs the walker's own rules over
//! such a tree; the theorems below say which files it comes across.

use vstd::prelude::*;
use std::path::PathBuf;
use crate::file::{Dir, File};
use crate::mode::ReccursionMode;
use crate::seq_lemmas::{lemma_pick_contains, lemma_pick_push};
use crate::walker::{
    child_budget, entered_dir, entered_dirs, found_file, found_files, is_entered, is_found_file,
    Entry,
};

verus! {

/// An entry of a tree, with what lies below it.
pub struct Node {
    pub entry: Entry,
    /// For a directory, the entries that listing it gives, or nothing where
    /// listing it fails. It plays no part for other entries.
    pub below: Option<Seq<Node>>,
}

/// A directory waiting to be read, with what listing it will give.
pub struct Task {
    pub dir: Dir,
    pub listing: Option<Seq<Node>>,
}

/// The entries that a listing hands to the walker.
pub open spec fn entries_of(nodes: Seq<Node>) -> Seq<Entry> {
    nodes.map_values(|node: Node| node.entry)
}

/// The tasks that a listing adds to the queue: one for each entry that is
/// entered, in the order of the listing.
pub open spec fn entered_tasks(mode: ReccursionMode, budget: u8, nodes: Seq<Node>) -> Seq<Task> {
    nodes.filter(|node: Node| is_entered(mode, budget, node.entry)).map_values(
        |node: Node| Task { dir: entered_dir(mode, budget, node.entry), listing: node.below },
    )
}

/// The number of entries in a forest, at all levels.
pub open spec fn forest_size(nodes: Seq<Node>) -> nat
    decreases nodes,
{
    if nodes.len() == 0 {
        0
    } else {
        forest_size(nodes.drop_last()) + 1 + match nodes.last().below {
            Some(deeper) => forest_size(deeper),
            None => 0,
        }
    }
}

/// The number of directories and entries that a queue still holds.
pub open spec fn queue_size(queue: Seq<Task>) -> nat
    decreases queue.len(),
{
    if queue.len() == 0 {
        0
    } else {
        queue_size(queue.drop_last()) + 1 + match queue.last().listing {
            Some(nodes) => forest_size(nodes),
            None => 0,
        }
    }
}

/// The size of two queues put together.
proof fn lemma_queue_size_add(a: Seq<Task>, b: Seq<Task>)
    ensures
        queue_size(a + b) == queue_size(a) + queue_size(b),
    decreases b.len(),
{
    if b.len() == 0 {
        assert(a + b == a);
    } else {
        lemma_queue_size_add(a, b.drop_last());
        assert((a + b).drop_last() == a + b.drop_last());
    }
}

/// The tasks that a listing adds hold fewer entries than the listing.
proof fn lemma_entered_tasks_size(mode: ReccursionMode, budget: u8, nodes: Seq<Node>)
    ensures
        queue_size(entered_tasks(mode, budget, nodes)) <= forest_size(nodes),
    decreases nodes.len(),
{
    if nodes.len() == 0 {
        reveal(Seq::filter);
        assert(entered_tasks(mode, budget, nodes) =~= Seq::<Task>::empty());
    } else {
        let front = nodes.drop_last();
        let node = nodes.last();
        assert(nodes == front.push(node));
        lemma_entered_tasks_size(mode, budget, front);
        lemma_pick_push(
            front,
            node,
            |node: Node| is_entered(mode, budget, node.entry),
            |node: Node| Task { dir: entered_dir(mode, budget, node.entry), listing: node.below },
        );
        if is_entered(mode, budget, node.entry) {
            let task = Task { dir: entered_dir(mode, budget, node.entry), listing: node.below };
            assert(entered_tasks(mode, budget, front).push(task).drop_last() == entered_tasks(
                mode,
                budget,
                front,
            ));
        }
    }
}

/// Reading the first directory of a queue leaves a smaller queue.
proof fn lemma_step_shrinks(mode: ReccursionMode, queue: Seq<Task>)
    requires
        queue.len() > 0,
    ensures
        queue_size(queue.drop_first()) < queue_size(queue),
        queue[0].listing matches Some(nodes) ==> queue_size(
            queue.drop_first() + entered_tasks(mode, queue[0].dir.depth, nodes),
        ) < queue_size(queue),
{
    let head = seq![queue[0]];
    assert(queue == head + queue.drop_first());
    lemma_queue_size_add(head, queue.drop_first());
    assert(head.drop_last() =~= Seq::<Task>::empty());
    assert(queue_size(head.drop_last()) == 0);
    if let Some(nodes) = queue[0].listing {
        let added = entered_tasks(mode, queue[0].dir.depth, nodes);
        lemma_queue_size_add(queue.drop_first(), added);
        lemma_entered_tasks_size(mode, queue[0].dir.depth, nodes);
    }
}

/// The files that the walk finds when it reads the queued directories to
/// the end, in the order in which it finds them.
///
/// It takes the first directory off the queue. Where the listing fails, it
/// goes on with the rest. Where it succeeds, the files among its entries are
/// found, and the directories that are entered join the end of the queue.
pub open spec fn walk(mode: ReccursionMode, queue: Seq<Task>) -> Seq<File>
    decreases queue_size(queue),
    via walk_decreases
{
    if queue.len() == 0 {
        Seq::empty()
    } else {
        match queue[0].listing {
            None => walk(mode, queue.drop_first()),
            Some(nodes) => found_files(entries_of(nodes)) + walk(
                mode,
                queue.drop_first() + entered_tasks(mode, queue[0].dir.depth, nodes),
            ),
        }
    }
}

#[via_fn]
proof fn walk_decreases(mode: ReccursionMode, queue: Seq<Task>) {
    if queue.len() > 0 {
        lemma_step_shrinks(mode, queue);
    }
}

/// The files that a scan of the tree below `root` finds.
pub open spec fn scan(mode: ReccursionMode, root: PathBuf, listing: Option<Seq<Node>>) -> Seq<
    File,
> {
    walk(mode, seq![Task { dir: Dir { path: root, depth: mode.spec_depth() }, listing }])
}

/// Whether the walk looks at the entries `level` levels below a directory
/// of the given budget. Level 1 holds the directory's own entries.
pub open spec fn within(mode: ReccursionMode, budget: u8, level: nat) -> bool {
    level >= 1 && match mode {
        ReccursionMode::NonRecursive => level == 1,
        ReccursionMode::Limited { .. } => level <= budget + 1,
        ReccursionMode::Unlimited => true,
    }
}

/// Whether `file` describes a regular, non-empty file `level` levels below a
/// directory with these entries, behind directories whose listings succeed.
pub open spec fn lies_at(nodes: Seq<Node>, file: File, level: nat) -> bool
    decreases level,
{
    if level == 0 {
        false
    } else if level == 1 {
        exists|i: int|
            0 <= i < nodes.len() && is_found_file((#[trigger] nodes[i]).entry) && found_file(
                nodes[i].entry,
            ) == file
    } else {
        exists|i: int|
            0 <= i < nodes.len() && is_directory((#[trigger] nodes[i]).entry) && nodes[i].below
                is Some && lies_at(nodes[i].below->0, file, (level - 1) as nat)
    }
}

/// Whether an entry is a directory.
pub open spec fn is_directory(entry: Entry) -> bool {
    entry.metadata matches Some(metadata) && metadata.kind is Directory
}

/// Whether the walk, reading `task`, comes to `file` at the given level.
pub open spec fn task_reaches(mode: ReccursionMode, task: Task, file: File, level: nat) -> bool {
    task.listing is Some && within(mode, task.dir.depth, level) && lies_at(
        task.listing->0,
        file,
        level,
    )
}

/// Whether the walk comes to `file` from one of the queued directories.
pub open spec fn reaches(mode: ReccursionMode, queue: Seq<Task>, file: File) -> bool {
    exists|t: int, level: nat|
        0 <= t < queue.len() && #[trigger] task_reaches(mode, queue[t], file, level)
}

/// Looking one level deeper from a directory is looking from the
/// directories that are entered below it.
proof fn lemma_within_child(mode: ReccursionMode, budget: u8, level: nat)
    requires
        level >= 1,
    ensures
        within(mode, budget, level + 1) <==> child_budget(mode, budget) is Some && within(
            mode,
            child_budget(mode, budget)->0,
            level,
        ),
{
}

/// The walk comes to exactly the files that lie, at a level that the mode
/// lets it look at, below one of the queued directories.
pub proof fn lemma_walk_finds(mode: ReccursionMode, queue: Seq<Task>, file: File)
    ensures
        walk(mode, queue).contains(file) <==> reaches(mode, queue, file),
    decreases queue_size(queue),
{
    if queue.len() == 0 {
    } else {
        let rest = queue.drop_first();
        lemma_step_shrinks(mode, queue);
        match queue[0].listing {
            None => {
                lemma_walk_finds(mode, rest, file);
                if reaches(mode, rest, file) {
                    let (t, level) = choose|t: int, level: nat|
                        0 <= t < rest.len() && #[trigger] task_reaches(mode, rest[t], file, level);
                    assert(task_reaches(mode, queue[t + 1], file, level));
                }
                if reaches(mode, queue, file) {
                    let (t, level) = choose|t: int, level: nat|
                        0 <= t < queue.len() && #[trigger] task_reaches(
                            mode,
                            queue[t],
                            file,
                            level,
                        );
                    assert(task_reaches(mode, rest[t - 1], file, level));
                }
            },
            Some(nodes) => {
                let budget = queue[0].dir.depth;
                let here = found_files(entries_of(nodes));
                let added = entered_tasks(mode, budget, nodes);
                let next = rest + added;
                let later = walk(mode, next);
                lemma_walk_finds(mode, next, file);
                lemma_found_here(nodes, file);
                assert(walk(mode, queue) == here + later);
                if walk(mode, queue).contains(file) {
                    let k = choose|k: int| 0 <= k < (here + later).len() && (here + later)[k]
                        == file;
                    if k < here.len() {
                        assert(here[k] == file);
                        assert(task_reaches(mode, queue[0], file, 1));
                    } else {
                        assert(later[k - here.len()] == file);
                        let (t, level) = choose|t: int, level: nat|
                            0 <= t < next.len() && #[trigger] task_reaches(
                                mode,
                                next[t],
                                file,
                                level,
                            );
                        if t < rest.len() {
                            assert(task_reaches(mode, queue[t + 1], file, level));
                        } else {
                            let task = added[t - rest.len()];
                            assert(next[t] == task);
                            lemma_pick_contains(
                                nodes,
                                |node: Node| is_entered(mode, budget, node.entry),
                                |node: Node|
                                    Task {
                                        dir: entered_dir(mode, budget, node.entry),
                                        listing: node.below,
                                    },
                                task,
                            );
                            let i = choose|i: int|
                                0 <= i < nodes.len() && is_entered(
                                    mode,
                                    budget,
                                    (#[trigger] nodes[i]).entry,
                                ) && Task {
                                    dir: entered_dir(mode, budget, nodes[i].entry),
                                    listing: nodes[i].below,
                                } == task;
                            lemma_within_child(mode, budget, level);
                            assert(is_directory(nodes[i].entry));
                            assert(lies_at(nodes, file, level + 1));
                            assert(task_reaches(mode, queue[0], file, level + 1));
                        }
                    }
                }
                if reaches(mode, queue, file) {
                    let (t, level) = choose|t: int, level: nat|
                        0 <= t < queue.len() && #[trigger] task_reaches(
                            mode,
                            queue[t],
                            file,
                            level,
                        );
                    if t > 0 {
                        assert(task_reaches(mode, next[t - 1], file, level));
                        let k = choose|k: int| 0 <= k < later.len() && later[k] == file;
                        assert((here + later)[here.len() + k] == file);
                    } else if level == 1 {
                        let k = choose|k: int| 0 <= k < here.len() && here[k] == file;
                        assert((here + later)[k] == file);
                    } else {
                        let i = choose|i: int|
                            0 <= i < nodes.len() && is_directory((#[trigger] nodes[i]).entry)
                                && nodes[i].below is Some && lies_at(
                                nodes[i].below->0,
                                file,
                                (level - 1) as nat,
                            );
                        lemma_within_child(mode, budget, (level - 1) as nat);
                        let task = Task {
                            dir: entered_dir(mode, budget, nodes[i].entry),
                            listing: nodes[i].below,
                        };
                        lemma_pick_contains(
                            nodes,
                            |node: Node| is_entered(mode, budget, node.entry),
                            |node: Node|
                                Task {
                                    dir: entered_dir(mode, budget, node.entry),
                                    listing: node.below,
                                },
                            task,
                        );
                        assert(is_entered(mode, budget, nodes[i].entry));
                        let j = choose|j: int| 0 <= j < added.len() && added[j] == task;
                        assert(next[rest.len() + j] == task);
                        assert(task_reaches(mode, next[rest.len() + j], file, (level - 1) as nat));
                        let k = choose|k: int| 0 <= k < later.len() && later[k] == file;
                        assert((here + later)[here.len() + k] == file);
                    }
                }
            },
        }
    }
}

/// The files found in one listing are those that lie at its first level.
proof fn lemma_found_here(nodes: Seq<Node>, file: File)
    ensures
        found_files(entries_of(nodes)).contains(file) <==> lies_at(nodes, file, 1),
{
    let entries = entries_of(nodes);
    lemma_pick_contains(
        entries,
        |entry: Entry| is_found_file(entry),
        |entry: Entry| found_file(entry),
        file,
    );
    if found_files(entries).contains(file) {
        let i = choose|i: int|
            0 <= i < entries.len() && is_found_file(#[trigger] entries[i]) && found_file(entries[i])
                == file;
        assert(is_found_file(nodes[i].entry) && found_file(nodes[i].entry) == file);
    }
    if lies_at(nodes, file, 1) {
        let i = choose|i: int|
            0 <= i < nodes.len() && is_found_file((#[trigger] nodes[i]).entry) && found_file(
                nodes[i].entry,
            ) == file;
        assert(is_found_file(entries[i]) && found_file(entries[i]) == file);
    }
}

/// Without recursion a scan finds the files among the root's own entries,
/// and no file of any subdirectory.
pub proof fn lemma_non_recursive_scan(root: PathBuf, nodes: Seq<Node>, file: File)
    ensures
        scan(ReccursionMode::NonRecursive, root, Some(nodes)).contains(file) <==> lies_at(
            nodes,
            file,
            1,
        ),
{
    let mode = ReccursionMode::NonRecursive;
    let queue = seq![Task { dir: Dir { path: root, depth: mode.spec_depth() }, listing: Some(nodes) }];
    lemma_walk_finds(mode, queue, file);
    if reaches(mode, queue, file) {
        let (t, level) = choose|t: int, level: nat|
            0 <= t < queue.len() && #[trigger] task_reaches(mode, queue[t], file, level);
        assert(level == 1);
    }
    if lies_at(nodes, file, 1) {
        assert(task_reaches(mode, queue[0], file, 1));
    }
}

/// With a limit of `depth`, a scan finds the files that lie at most `depth`
/// directories below the root: the root's own entries are level 1, so these
/// are the levels up to `depth + 1`. No deeper file is found.
pub proof fn lemma_limited_scan(depth: u8, root: PathBuf, nodes: Seq<Node>, file: File)
    ensures
        scan(ReccursionMode::Limited { depth }, root, Some(nodes)).contains(file) <==> exists|
            level: nat,
        |
            1 <= level <= depth + 1 && #[trigger] lies_at(nodes, file, level),
{
    let mode = ReccursionMode::Limited { depth };
    let queue = seq![Task { dir: Dir { path: root, depth: mode.spec_depth() }, listing: Some(nodes) }];
    lemma_walk_finds(mode, queue, file);
    if reaches(mode, queue, file) {
        let (t, level) = choose|t: int, level: nat|
            0 <= t < queue.len() && #[trigger] task_reaches(mode, queue[t], file, level);
        assert(1 <= level <= depth + 1 && lies_at(nodes, file, level));
    }
    if exists|level: nat| 1 <= level <= depth + 1 && #[trigger] lies_at(nodes, file, level) {
        let level = choose|level: nat|
            1 <= level <= depth + 1 && #[trigger] lies_at(nodes, file, level);
        assert(task_reaches(mode, queue[0], file, level));
    }
}

/// Without a limit a scan finds the files at every level of the tree.
pub proof fn lemma_unlimited_scan(root: PathBuf, nodes: Seq<Node>, file: File)
    ensures
        scan(ReccursionMode::Unlimited, root, Some(nodes)).contains(file) <==> exists|level: nat|
            #[trigger] lies_at(nodes, file, level),
{
    let mode = ReccursionMode::Unlimited;
    let queue = seq![Task { dir: Dir { path: root, depth: mode.spec_depth() }, listing: Some(nodes) }];
    lemma_walk_finds(mode, queue, file);
    if reaches(mode, queue, file) {
        let (t, level) = choose|t: int, level: nat|
            0 <= t < queue.len() && #[trigger] task_reaches(mode, queue[t], file, level);
        assert(lies_at(nodes, file, level));
    }
    if exists|level: nat| #[trigger] lies_at(nodes, file, level) {
        let level = choose|level: nat| #[trigger] lies_at(nodes, file, level);
        assert(task_reaches(mode, queue[0], file, level));
    }
}

/// A directory whose listing fails hides what lies below it and nothing
/// else: the walk finds what it would find if that directory were not in
/// the queue.
pub proof fn lemma_unreadable_directory(
    mode: ReccursionMode,
    queue: Seq<Task>,
    at: int,
    file: File,
)
    requires
        0 <= at < queue.len(),
        queue[at].listing is None,
    ensures
        walk(mode, queue).contains(file) <==> walk(mode, queue.remove(at)).contains(file),
{
    let others = queue.remove(at);
    lemma_walk_finds(mode, queue, file);
    lemma_walk_finds(mode, others, file);
    if reaches(mode, queue, file) {
        let (t, level) = choose|t: int, level: nat|
            0 <= t < queue.len() && #[trigger] task_reaches(mode, queue[t], file, level);
        if t < at {
            assert(task_reaches(mode, others[t], file, level));
        } else {
            assert(task_reaches(mode, others[t - 1], file, level));
        }
    }
    if reaches(mode, others, file) {
        let (t, level) = choose|t: int, level: nat|
            0 <= t < others.len() && #[trigger] task_reaches(mode, others[t], file, level);
        if t < at {
            assert(task_reaches(mode, queue[t], file, level));
        } else {
            assert(task_reaches(mode, queue[t + 1], file, level));
        }
    }
}

/// A file that lies in a tree is not empty, and has no digest yet.
proof fn lemma_lying_file_is_fresh(nodes: Seq<Node>, file: File, level: nat)
    requires
        lies_at(nodes, file, level),
    ensures
        file.size > 0,
        file.digest is None,
    decreases level,
{
    if level > 1 {
        let i = choose|i: int|
            0 <= i < nodes.len() && is_directory((#[trigger] nodes[i]).entry) && nodes[i].below
                is Some && lies_at(nodes[i].below->0, file, (level - 1) as nat);
        lemma_lying_file_is_fresh(nodes[i].below->0, file, (level - 1) as nat);
    }
}

/// No walk finds an empty file: every file found has at least one byte, and
/// no digest yet.
pub proof fn lemma_walk_finds_no_empty_file(mode: ReccursionMode, queue: Seq<Task>, k: int)
    requires
        0 <= k < walk(mode, queue).len(),
    ensures
        walk(mode, queue)[k].size > 0,
        walk(mode, queue)[k].digest is None,
{
    let file = walk(mode, queue)[k];
    lemma_walk_finds(mode, queue, file);
    let (t, level) = choose|t: int, level: nat|
        0 <= t < queue.len() && #[trigger] task_reaches(mode, queue[t], file, level);
    lemma_lying_file_is_fresh(queue[t].listing->0, file, level);
}

/// The directories that a walker holds while the walk has this queue.
pub open spec fn dirs_of(queue: Seq<Task>) -> Seq<Dir> {
    queue.map_values(|task: Task| task.dir)
}

/// `walk` goes as a `Walker` goes. Where the walker holds the directories of
/// `queue`, takes the first and is handed the entries of its listing, the
/// directories that it then holds are those of the queue on which `walk`
/// goes on.
pub proof fn lemma_walk_follows_walker(mode: ReccursionMode, queue: Seq<Task>)
    requires
        queue.len() > 0,
        queue[0].listing is Some,
    ensures
        dirs_of(queue.drop_first() + entered_tasks(mode, queue[0].dir.depth, queue[0].listing->0))
            == dirs_of(queue).drop_first() + entered_dirs(
            mode,
            queue[0].dir.depth,
            entries_of(queue[0].listing->0),
        ),
{
    let nodes = queue[0].listing->0;
    lemma_entered_tasks_are_entered_dirs(mode, queue[0].dir.depth, nodes);
    assert(dirs_of(queue.drop_first() + entered_tasks(mode, queue[0].dir.depth, nodes))
        =~= dirs_of(queue).drop_first() + dirs_of(entered_tasks(mode, queue[0].dir.depth, nodes)));
}

/// The tasks that a listing adds are for the directories that the walker
/// queues.
proof fn lemma_entered_tasks_are_entered_dirs(mode: ReccursionMode, budget: u8, nodes: Seq<Node>)
    ensures
        dirs_of(entered_tasks(mode, budget, nodes)) == entered_dirs(
            mode,
            budget,
            entries_of(nodes),
        ),
    decreases nodes.len(),
{
    if nodes.len() == 0 {
        reveal(Seq::filter);
        assert(entries_of(nodes) =~= Seq::<Entry>::empty());
        assert(dirs_of(entered_tasks(mode, budget, nodes)) =~= entered_dirs(
            mode,
            budget,
            entries_of(nodes),
        ));
    } else {
        let front = nodes.drop_last();
        let node = nodes.last();
        assert(nodes == front.push(node));
        assert(entries_of(nodes) =~= entries_of(front).push(node.entry));
        lemma_entered_tasks_are_entered_dirs(mode, budget, front);
        lemma_pick_push(
            front,
            node,
            |node: Node| is_entered(mode, budget, node.entry),
            |node: Node| Task { dir: entered_dir(mode, budget, node.entry), listing: node.below },
        );
        lemma_pick_push(
            entries_of(front),
            node.entry,
            |entry: Entry| is_entered(mode, budget, entry),
            |entry: Entry| entered_dir(mode, budget, entry),
        );
        if is_entered(mode, budget, node.entry) {
            let task = Task { dir: entered_dir(mode, budget, node.entry), listing: node.below };
            assert(dirs_of(entered_tasks(mode, budget, front).push(task)) =~= dirs_of(
                entered_tasks(mode, budget, front),
            ).push(task.dir));
        }
    }
}

/// How often `file` lies, within reach of the walk, below a directory of
/// the given budget that has these entries.
pub open spec fn times_below(mode: ReccursionMode, budget: u8, nodes: Seq<Node>, file: File) -> nat
    decreases nodes,
{
    if nodes.len() == 0 {
        0
    } else {
        let node = nodes.last();
        let here: nat = if is_found_file(node.entry) && found_file(node.entry) == file {
            1
        } else {
            0
        };
        let deeper: nat = if is_entered(mode, budget, node.entry) {
            match node.below {
                Some(deeper) => times_below(mode, child_budget(mode, budget)->0, deeper, file),
                None => 0,
            }
        } else {
            0
        };
        times_below(mode, budget, nodes.drop_last(), file) + here + deeper
    }
}

/// How often `file` lies within reach of the walk below the queued
/// directories.
pub open spec fn times_reached(mode: ReccursionMode, queue: Seq<Task>, file: File) -> nat
    decreases queue.len(),
{
    if queue.len() == 0 {
        0
    } else {
        times_reached(mode, queue.drop_last(), file) + match queue.last().listing {
            Some(nodes) => times_below(mode, queue.last().dir.depth, nodes, file),
            None => 0,
        }
    }
}

/// What two queues put together reach.
proof fn lemma_times_reached_add(mode: ReccursionMode, a: Seq<Task>, b: Seq<Task>, file: File)
    ensures
        times_reached(mode, a + b, file) == times_reached(mode, a, file) + times_reached(
            mode,
            b,
            file,
        ),
    decreases b.len(),
{
    if b.len() == 0 {
        assert(a + b == a);
    } else {
        lemma_times_reached_add(mode, a, b.drop_last(), file);
        assert((a + b).drop_last() == a + b.drop_last());
    }
}

/// What lies below a directory lies among its own entries or below the
/// directories that are entered from it.
proof fn lemma_times_below_splits(mode: ReccursionMode, budget: u8, nodes: Seq<Node>, file: File)
    ensures
        times_below(mode, budget, nodes, file) == found_files(
            entries_of(nodes),
        ).to_multiset().count(file) + times_reached(
            mode,
            entered_tasks(mode, budget, nodes),
            file,
        ),
    decreases nodes.len(),
{
    if nodes.len() == 0 {
        reveal(Seq::filter);
        assert(entries_of(nodes) =~= Seq::<Entry>::empty());
        assert(found_files(entries_of(nodes)) =~= Seq::<File>::empty());
        assert(entered_tasks(mode, budget, nodes) =~= Seq::<Task>::empty());
        found_files(entries_of(nodes)).to_multiset_ensures();
    } else {
        let front = nodes.drop_last();
        let node = nodes.last();
        assert(nodes == front.push(node));
        assert(entries_of(nodes) =~= entries_of(front).push(node.entry));
        lemma_times_below_splits(mode, budget, front, file);
        lemma_pick_push(
            entries_of(front),
            node.entry,
            |entry: Entry| is_found_file(entry),
            |entry: Entry| found_file(entry),
        );
        lemma_pick_push(
            front,
            node,
            |node: Node| is_entered(mode, budget, node.entry),
            |node: Node| Task { dir: entered_dir(mode, budget, node.entry), listing: node.below },
        );
        found_files(entries_of(front)).to_multiset_ensures();
        if is_entered(mode, budget, node.entry) {
            let task = Task { dir: entered_dir(mode, budget, node.entry), listing: node.below };
            assert(entered_tasks(mode, budget, front).push(task).drop_last() == entered_tasks(
                mode,
                budget,
                front,
            ));
        }
    }
}

/// The walk finds each file as often as it lies within its reach: a file
/// that lies in the tree once is found once.
pub proof fn lemma_walk_counts(mode: ReccursionMode, queue: Seq<Task>, file: File)
    ensures
        walk(mode, queue).to_multiset().count(file) == times_reached(mode, queue, file),
    decreases queue_size(queue),
{
    if queue.len() == 0 {
        walk(mode, queue).to_multiset_ensures();
    } else {
        let rest = queue.drop_first();
        let head = seq![queue[0]];
        lemma_step_shrinks(mode, queue);
        assert(queue == head + rest);
        lemma_times_reached_add(mode, head, rest, file);
        assert(head.drop_last() =~= Seq::<Task>::empty());
        assert(times_reached(mode, head.drop_last(), file) == 0);
        match queue[0].listing {
            None => {
                lemma_walk_counts(mode, rest, file);
            },
            Some(nodes) => {
                let budget = queue[0].dir.depth;
                let here = found_files(entries_of(nodes));
                let added = entered_tasks(mode, budget, nodes);
                lemma_walk_counts(mode, rest + added, file);
                lemma_times_reached_add(mode, rest, added, file);
                lemma_times_below_splits(mode, budget, nodes, file);
                vstd::seq_lib::lemma_multiset_commutative(here, walk(mode, rest + added));
            },
        }
    }
}

} // verus!
