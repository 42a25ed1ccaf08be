//! Grouping of files by size, then by digest.

use vstd::prelude::*;
use std::collections::HashMap;
use crate::file::File;
use crate::seq_lemmas::lemma_filter_push;

verus! {

/// What files are grouped by.
#[derive(Debug, Clone, Copy, PartialEq, Eq, Structural)]
pub enum Criterion {
    /// The length in bytes: the cheap first pass.
    Size,
    /// The digest of the content: the exact second pass.
    Digest,
}

impl Criterion {
    /// The key a file goes by under this criterion; a file that has not been
    /// hashed has no key under `Digest`.
    pub open spec fn spec_key(self, file: File) -> Option<u64> {
        match self {
            Criterion::Size => Some(file.size),
            Criterion::Digest => file.digest,
        }
    }

    /// The key a file goes by under this criterion.
    pub fn key(&self, file: &File) -> (key: Option<u64>)
        ensures
            key == self.spec_key(*file),
    {
        match self {
            Criterion::Size => Some(file.size),
            Criterion::Digest => file.digest,
        }
    }
}

/// The mathematical content of a group: its criterion, its key, and its
/// members in the order in which they arrived.
pub struct GroupView {
    pub by: Criterion,
    pub key: u64,
    pub members: Seq<File>,
}

/// Files that go by one key, at least two of them.
#[derive(Debug, Clone, PartialEq, Eq)]
pub struct DuplicateGroup {
    by: Criterion,
    key: u64,
    members: Vec<File>,
}

impl View for DuplicateGroup {
    type V = GroupView;

    closed spec fn view(&self) -> GroupView {
        GroupView { by: self.by, key: self.key, members: self.members@ }
    }
}

impl DuplicateGroup {
    /// A group is well formed when it has more than one member and each
    /// member goes by the group's key.
    pub open spec fn wf(&self) -> bool {
        &&& self@.members.len() >= 2
        &&& forall|i: int|
            0 <= i < self@.members.len() ==> self@.by.spec_key(#[trigger] self@.members[i]) == Some(
                self@.key,
            )
    }

    /// The criterion the members were grouped by.
    pub fn by(&self) -> (by: Criterion)
        ensures
            by == self@.by,
    {
        self.by
    }

    /// The key that the members share.
    pub fn key(&self) -> (key: u64)
        ensures
            key == self@.key,
    {
        self.key
    }

    /// The members, in the order in which they arrived.
    pub fn members(&self) -> (members: &Vec<File>)
        ensures
            members@ == self@.members,
    {
        &self.members
    }

    /// Gives up the group for its members.
    pub fn into_members(self) -> (members: Vec<File>)
        ensures
            members@ == self@.members,
    {
        self.members
    }
}

/// The files that go by `key`, in the order in which they arrived.
pub open spec fn members_of(files: Seq<File>, by: Criterion, key: u64) -> Seq<File> {
    files.filter(|file: File| by.spec_key(file) == Some(key))
}

/// The keys that occur among the files, each once, in the order in which
/// each was first seen.
pub open spec fn keys_in_order(files: Seq<File>, by: Criterion) -> Seq<u64>
    decreases files.len(),
{
    if files.len() == 0 {
        Seq::empty()
    } else {
        let earlier = keys_in_order(files.drop_last(), by);
        match by.spec_key(files.last()) {
            Some(key) => if earlier.contains(key) {
                earlier
            } else {
                earlier.push(key)
            },
            None => earlier,
        }
    }
}

/// The group of the files that go by `key`, whatever its size.
pub open spec fn group_for(files: Seq<File>, by: Criterion, key: u64) -> GroupView {
    GroupView { by, key, members: members_of(files, by, key) }
}

/// One group for each key that occurs, in the order in which the keys were
/// first seen.
pub open spec fn all_groups(files: Seq<File>, by: Criterion) -> Seq<GroupView> {
    keys_in_order(files, by).map_values(|key: u64| group_for(files, by, key))
}

/// The groups that have more than one member.
pub open spec fn duplicate_groups(files: Seq<File>, by: Criterion) -> Seq<GroupView> {
    all_groups(files, by).filter(|group: GroupView| group.members.len() >= 2)
}

/// The views of a sequence of groups.
pub open spec fn views(groups: Seq<DuplicateGroup>) -> Seq<GroupView> {
    groups.map_values(|group: DuplicateGroup| group@)
}

/// All the members of the groups, group after group.
pub open spec fn all_members(groups: Seq<GroupView>) -> Seq<File> {
    groups.map_values(|group: GroupView| group.members).flatten()
}

/// What one more file does to the groups of all keys.
proof fn lemma_all_groups_push(files: Seq<File>, file: File, by: Criterion)
    ensures
        keys_in_order(files.push(file), by) == match by.spec_key(file) {
            Some(key) => if keys_in_order(files, by).contains(key) {
                keys_in_order(files, by)
            } else {
                keys_in_order(files, by).push(key)
            },
            None => keys_in_order(files, by),
        },
        forall|key: u64| #[trigger]
            members_of(files.push(file), by, key) == if by.spec_key(file) == Some(key) {
                members_of(files, by, key).push(file)
            } else {
                members_of(files, by, key)
            },
{
    assert(files.push(file).drop_last() == files);
    assert forall|key: u64| #[trigger]
        members_of(files.push(file), by, key) == if by.spec_key(file) == Some(key) {
            members_of(files, by, key).push(file)
        } else {
            members_of(files, by, key)
        } by {
        lemma_filter_push(files, file, |f: File| by.spec_key(f) == Some(key));
    }
}

/// The keys that were seen are those that some file goes by.
pub proof fn lemma_key_is_seen(files: Seq<File>, by: Criterion, key: u64)
    ensures
        keys_in_order(files, by).contains(key) <==> members_of(files, by, key).len() > 0,
    decreases files.len(),
{
    reveal(Seq::filter);
    if files.len() > 0 {
        let earlier = files.drop_last();
        lemma_key_is_seen(earlier, by, key);
        let keys = keys_in_order(earlier, by);
        match by.spec_key(files.last()) {
            Some(k) => {
                if keys.contains(k) {
                } else {
                    assert(keys.push(k).last() == k);
                    assert(keys.push(k).drop_last() == keys);
                    if key != k && keys.push(k).contains(key) {
                        let i = choose|i: int| 0 <= i < keys.push(k).len() && keys.push(k)[i] == key;
                        assert(keys[i] == key);
                    }
                    if keys.contains(key) {
                        let i = choose|i: int| 0 <= i < keys.len() && keys[i] == key;
                        assert(keys.push(k)[i] == key);
                    }
                }
            },
            None => {},
        }
    }
}

/// Sorts files into groups by the given criterion and keeps the groups with
/// more than one member.
///
/// Groups come in the order in which their keys were first seen, members in
/// the order in which they arrived. Under `Digest`, a file that has not been
/// hashed is in no group.
pub fn group(files: Vec<File>, by: Criterion) -> (groups: Vec<DuplicateGroup>)
    ensures
        views(groups@) == duplicate_groups(files@, by),
        forall|g: int| 0 <= g < groups.len() ==> (#[trigger] groups[g]).wf(),
{
    let ghost all = files@;
    let mut buckets: Vec<DuplicateGroup> = Vec::new();
    let mut index: HashMap<u64, usize> = HashMap::new();
    let ghost mut seen: Seq<File> = Seq::empty();
    assert(views(buckets@) =~= all_groups(seen, by));
    for file in it: files
        invariant
            seen == all.take(it.index()),
            it.seq() == all,
            views(buckets@) == all_groups(seen, by),
            forall|key: u64| #[trigger]
                index@.contains_key(key) <==> keys_in_order(seen, by).contains(key),
            forall|g: int|
                0 <= g < buckets.len() ==> index@.contains_key((#[trigger] buckets[g]).key)
                    && index@[buckets[g].key] == g,
    {
        let ghost before = buckets@;
        let ghost prior = seen;
        let ghost keys = keys_in_order(seen, by);
        proof {
            lemma_all_groups_push(seen, file, by);
            assert(all.take(it.index() + 1) == seen.push(file));
            assert(views(before).len() == before.len());
            assert(all_groups(seen, by).len() == keys.len());
            assert forall|g: int| 0 <= g < before.len() implies (#[trigger] before[g]).key
                == keys[g] by {
                assert(views(before)[g] == group_for(seen, by, keys[g]));
            }
        }
        match by.key(&file) {
            None => {
                proof {
                    seen = seen.push(file);
                    assert(views(buckets@) =~= all_groups(seen, by));
                }
            },
            Some(key) => {
                match index.get(&key) {
                    Some(at) => {
                        let at = *at;
                        proof {
                            let i = choose|i: int| 0 <= i < keys.len() && keys[i] == key;
                            assert(before[i].key == key);
                            assert(at == i);
                        }
                        buckets[at].members.push(file);
                        proof {
                            seen = seen.push(file);
                            assert forall|g: int| 0 <= g < buckets.len() implies views(buckets@)[g]
                                == all_groups(seen, by)[g] by {
                                assert(views(before)[g] == group_for(prior, by, keys[g]));
                                assert(before[g].key == keys[g]);
                                if g != at {
                                    assert(buckets[g] == before[g]);
                                    assert(index@[before[g].key] == g);
                                }
                            }
                            assert(views(buckets@) =~= all_groups(seen, by));
                        }
                    },
                    None => {
                        let mut members: Vec<File> = Vec::new();
                        members.push(file);
                        proof {
                            lemma_key_is_seen(seen, by, key);
                            assert(members@ =~= members_of(seen, by, key).push(file));
                        }
                        index.insert(key, buckets.len());
                        buckets.push(DuplicateGroup { by, key, members });
                        proof {
                            seen = seen.push(file);
                            let grown = keys.push(key);
                            assert forall|k: u64| #[trigger]
                                index@.contains_key(k) <==> grown.contains(k) by {
                                if keys.contains(k) {
                                    let i = choose|i: int| 0 <= i < keys.len() && keys[i] == k;
                                    assert(grown[i] == k);
                                }
                                if k == key {
                                    assert(grown[keys.len() as int] == k);
                                }
                                if grown.contains(k) && k != key {
                                    let i = choose|i: int| 0 <= i < grown.len() && grown[i] == k;
                                    assert(keys[i] == k);
                                }
                            }
                            assert forall|g: int| 0 <= g < buckets.len() implies views(buckets@)[g]
                                == all_groups(seen, by)[g] by {
                                if g < before.len() {
                                    assert(buckets[g] == before[g]);
                                    assert(views(before)[g] == group_for(prior, by, keys[g]));
                                    assert(keys.contains(keys[g]));
                                }
                            }
                            assert(views(buckets@) =~= all_groups(seen, by));
                        }
                    },
                }
            },
        }
    }
    assert(seen == all);
    let ghost every = views(buckets@);
    let mut groups: Vec<DuplicateGroup> = Vec::new();
    let ghost mut sifted: Seq<GroupView> = Seq::empty();
    proof {
        reveal(Seq::filter);
        assert(every.take(0).filter(|group: GroupView| group.members.len() >= 2) =~= Seq::<
            GroupView,
        >::empty());
        assert(views(groups@) =~= Seq::<GroupView>::empty());
    }
    for bucket in it: buckets
        invariant
            every == all_groups(all, by),
            views(it.seq()) == every,
            views(groups@) == every.take(it.index()).filter(
                |group: GroupView| group.members.len() >= 2,
            ),
            forall|g: int| 0 <= g < groups.len() ==> (#[trigger] groups[g]).wf(),
    {
        proof {
            let done = every.take(it.index());
            assert(views(it.seq())[it.index()] == bucket@);
            assert(every.take(it.index() + 1) == done.push(bucket@));
            lemma_filter_push(done, bucket@, |group: GroupView| group.members.len() >= 2);
        }
        if bucket.members.len() >= 2 {
            proof {
                let key = bucket@.key;
                assert(every[it.index()] == bucket@);
                assert(views(it.seq()).len() == it.seq().len());
                assert(all_groups(all, by).len() == keys_in_order(all, by).len());
                assert(all_groups(all, by)[it.index()] == group_for(
                    all,
                    by,
                    keys_in_order(all, by)[it.index()],
                ));
                assert forall|i: int|
                    0 <= i < bucket@.members.len() implies by.spec_key(
                    #[trigger] bucket@.members[i],
                ) == Some(key) by {
                    all.lemma_filter_pred(|file: File| by.spec_key(file) == Some(key), i);
                }
            }
            let ghost earlier = groups@;
            groups.push(bucket);
            assert(views(groups@) =~= views(earlier).push(bucket@));
        }
    }
    proof {
        assert(every.take(every.len() as int) == every);
    }
    groups
}

/// The files that share their size with another file: the members of the
/// size groups, group after group.
pub open spec fn candidates_of(files: Seq<File>) -> Seq<File> {
    all_members(duplicate_groups(files, Criterion::Size))
}

/// All the members of the groups, group after group.
pub fn flatten(groups: Vec<DuplicateGroup>) -> (files: Vec<File>)
    ensures
        files@ == all_members(views(groups@)),
{
    let ghost every = views(groups@);
    let mut files: Vec<File> = Vec::new();
    assert(every.take(0) =~= Seq::<GroupView>::empty());
    for group in it: groups
        invariant
            views(it.seq()) == every,
            files@ == all_members(every.take(it.index())),
    {
        proof {
            let done = every.take(it.index());
            assert(views(it.seq())[it.index()] == group@);
            assert(every.take(it.index() + 1) == done.push(group@));
            assert(done.push(group@).map_values(|g: GroupView| g.members) == done.map_values(
                |g: GroupView| g.members,
            ).push(group@.members));
            done.map_values(|g: GroupView| g.members).lemma_flatten_push(group@.members);
        }
        let mut members = group.into_members();
        files.append(&mut members);
    }
    assert(every.take(every.len() as int) == every);
    files
}

/// The first pass: the files that share their size with another file, and
/// so may have a duplicate. A file whose size is its own has none.
pub fn candidates(files: Vec<File>) -> (found: Vec<File>)
    ensures
        found@ == candidates_of(files@),
{
    flatten(group(files, Criterion::Size))
}

} // verus!
