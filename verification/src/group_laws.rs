//! What holds of the groups that `group` gives.

use vstd::prelude::*;
use crate::file::File;
use crate::grouper::{
    all_groups, all_members, duplicate_groups, group_for, keys_in_order, lemma_key_is_seen,
    members_of, Criterion, GroupView,
};
use crate::seq_lemmas::{
    distinct_by, holds_both, lemma_filter_comes_from, lemma_filter_count,
    lemma_filter_ignores_order, lemma_filter_keeps_both, lemma_filter_keeps_distinct,
    lemma_filter_push,
};

verus! {

/// Each group that is kept is the group of its key, and has at least two
/// members.
pub proof fn lemma_duplicate_groups_are_groups(files: Seq<File>, by: Criterion, g: int)
    requires
        0 <= g < duplicate_groups(files, by).len(),
    ensures
        duplicate_groups(files, by)[g] == group_for(files, by, duplicate_groups(files, by)[g].key),
        duplicate_groups(files, by)[g].members.len() >= 2,
        keys_in_order(files, by).contains(duplicate_groups(files, by)[g].key),
{
    let every = all_groups(files, by);
    let keys = keys_in_order(files, by);
    lemma_filter_comes_from(every, |group: GroupView| group.members.len() >= 2, g);
    let group = duplicate_groups(files, by)[g];
    let k = choose|k: int| 0 <= k < every.len() && every[k] == group;
    assert(every[k] == group_for(files, by, keys[k]));
}

/// Grouping invents no file: every member of every group that is kept is
/// one of the files that were given, and goes by the key of its group.
pub proof fn lemma_members_come_from_files(files: Seq<File>, by: Criterion, g: int, m: int)
    requires
        0 <= g < duplicate_groups(files, by).len(),
        0 <= m < duplicate_groups(files, by)[g].members.len(),
    ensures
        files.contains(duplicate_groups(files, by)[g].members[m]),
        by.spec_key(duplicate_groups(files, by)[g].members[m]) == Some(
            duplicate_groups(files, by)[g].key,
        ),
{
    let group = duplicate_groups(files, by)[g];
    lemma_duplicate_groups_are_groups(files, by, g);
    lemma_filter_comes_from(files, |file: File| by.spec_key(file) == Some(group.key), m);
}

/// Two files that go by one key are members of one group that is kept.
pub proof fn lemma_pair_is_grouped(files: Seq<File>, by: Criterion, key: u64, x: File, y: File)
    requires
        holds_both(files, x, y),
        by.spec_key(x) == Some(key),
        by.spec_key(y) == Some(key),
    ensures
        exists|g: int|
            0 <= g < duplicate_groups(files, by).len() && (#[trigger] duplicate_groups(
                files,
                by,
            )[g]) == group_for(files, by, key),
        holds_both(members_of(files, by, key), x, y),
{
    let every = all_groups(files, by);
    let keys = keys_in_order(files, by);
    lemma_filter_keeps_both(files, |file: File| by.spec_key(file) == Some(key), x, y);
    lemma_key_is_seen(files, by, key);
    let k = choose|k: int| 0 <= k < keys.len() && keys[k] == key;
    assert(every[k] == group_for(files, by, key));
    every.lemma_filter_contains(|group: GroupView| group.members.len() >= 2, k);
    let kept = duplicate_groups(files, by);
    let g = choose|g: int| 0 <= g < kept.len() && kept[g] == group_for(files, by, key);
    assert(kept[g] == group_for(files, by, key));
}

/// No key is seen twice.
proof fn lemma_keys_are_distinct(files: Seq<File>, by: Criterion)
    ensures
        keys_in_order(files, by).no_duplicates(),
    decreases files.len(),
{
    if files.len() > 0 {
        lemma_keys_are_distinct(files.drop_last(), by);
    }
}

/// No two groups that are kept have the same key, so no file is a member
/// of two groups.
pub proof fn lemma_groups_have_distinct_keys(files: Seq<File>, by: Criterion, g: int, h: int)
    requires
        0 <= g < duplicate_groups(files, by).len(),
        0 <= h < duplicate_groups(files, by).len(),
        g != h,
    ensures
        duplicate_groups(files, by)[g].key != duplicate_groups(files, by)[h].key,
{
    let keys = keys_in_order(files, by);
    let every = all_groups(files, by);
    let key_of = |group: GroupView| group.key;
    lemma_keys_are_distinct(files, by);
    assert(distinct_by(every, key_of)) by {
        assert forall|i: int, j: int|
            0 <= i < every.len() && 0 <= j < every.len() && i != j implies key_of(
            #[trigger] every[i],
        ) != key_of(#[trigger] every[j]) by {
            assert(every[i].key == keys[i] && every[j].key == keys[j]);
        }
    }
    lemma_filter_keeps_distinct(every, |group: GroupView| group.members.len() >= 2, key_of);
    let kept = duplicate_groups(files, by);
    assert(key_of(kept[g]) != key_of(kept[h]));
}

/// The members of the groups that are kept, for any choice of distinct keys.
spec fn kept_members(files: Seq<File>, by: Criterion, keys: Seq<u64>) -> Seq<File> {
    all_members(
        keys.map_values(|key: u64| group_for(files, by, key)).filter(
            |group: GroupView| group.members.len() >= 2,
        ),
    )
}

/// How often a file occurs among the members of the groups that are kept.
proof fn lemma_kept_members_count(files: Seq<File>, by: Criterion, keys: Seq<u64>, x: File)
    requires
        keys.no_duplicates(),
    ensures
        kept_members(files, by, keys).to_multiset().count(x) == if by.spec_key(x) is Some
            && keys.contains(by.spec_key(x)->0) && members_of(files, by, by.spec_key(x)->0).len()
            >= 2 {
            files.to_multiset().count(x)
        } else {
            0
        },
    decreases keys.len(),
{
    let big = |group: GroupView| group.members.len() >= 2;
    let make = |key: u64| group_for(files, by, key);
    let part = |group: GroupView| group.members;
    if keys.len() == 0 {
        reveal(Seq::filter);
        assert(keys.map_values(make).filter(big) =~= Seq::<GroupView>::empty());
        assert(kept_members(files, by, keys) =~= Seq::<File>::empty());
        kept_members(files, by, keys).to_multiset_ensures();
    } else {
        let front = keys.drop_last();
        let key = keys.last();
        assert(keys == front.push(key));
        assert(!front.contains(key)) by {
            if front.contains(key) {
                let i = choose|i: int| 0 <= i < front.len() && front[i] == key;
                assert(keys[i] == keys[keys.len() - 1]);
            }
        }
        lemma_kept_members_count(files, by, front, x);
        let group = group_for(files, by, key);
        let before = front.map_values(make).filter(big);
        assert(keys.map_values(make) =~= front.map_values(make).push(group));
        lemma_filter_push(front.map_values(make), group, big);
        lemma_filter_count(files, |file: File| by.spec_key(file) == Some(key), x);
        if big(group) {
            assert(before.push(group).map_values(part) =~= before.map_values(part).push(
                group.members,
            ));
            before.map_values(part).lemma_flatten_push(group.members);
            vstd::seq_lib::lemma_multiset_commutative(
                kept_members(files, by, front),
                group.members,
            );
        } else {
            group.members.to_multiset_ensures();
        }
        if by.spec_key(x) is Some && by.spec_key(x)->0 != key {
            let kx = by.spec_key(x)->0;
            if front.contains(kx) {
                let i = choose|i: int| 0 <= i < front.len() && front[i] == kx;
                assert(keys[i] == kx);
            }
            if keys.contains(kx) {
                let i = choose|i: int| 0 <= i < keys.len() && keys[i] == kx;
                assert(front[i] == kx);
            }
        }
        if by.spec_key(x) == Some(key) {
            assert(keys[keys.len() - 1] == key);
        }
    }
}

/// Each file is kept as often as it was given where at least two files go
/// by its key, and not at all otherwise: no file is lost from a group, and
/// none is in a group twice.
pub proof fn lemma_members_count(files: Seq<File>, by: Criterion, x: File)
    ensures
        all_members(duplicate_groups(files, by)).to_multiset().count(x) == if by.spec_key(x)
            is Some && members_of(files, by, by.spec_key(x)->0).len() >= 2 {
            files.to_multiset().count(x)
        } else {
            0
        },
{
    lemma_keys_are_distinct(files, by);
    lemma_kept_members_count(files, by, keys_in_order(files, by), x);
    if by.spec_key(x) is Some {
        lemma_key_is_seen(files, by, by.spec_key(x)->0);
    }
}

/// Whether two groups have the same key and the same members, in whatever
/// order.
pub open spec fn same_members(a: GroupView, b: GroupView) -> bool {
    a.by == b.by && a.key == b.key && a.members.to_multiset() == b.members.to_multiset()
}

/// The order in which files arrive changes no group: where two sequences
/// hold the same files, each group of the one has its like among the groups
/// of the other.
pub proof fn lemma_groups_ignore_order(a: Seq<File>, b: Seq<File>, by: Criterion, g: int)
    requires
        a.to_multiset() == b.to_multiset(),
        0 <= g < duplicate_groups(a, by).len(),
    ensures
        exists|h: int|
            0 <= h < duplicate_groups(b, by).len() && same_members(
                duplicate_groups(a, by)[g],
                #[trigger] duplicate_groups(b, by)[h],
            ),
{
    lemma_duplicate_groups_are_groups(a, by, g);
    let key = duplicate_groups(a, by)[g].key;
    lemma_filter_ignores_order(a, b, |file: File| by.spec_key(file) == Some(key));
    lemma_key_is_seen(b, by, key);
    let keys = keys_in_order(b, by);
    let every = all_groups(b, by);
    let k = choose|k: int| 0 <= k < keys.len() && keys[k] == key;
    assert(every[k] == group_for(b, by, key));
    every.lemma_filter_contains(|group: GroupView| group.members.len() >= 2, k);
    let kept = duplicate_groups(b, by);
    let h = choose|h: int| 0 <= h < kept.len() && kept[h] == group_for(b, by, key);
    assert(same_members(duplicate_groups(a, by)[g], kept[h]));
}

/// The keys of the groups that are kept are the keys that at least two
/// files go by.
proof fn lemma_kept_keys(files: Seq<File>, by: Criterion, key: u64)
    ensures
        duplicate_groups(files, by).map_values(|group: GroupView| group.key).contains(key)
            <==> members_of(files, by, key).len() >= 2,
{
    let kept = duplicate_groups(files, by);
    let kept_keys = kept.map_values(|group: GroupView| group.key);
    if kept_keys.contains(key) {
        let g = choose|g: int| 0 <= g < kept_keys.len() && kept_keys[g] == key;
        lemma_duplicate_groups_are_groups(files, by, g);
    }
    if members_of(files, by, key).len() >= 2 {
        lemma_key_is_seen(files, by, key);
        let keys = keys_in_order(files, by);
        let every = all_groups(files, by);
        let k = choose|k: int| 0 <= k < keys.len() && keys[k] == key;
        assert(every[k] == group_for(files, by, key));
        every.lemma_filter_contains(|group: GroupView| group.members.len() >= 2, k);
        let g = choose|g: int| 0 <= g < kept.len() && kept[g] == group_for(files, by, key);
        assert(kept_keys[g] == key);
    }
}

/// The order in which files arrive does not change how many groups there
/// are.
pub proof fn lemma_group_count_ignores_order(a: Seq<File>, b: Seq<File>, by: Criterion)
    requires
        a.to_multiset() == b.to_multiset(),
    ensures
        duplicate_groups(a, by).len() == duplicate_groups(b, by).len(),
{
    let key_of = |group: GroupView| group.key;
    let keys_a = duplicate_groups(a, by).map_values(key_of);
    let keys_b = duplicate_groups(b, by).map_values(key_of);
    assert(keys_a.no_duplicates()) by {
        assert forall|g: int, h: int|
            0 <= g < keys_a.len() && 0 <= h < keys_a.len() && g != h implies keys_a[g]
            != keys_a[h] by {
            lemma_groups_have_distinct_keys(a, by, g, h);
        }
    }
    assert(keys_b.no_duplicates()) by {
        assert forall|g: int, h: int|
            0 <= g < keys_b.len() && 0 <= h < keys_b.len() && g != h implies keys_b[g]
            != keys_b[h] by {
            lemma_groups_have_distinct_keys(b, by, g, h);
        }
    }
    assert forall|key: u64| keys_a.to_set().contains(key) <==> keys_b.to_set().contains(key) by {
        lemma_kept_keys(a, by, key);
        lemma_kept_keys(b, by, key);
        lemma_filter_ignores_order(a, b, |file: File| by.spec_key(file) == Some(key));
    }
    assert(keys_a.to_set() =~= keys_b.to_set());
    keys_a.unique_seq_to_set();
    keys_b.unique_seq_to_set();
}

} // verus!
