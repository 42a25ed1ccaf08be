//! The two passes together: what is reported, and why it can be relied on.
//!
//! The first pass keeps the files that share their size with another file.
//! Those are read and hashed, and the second pass groups them by digest.
//! What reading a file gives is not decided here: it is a parameter,
//! `content`, which yields the bytes of a file or nothing where the file
//! cannot be read.

use vstd::prelude::*;
use crate::digest::seahash_of;
use crate::file::File;
use crate::group_laws::{
    lemma_duplicate_groups_are_groups, lemma_group_count_ignores_order,
    lemma_groups_ignore_order, lemma_members_count, lemma_pair_is_grouped, same_members,
};
use crate::grouper::{
    candidates_of, duplicate_groups, group_for, members_of, Criterion, GroupView,
};
use crate::seq_lemmas::{
    holds_both, lemma_filter_comes_from, lemma_filter_ignores_order, lemma_filter_keeps_both,
    lemma_flatten_keeps_both, lemma_map_ignores_order, lemma_map_keeps_both, lemma_pick_contains,
};

verus! {

/// The files that could be read, each with the digest of its content, in
/// their order.
pub open spec fn hashed_files(files: Seq<File>, content: spec_fn(File) -> Option<Seq<u8>>) -> Seq<
    File,
> {
    files.filter(|file: File| content(file) is Some).map_values(
        |file: File| file.spec_hashed(content(file)->0),
    )
}

/// The groups that are reported for the files that a walk found: the
/// candidates of the first pass, hashed, and grouped by digest.
pub open spec fn report(files: Seq<File>, content: spec_fn(File) -> Option<Seq<u8>>) -> Seq<
    GroupView,
> {
    duplicate_groups(hashed_files(candidates_of(files), content), Criterion::Digest)
}

/// Two files with the same bytes are reported in one group.
///
/// The two are distinct finds of one walk, both can be read, reading gives
/// the same bytes for both, and each was found with the length that its
/// content has. Then one reported group holds both, each with its digest.
pub proof fn lemma_same_content_same_group(
    files: Seq<File>,
    content: spec_fn(File) -> Option<Seq<u8>>,
    i: int,
    j: int,
)
    requires
        0 <= i < files.len(),
        0 <= j < files.len(),
        i != j,
        content(files[i]) is Some,
        content(files[i]) == content(files[j]),
        files[i].size == content(files[i])->0.len(),
        files[j].size == content(files[j])->0.len(),
    ensures
        exists|g: int|
            0 <= g < report(files, content).len() && holds_both(
                (#[trigger] report(files, content)[g]).members,
                files[i].spec_hashed(content(files[i])->0),
                files[j].spec_hashed(content(files[j])->0),
            ),
{
    let x = files[i];
    let y = files[j];
    let bytes = content(x)->0;
    assert(holds_both(files, x, y));
    lemma_pair_is_grouped(files, Criterion::Size, x.size, x, y);
    let sized = duplicate_groups(files, Criterion::Size);
    let g = choose|g: int|
        0 <= g < sized.len() && (#[trigger] sized[g]) == group_for(files, Criterion::Size, x.size);
    let parts = sized.map_values(|group: GroupView| group.members);
    assert(parts[g] == members_of(files, Criterion::Size, x.size));
    lemma_flatten_keeps_both(parts, g, x, y);
    let candidates = candidates_of(files);
    assert(holds_both(candidates, x, y));
    lemma_filter_keeps_both(candidates, |file: File| content(file) is Some, x, y);
    lemma_map_keeps_both(
        candidates.filter(|file: File| content(file) is Some),
        |file: File| file.spec_hashed(content(file)->0),
        x,
        y,
    );
    let hashed = hashed_files(candidates, content);
    let hx = x.spec_hashed(bytes);
    let hy = y.spec_hashed(bytes);
    assert(holds_both(hashed, hx, hy));
    let digest = hx.digest->0;
    lemma_pair_is_grouped(hashed, Criterion::Digest, digest, hx, hy);
    let last = report(files, content);
    let h = choose|h: int|
        0 <= h < last.len() && (#[trigger] last[h]) == group_for(hashed, Criterion::Digest, digest);
    assert(holds_both(last[h].members, hx, hy));
}

/// Every candidate is one of the files that were given.
pub proof fn lemma_candidates_come_from_files(files: Seq<File>, c: int)
    requires
        0 <= c < candidates_of(files).len(),
    ensures
        files.contains(candidates_of(files)[c]),
{
    let x = candidates_of(files)[c];
    lemma_members_count(files, Criterion::Size, x);
    candidates_of(files).to_multiset_ensures();
    files.to_multiset_ensures();
    assert(candidates_of(files).contains(x));
    assert(candidates_of(files).to_multiset().count(x) > 0);
    assert(files.to_multiset().count(x) > 0);
}

/// Each member of a reported group is one of the files that were found
/// and could be read, with the digest of its content, and that digest is
/// the key of the group. So two files whose contents have different digests
/// are never in one group.
pub proof fn lemma_group_shares_digest(
    files: Seq<File>,
    content: spec_fn(File) -> Option<Seq<u8>>,
    g: int,
    m: int,
)
    requires
        0 <= g < report(files, content).len(),
        0 <= m < report(files, content)[g].members.len(),
    ensures
        exists|i: int|
            0 <= i < files.len() && content(#[trigger] files[i]) is Some && report(
                files,
                content,
            )[g].members[m] == files[i].spec_hashed(content(files[i])->0) && seahash_of(
                content(files[i])->0,
            ) == report(files, content)[g].key,
{
    let candidates = candidates_of(files);
    let hashed = hashed_files(candidates, content);
    let group = report(files, content)[g];
    lemma_duplicate_groups_are_groups(hashed, Criterion::Digest, g);
    lemma_filter_comes_from(
        hashed,
        |file: File| Criterion::Digest.spec_key(file) == Some(group.key),
        m,
    );
    let member = group.members[m];
    lemma_pick_contains(
        candidates,
        |file: File| content(file) is Some,
        |file: File| file.spec_hashed(content(file)->0),
        member,
    );
    let c = choose|c: int|
        0 <= c < candidates.len() && content(#[trigger] candidates[c]) is Some
            && candidates[c].spec_hashed(content(candidates[c])->0) == member;
    lemma_candidates_come_from_files(files, c);
    let i = choose|i: int| 0 <= i < files.len() && files[i] == candidates[c];
    assert(content(files[i]) is Some);
}

/// No empty file is reported: where every file that was found has at least
/// one byte, so has every member of every reported group.
pub proof fn lemma_reported_files_are_not_empty(
    files: Seq<File>,
    content: spec_fn(File) -> Option<Seq<u8>>,
    g: int,
    m: int,
)
    requires
        forall|i: int| 0 <= i < files.len() ==> (#[trigger] files[i]).size > 0,
        0 <= g < report(files, content).len(),
        0 <= m < report(files, content)[g].members.len(),
    ensures
        report(files, content)[g].members[m].size > 0,
{
    lemma_group_shares_digest(files, content, g, m);
}

/// The order in which files arrive does not change which of them are
/// candidates.
pub proof fn lemma_candidates_ignore_order(a: Seq<File>, b: Seq<File>)
    requires
        a.to_multiset() == b.to_multiset(),
    ensures
        candidates_of(a).to_multiset() == candidates_of(b).to_multiset(),
{
    let by = Criterion::Size;
    assert forall|x: File|
        candidates_of(a).to_multiset().count(x) == candidates_of(b).to_multiset().count(x) by {
        lemma_members_count(a, by, x);
        lemma_members_count(b, by, x);
        lemma_filter_ignores_order(a, b, |file: File| by.spec_key(file) == Some(x.size));
    }
    assert(candidates_of(a).to_multiset() =~= candidates_of(b).to_multiset());
}

/// Two runs over the same files report the same groups, in whatever order
/// the files arrived: each group reported for the one has its like among
/// the groups reported for the other.
pub proof fn lemma_report_ignores_order(
    a: Seq<File>,
    b: Seq<File>,
    content: spec_fn(File) -> Option<Seq<u8>>,
    g: int,
)
    requires
        a.to_multiset() == b.to_multiset(),
        0 <= g < report(a, content).len(),
    ensures
        report(a, content).len() == report(b, content).len(),
        exists|h: int|
            0 <= h < report(b, content).len() && same_members(
                report(a, content)[g],
                #[trigger] report(b, content)[h],
            ),
{
    lemma_candidates_ignore_order(a, b);
    let readable = |file: File| content(file) is Some;
    let hash = |file: File| file.spec_hashed(content(file)->0);
    lemma_filter_ignores_order(candidates_of(a), candidates_of(b), readable);
    lemma_map_ignores_order(
        candidates_of(a).filter(readable),
        candidates_of(b).filter(readable),
        hash,
    );
    let hashed_a = hashed_files(candidates_of(a), content);
    let hashed_b = hashed_files(candidates_of(b), content);
    assert(hashed_a == candidates_of(a).filter(readable).map_values(hash));
    assert(hashed_b == candidates_of(b).filter(readable).map_values(hash));
    assert(hashed_a.to_multiset() == hashed_b.to_multiset());
    lemma_groups_ignore_order(hashed_a, hashed_b, Criterion::Digest, g);
    lemma_group_count_ignores_order(hashed_a, hashed_b, Criterion::Digest);
    let h = choose|h: int|
        0 <= h < duplicate_groups(hashed_b, Criterion::Digest).len() && same_members(
            duplicate_groups(hashed_a, Criterion::Digest)[g],
            #[trigger] duplicate_groups(hashed_b, Criterion::Digest)[h],
        );
    assert(same_members(report(a, content)[g], report(b, content)[h]));
}

} // verus!
