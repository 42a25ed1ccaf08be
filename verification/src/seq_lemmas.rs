//! Facts about filtered and mapped sequences.

use vstd::prelude::*;

verus! {

/// Filtering a sequence that grew by one element.
pub proof fn lemma_filter_push<A>(s: Seq<A>, x: A, pred: spec_fn(A) -> bool)
    ensures
        s.push(x).filter(pred) == if pred(x) {
            s.filter(pred).push(x)
        } else {
            s.filter(pred)
        },
{
    reveal(Seq::filter);
    assert(s.push(x).drop_last() == s);
}

/// Filtering, then mapping, a sequence that grew by one element.
pub proof fn lemma_pick_push<A, B>(
    s: Seq<A>,
    x: A,
    pick: spec_fn(A) -> bool,
    make: spec_fn(A) -> B,
)
    ensures
        s.push(x).filter(pick).map_values(make) == if pick(x) {
            s.filter(pick).map_values(make).push(make(x))
        } else {
            s.filter(pick).map_values(make)
        },
{
    lemma_filter_push(s, x, pick);
    if pick(x) {
        assert(s.filter(pick).push(x).map_values(make) =~= s.filter(pick).map_values(make).push(
            make(x),
        ));
    }
}

/// What a filtered and mapped sequence holds: the images of the elements
/// that pass the filter.
pub proof fn lemma_pick_contains<A, B>(
    s: Seq<A>,
    pick: spec_fn(A) -> bool,
    make: spec_fn(A) -> B,
    b: B,
)
    ensures
        s.filter(pick).map_values(make).contains(b) <==> exists|i: int|
            0 <= i < s.len() && pick(#[trigger] s[i]) && make(s[i]) == b,
    decreases s.len(),
{
    let out = s.filter(pick).map_values(make);
    if s.len() == 0 {
        reveal(Seq::filter);
        assert(out.len() == 0);
    } else {
        let front = s.drop_last();
        let x = s.last();
        let prev = front.filter(pick).map_values(make);
        assert(s == front.push(x));
        lemma_pick_push(front, x, pick, make);
        lemma_pick_contains(front, pick, make, b);
        if out.contains(b) {
            let j = choose|j: int| 0 <= j < out.len() && out[j] == b;
            if pick(x) && j == prev.len() {
                assert(pick(s[s.len() - 1]) && make(s[s.len() - 1]) == b);
            } else {
                assert(prev[j] == b);
                let i = choose|i: int| 0 <= i < front.len() && pick(#[trigger] front[i]) && make(
                    front[i],
                ) == b;
                assert(pick(s[i]) && make(s[i]) == b);
            }
        }
        if exists|i: int| 0 <= i < s.len() && pick(#[trigger] s[i]) && make(s[i]) == b {
            let i = choose|i: int| 0 <= i < s.len() && pick(#[trigger] s[i]) && make(s[i]) == b;
            if i == s.len() - 1 {
                assert(out[prev.len() as int] == b);
            } else {
                assert(pick(front[i]) && make(front[i]) == b);
                let j = choose|j: int| 0 <= j < prev.len() && prev[j] == b;
                assert(out[j] == b);
            }
        }
    }
}

/// Every element of a filtered sequence comes from the sequence and passes
/// the filter.
pub proof fn lemma_filter_comes_from<A>(s: Seq<A>, pred: spec_fn(A) -> bool, j: int)
    requires
        0 <= j < s.filter(pred).len(),
    ensures
        s.contains(s.filter(pred)[j]),
        pred(s.filter(pred)[j]),
    decreases s.len(),
{
    reveal(Seq::filter);
    if s.len() > 0 {
        let front = s.drop_last();
        let kept = front.filter(pred);
        if j < kept.len() {
            lemma_filter_comes_from(front, pred, j);
            let i = choose|i: int| 0 <= i < front.len() && front[i] == kept[j];
            assert(s[i] == kept[j]);
        } else {
            assert(s[s.len() - 1] == s.filter(pred)[j]);
        }
    }
}

/// Whether `x` and `y` stand at two different places of `s`.
pub open spec fn holds_both<A>(s: Seq<A>, x: A, y: A) -> bool {
    exists|a: int, b: int|
        0 <= a < s.len() && 0 <= b < s.len() && a != b && (#[trigger] s[a]) == x && (
        #[trigger] s[b]) == y
}

/// Two elements that pass a filter stand at two different places of the
/// filtered sequence, as they did before.
pub proof fn lemma_filter_keeps_both<A>(s: Seq<A>, pred: spec_fn(A) -> bool, x: A, y: A)
    requires
        holds_both(s, x, y),
        pred(x),
        pred(y),
    ensures
        holds_both(s.filter(pred), x, y),
        s.filter(pred).len() >= 2,
    decreases s.len(),
{
    let (a, b) = choose|a: int, b: int|
        0 <= a < s.len() && 0 <= b < s.len() && a != b && (#[trigger] s[a]) == x && (
        #[trigger] s[b]) == y;
    let front = s.drop_last();
    let last = s.last();
    let kept = front.filter(pred);
    let out = s.filter(pred);
    assert(s == front.push(last));
    lemma_filter_push(front, last, pred);
    if a < front.len() && b < front.len() {
        assert(front[a] == x && front[b] == y);
        lemma_filter_keeps_both(front, pred, x, y);
        let (c, d) = choose|c: int, d: int|
            0 <= c < kept.len() && 0 <= d < kept.len() && c != d && (#[trigger] kept[c]) == x && (
            #[trigger] kept[d]) == y;
        assert(out[c] == x && out[d] == y);
    } else if b == s.len() - 1 {
        assert(front[a] == x);
        front.lemma_filter_contains(pred, a);
        let c = choose|c: int| 0 <= c < kept.len() && kept[c] == x;
        assert(out[c] == x && out[kept.len() as int] == y);
    } else {
        assert(front[b] == y);
        front.lemma_filter_contains(pred, b);
        let d = choose|d: int| 0 <= d < kept.len() && kept[d] == y;
        assert(out[kept.len() as int] == x && out[d] == y);
    }
}

/// The images of two elements stand at two different places of the mapped
/// sequence.
pub proof fn lemma_map_keeps_both<A, B>(s: Seq<A>, make: spec_fn(A) -> B, x: A, y: A)
    requires
        holds_both(s, x, y),
    ensures
        holds_both(s.map_values(make), make(x), make(y)),
{
    let (a, b) = choose|a: int, b: int|
        0 <= a < s.len() && 0 <= b < s.len() && a != b && (#[trigger] s[a]) == x && (
        #[trigger] s[b]) == y;
    let out = s.map_values(make);
    assert(out[a] == make(x) && out[b] == make(y));
}

/// Two elements of one part stand at two different places of the whole.
pub proof fn lemma_flatten_keeps_both<A>(parts: Seq<Seq<A>>, g: int, x: A, y: A)
    requires
        0 <= g < parts.len(),
        holds_both(parts[g], x, y),
    ensures
        holds_both(parts.flatten(), x, y),
    decreases parts.len(),
{
    let part = parts[g];
    let (a, b) = choose|a: int, b: int|
        0 <= a < part.len() && 0 <= b < part.len() && a != b && (#[trigger] part[a]) == x && (
        #[trigger] part[b]) == y;
    let rest = parts.drop_first();
    let whole = parts.flatten();
    assert(whole == parts.first() + rest.flatten());
    if g == 0 {
        assert(whole[a] == x && whole[b] == y);
    } else {
        assert(rest[g - 1] == part);
        lemma_flatten_keeps_both(rest, g - 1, x, y);
        let tail = rest.flatten();
        let (c, d) = choose|c: int, d: int|
            0 <= c < tail.len() && 0 <= d < tail.len() && c != d && (#[trigger] tail[c]) == x && (
            #[trigger] tail[d]) == y;
        let n = parts.first().len() as int;
        assert(whole[n + c] == x && whole[n + d] == y);
    }
}

/// How often a value occurs in a filtered sequence.
pub proof fn lemma_filter_count<A>(s: Seq<A>, pred: spec_fn(A) -> bool, x: A)
    ensures
        s.filter(pred).to_multiset().count(x) == if pred(x) {
            s.to_multiset().count(x)
        } else {
            0
        },
    decreases s.len(),
{
    if s.len() == 0 {
        reveal(Seq::filter);
        s.to_multiset_ensures();
    } else {
        let front = s.drop_last();
        let last = s.last();
        assert(s == front.push(last));
        lemma_filter_push(front, last, pred);
        lemma_filter_count(front, pred, x);
        front.to_multiset_ensures();
        front.filter(pred).to_multiset_ensures();
    }
}

/// Filtering two orderings of the same elements gives two orderings of the
/// same elements.
pub proof fn lemma_filter_ignores_order<A>(a: Seq<A>, b: Seq<A>, pred: spec_fn(A) -> bool)
    requires
        a.to_multiset() == b.to_multiset(),
    ensures
        a.filter(pred).to_multiset() == b.filter(pred).to_multiset(),
        a.filter(pred).len() == b.filter(pred).len(),
{
    assert forall|x: A|
        a.filter(pred).to_multiset().count(x) == b.filter(pred).to_multiset().count(x) by {
        lemma_filter_count(a, pred, x);
        lemma_filter_count(b, pred, x);
    }
    assert(a.filter(pred).to_multiset() =~= b.filter(pred).to_multiset());
    a.filter(pred).to_multiset_ensures();
    b.filter(pred).to_multiset_ensures();
}

/// Mapping two orderings of the same elements gives two orderings of the
/// same elements.
pub proof fn lemma_map_ignores_order<A, B>(a: Seq<A>, b: Seq<A>, make: spec_fn(A) -> B)
    requires
        a.to_multiset() == b.to_multiset(),
    ensures
        a.map_values(make).to_multiset() == b.map_values(make).to_multiset(),
    decreases a.len(),
{
    a.to_multiset_ensures();
    b.to_multiset_ensures();
    if a.len() == 0 {
        assert(a.map_values(make) =~= b.map_values(make));
    } else {
        let front = a.drop_last();
        let x = a.last();
        assert(a == front.push(x));
        front.to_multiset_ensures();
        assert(a[a.len() - 1] == x);
        assert(a.to_multiset().count(x) > 0);
        assert(b.to_multiset().count(x) > 0);
        assert(b.contains(x));
        let i = choose|i: int| 0 <= i < b.len() && b[i] == x;
        let others = b.remove(i);
        assert(front.to_multiset() =~= others.to_multiset());
        lemma_map_ignores_order(front, others, make);
        let mapped = b.map_values(make);
        assert(mapped.remove(i) =~= others.map_values(make));
        mapped.to_multiset_ensures();
        assert(mapped.contains(mapped[i]));
        assert(a.map_values(make) =~= front.map_values(make).push(make(x)));
        front.map_values(make).to_multiset_ensures();
        assert(a.map_values(make).to_multiset() =~= mapped.to_multiset());
    }
}

/// Whether no two elements of `s` go by the same key.
pub open spec fn distinct_by<A, K>(s: Seq<A>, key: spec_fn(A) -> K) -> bool {
    forall|i: int, j: int|
        0 <= i < s.len() && 0 <= j < s.len() && i != j ==> key(#[trigger] s[i]) != key(
            #[trigger] s[j],
        )
}

/// Filtering leaves the keys distinct.
pub proof fn lemma_filter_keeps_distinct<A, K>(
    s: Seq<A>,
    pred: spec_fn(A) -> bool,
    key: spec_fn(A) -> K,
)
    requires
        distinct_by(s, key),
    ensures
        distinct_by(s.filter(pred), key),
    decreases s.len(),
{
    if s.len() == 0 {
        reveal(Seq::filter);
    } else {
        let front = s.drop_last();
        let last = s.last();
        let kept = front.filter(pred);
        let out = s.filter(pred);
        assert(s == front.push(last));
        lemma_filter_push(front, last, pred);
        assert(distinct_by(front, key)) by {
            assert forall|i: int, j: int|
                0 <= i < front.len() && 0 <= j < front.len() && i != j implies key(
                #[trigger] front[i],
            ) != key(#[trigger] front[j]) by {
                assert(front[i] == s[i] && front[j] == s[j]);
            }
        }
        lemma_filter_keeps_distinct(front, pred, key);
        assert forall|i: int, j: int|
            0 <= i < out.len() && 0 <= j < out.len() && i != j implies key(#[trigger] out[i])
            != key(#[trigger] out[j]) by {
            if i < kept.len() && j < kept.len() {
                assert(out[i] == kept[i] && out[j] == kept[j]);
            } else {
                let other = if i < kept.len() {
                    i
                } else {
                    j
                };
                lemma_filter_comes_from(front, pred, other);
                let at = choose|at: int| 0 <= at < front.len() && front[at] == kept[other];
                assert(s[at] == kept[other]);
                assert(s[s.len() - 1] == last);
                assert(out[other] == kept[other]);
            }
        }
    }
}

} // verus!
