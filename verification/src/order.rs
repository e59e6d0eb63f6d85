//! The order of the list: ascending by index, entries of one index in the
//! order in which they came.

use vstd::prelude::*;
use crate::entry::{precedes, rank, EntryView, LogEntry};

verus! {

/// Whether no entry of `s` stands before one of lower rank.
pub open spec fn ascending(s: Seq<EntryView>) -> bool {
    forall|i: int, j: int|
        #![trigger s[i], s[j]]
        0 <= i < j < s.len() ==> rank(s[i].index) <= rank(s[j].index)
}

/// Whether every entry of `s` is of lower rank than all that follow it.
pub open spec fn strictly_ascending(s: Seq<EntryView>) -> bool {
    forall|i: int, j: int|
        #![trigger s[i], s[j]]
        0 <= i < j < s.len() ==> rank(s[i].index) < rank(s[j].index)
}

/// Whether no two entries of `s` have the same index.
pub open spec fn distinct_indices(s: Seq<EntryView>) -> bool {
    forall|i: int, j: int|
        #![trigger s[i], s[j]]
        0 <= i < j < s.len() ==> s[i].index != s[j].index
}

/// The test that an entry has the index `index`.
pub open spec fn has_index(index: Option<i8>) -> spec_fn(EntryView) -> bool {
    |e: EntryView| e.index == index
}

/// The test that an entry has another index than `index`.
pub open spec fn lacks_index(index: Option<i8>) -> spec_fn(EntryView) -> bool {
    |e: EntryView| e.index != index
}

/// The entries of `s` with the index `index`, in their order in `s`.
pub open spec fn with_index(s: Seq<EntryView>, index: Option<i8>) -> Seq<EntryView> {
    s.filter(has_index(index))
}

/// The entries of `s` with another index than `index`, in their order in
/// `s`.
pub open spec fn without_index(s: Seq<EntryView>, index: Option<i8>) -> Seq<EntryView> {
    s.filter(lacks_index(index))
}

/// Whether `sorted` is `given` put in order: it ascends, and under each
/// index it holds the entries that `given` holds under it, in the order in
/// which `given` holds them.
pub open spec fn sorted_from(sorted: Seq<EntryView>, given: Seq<EntryView>) -> bool {
    &&& ascending(sorted)
    &&& forall|index: Option<i8>| #[trigger]
        with_index(sorted, index) == with_index(given, index)
}

/// What a test keeps of a single value is that value or nothing.
proof fn lemma_filter_one<A>(x: A, pred: spec_fn(A) -> bool)
    ensures
        seq![x].filter(pred) == if pred(x) {
            seq![x]
        } else {
            Seq::empty()
        },
{
    reveal_with_fuel(Seq::filter, 2);
    assert(seq![x].drop_last() =~= Seq::<A>::empty());
    assert(Seq::<A>::empty().push(x) =~= seq![x]);
}

/// A test that no value of `s` passes keeps nothing of `s`.
proof fn lemma_filter_nothing<A>(s: Seq<A>, pred: spec_fn(A) -> bool)
    requires
        forall|i: int| 0 <= i < s.len() ==> !pred(#[trigger] s[i]),
    ensures
        s.filter(pred) == Seq::<A>::empty(),
    decreases s.len(),
{
    reveal(Seq::filter);
    if s.len() > 0 {
        let front = s.drop_last();
        assert forall|i: int| 0 <= i < front.len() implies !pred(#[trigger] front[i]) by {
            assert(front[i] == s[i]);
        }
        lemma_filter_nothing(front, pred);
        assert(!pred(s[s.len() - 1]));
    }
}

/// What a test keeps of `s` is what it keeps of a beginning of `s`, and then
/// what it keeps of the rest.
proof fn lemma_filter_split<A>(s: Seq<A>, p: int, pred: spec_fn(A) -> bool)
    requires
        0 <= p <= s.len(),
    ensures
        s.filter(pred) == s.subrange(0, p).filter(pred) + s.subrange(p, s.len() as int).filter(
            pred,
        ),
{
    let front = s.subrange(0, p);
    let back = s.subrange(p, s.len() as int);
    assert(s =~= front + back);
    Seq::filter_distributes_over_add(front, back, pred);
}

/// What a test keeps of `s` with `x` put in at `p`.
proof fn lemma_filter_insert<A>(s: Seq<A>, p: int, x: A, pred: spec_fn(A) -> bool)
    requires
        0 <= p <= s.len(),
    ensures
        s.insert(p, x).filter(pred) == s.subrange(0, p).filter(pred) + seq![x].filter(pred)
            + s.subrange(p, s.len() as int).filter(pred),
{
    let front = s.subrange(0, p);
    let back = s.subrange(p, s.len() as int);
    assert(s.insert(p, x) =~= (front + seq![x]) + back);
    Seq::filter_distributes_over_add(front + seq![x], back, pred);
    Seq::filter_distributes_over_add(front, seq![x], pred);
}

/// A test that two places of `s` pass keeps two values of `s` or more.
proof fn lemma_filter_two<A>(s: Seq<A>, i: int, j: int, pred: spec_fn(A) -> bool)
    requires
        0 <= i < j < s.len(),
        pred(s[i]),
        pred(s[j]),
    ensures
        s.filter(pred).len() >= 2,
{
    let front = s.subrange(0, j);
    let back = s.subrange(j, s.len() as int);
    lemma_filter_split(s, j, pred);
    assert(front[i] == s[i]);
    assert(back[0] == s[j]);
    front.lemma_filter_contains(pred, i);
    back.lemma_filter_contains(pred, 0);
}

/// What a test keeps of a list in order is in order.
proof fn lemma_filter_keeps_order(s: Seq<EntryView>, pred: spec_fn(EntryView) -> bool)
    requires
        ascending(s),
    ensures
        ascending(s.filter(pred)),
    decreases s.len(),
{
    reveal(Seq::filter);
    if s.len() > 0 {
        let front = s.drop_last();
        let kept = front.filter(pred);
        lemma_filter_keeps_order(front, pred);
        if pred(s.last()) {
            let all = s.filter(pred);
            assert forall|i: int, j: int| 0 <= i < j < all.len() implies rank(all[i].index)
                <= rank(all[j].index) by {
                if j < kept.len() {
                    assert(all[i] == kept[i] && all[j] == kept[j]);
                } else {
                    assert(kept.contains(kept[i]));
                    front.lemma_filter_contains_rev(pred, kept[i]);
                    let m = choose|m: int| 0 <= m < front.len() && front[m] == kept[i];
                    assert(s[m] == kept[i]);
                    assert(all[j] == s[s.len() - 1]);
                }
            }
        }
    }
}

/// Where no two entries have the same index, at most one entry has a given
/// index.
proof fn lemma_distinct_at_most_one(s: Seq<EntryView>, index: Option<i8>)
    requires
        distinct_indices(s),
    ensures
        with_index(s, index).len() <= 1,
{
    let found = with_index(s, index);
    if found.len() >= 2 {
        let pred = has_index(index);
        // Both entries come from places of `s`, and those places differ.
        lemma_filter_places(s, pred);
        let (i, j) = choose|i: int, j: int|
            0 <= i < j < s.len() && #[trigger] pred(s[i]) && #[trigger] pred(s[j]);
        assert(s[i].index == s[j].index);
    }
}

/// Where a test keeps two or more of the values of `s`, two places of `s`
/// pass it.
proof fn lemma_filter_places<A>(s: Seq<A>, pred: spec_fn(A) -> bool)
    requires
        s.filter(pred).len() >= 2,
    ensures
        exists|i: int, j: int|
            0 <= i < j < s.len() && #[trigger] pred(s[i]) && #[trigger] pred(s[j]),
    decreases s.len(),
{
    reveal(Seq::filter);
    let front = s.drop_last();
    let kept = front.filter(pred);
    if kept.len() >= 2 {
        lemma_filter_places(front, pred);
        let (i, j) = choose|i: int, j: int|
            0 <= i < j < front.len() && #[trigger] pred(front[i]) && #[trigger] pred(front[j]);
        assert(s[i] == front[i] && s[j] == front[j]);
    } else {
        assert(kept.len() == 1 && pred(s.last()));
        front.lemma_filter_pred(pred, 0);
        assert(kept.contains(kept[0]));
        front.lemma_filter_contains_rev(pred, kept[0]);
        let i = choose|i: int| 0 <= i < front.len() && front[i] == kept[0];
        let j = s.len() - 1;
        assert(s[i] == front[i]);
        assert(pred(s[i]) && pred(s[j]));
    }
}

/// A sequence holds a value that passes a test as often as its values that
/// pass the test do.
proof fn lemma_filter_count<A>(s: Seq<A>, pred: spec_fn(A) -> bool, x: A)
    requires
        pred(x),
    ensures
        s.filter(pred).to_multiset().count(x) == s.to_multiset().count(x),
    decreases s.len(),
{
    broadcast use vstd::multiset::group_multiset_axioms;

    reveal(Seq::filter);
    if s.len() > 0 {
        let front = s.drop_last();
        let last = s.last();
        lemma_filter_count(front, pred, x);
        assert(s =~= front.push(last));
        vstd::seq_lib::to_multiset_build(front, last);
        if pred(last) {
            vstd::seq_lib::to_multiset_build(front.filter(pred), last);
        }
    }
}

/// Putting entries in order only moves them: each entry is there as often
/// as it was given, and so there are as many entries as were given.
pub proof fn lemma_sorted_permutes(sorted: Seq<EntryView>, given: Seq<EntryView>)
    requires
        sorted_from(sorted, given),
    ensures
        sorted.to_multiset() == given.to_multiset(),
        sorted.len() == given.len(),
{
    assert forall|e: EntryView| sorted.to_multiset().count(e) == given.to_multiset().count(e) by {
        lemma_filter_count(sorted, has_index(e.index), e);
        lemma_filter_count(given, has_index(e.index), e);
        assert(with_index(sorted, e.index) == with_index(given, e.index));
    }
    assert(sorted.to_multiset() =~= given.to_multiset());
    vstd::seq_lib::to_multiset_len(sorted);
    vstd::seq_lib::to_multiset_len(given);
}

/// Putting entries in order neither adds an entry nor loses one.
pub proof fn lemma_sorted_same_entries(sorted: Seq<EntryView>, given: Seq<EntryView>)
    requires
        sorted_from(sorted, given),
    ensures
        forall|e: EntryView| sorted.contains(e) <==> given.contains(e),
{
    assert forall|e: EntryView| sorted.contains(e) <==> given.contains(e) by {
        let pred = has_index(e.index);
        assert(with_index(sorted, e.index) == with_index(given, e.index));
        if sorted.contains(e) {
            let i = choose|i: int| 0 <= i < sorted.len() && sorted[i] == e;
            sorted.lemma_filter_contains(pred, i);
            given.lemma_filter_contains_rev(pred, e);
        }
        if given.contains(e) {
            let i = choose|i: int| 0 <= i < given.len() && given[i] == e;
            given.lemma_filter_contains(pred, i);
            sorted.lemma_filter_contains_rev(pred, e);
        }
    }
}

/// Entries of which no two have the same index stand, once put in order,
/// strictly ascending by index.
pub proof fn lemma_sorted_strictly(sorted: Seq<EntryView>, given: Seq<EntryView>)
    requires
        sorted_from(sorted, given),
        distinct_indices(given),
    ensures
        strictly_ascending(sorted),
{
    assert forall|i: int, j: int| 0 <= i < j < sorted.len() implies rank(sorted[i].index) < rank(
        sorted[j].index,
    ) by {
        if rank(sorted[i].index) == rank(sorted[j].index) {
            let index = sorted[i].index;
            assert(sorted[j].index == index);
            lemma_filter_two(sorted, i, j, has_index(index));
            assert(with_index(sorted, index) == with_index(given, index));
            lemma_distinct_at_most_one(given, index);
        }
    }
}

/// A list in order is itself put in order.
pub proof fn lemma_sorted_from_itself(s: Seq<EntryView>)
    requires
        ascending(s),
    ensures
        sorted_from(s, s),
{
}

/// Where one list under each index holds entries, another that agrees with
/// it under each index holds entries too.
proof fn lemma_agree_nonempty(a: Seq<EntryView>, b: Seq<EntryView>)
    requires
        forall|index: Option<i8>| #[trigger] with_index(a, index) == with_index(b, index),
        a.len() > 0,
    ensures
        b.len() > 0,
{
    let index = a[0].index;
    let pred = has_index(index);
    a.lemma_filter_contains(pred, 0);
    assert(with_index(a, index) == with_index(b, index));
    b.lemma_filter_contains_rev(pred, a[0]);
}

/// In a list in order, no entry is of higher rank than one that a list
/// agreeing with it under each index holds.
proof fn lemma_agree_last_rank(a: Seq<EntryView>, b: Seq<EntryView>)
    requires
        forall|index: Option<i8>| #[trigger] with_index(a, index) == with_index(b, index),
        ascending(b),
        a.len() > 0,
        b.len() > 0,
    ensures
        rank(a.last().index) <= rank(b.last().index),
{
    let x = a.last();
    let pred = has_index(x.index);
    a.lemma_filter_contains(pred, a.len() - 1);
    assert(with_index(a, x.index) == with_index(b, x.index));
    b.lemma_filter_contains_rev(pred, x);
    let m = choose|m: int| 0 <= m < b.len() && b[m] == x;
    assert(m < b.len() - 1 ==> rank(b[m].index) <= rank(b[b.len() - 1].index));
}

/// Two lists in order that hold the same entries under each index, in the
/// same order, are one list.
pub proof fn lemma_order_is_unique(a: Seq<EntryView>, b: Seq<EntryView>)
    requires
        ascending(a),
        ascending(b),
        forall|index: Option<i8>| #[trigger] with_index(a, index) == with_index(b, index),
    ensures
        a == b,
    decreases a.len(),
{
    if a.len() == 0 {
        if b.len() > 0 {
            assert forall|index: Option<i8>| #[trigger]
                with_index(b, index) == with_index(a, index) by {
                assert(with_index(a, index) == with_index(b, index));
            }
            lemma_agree_nonempty(b, a);
        }
        assert(a =~= b);
    } else {
        lemma_agree_nonempty(a, b);
        assert forall|index: Option<i8>| #[trigger]
            with_index(b, index) == with_index(a, index) by {
            assert(with_index(a, index) == with_index(b, index));
        }
        lemma_agree_last_rank(a, b);
        lemma_agree_last_rank(b, a);
        let x = a.last();
        let y = b.last();
        let front_a = a.drop_last();
        let front_b = b.drop_last();
        assert(x.index == y.index);
        assert(with_index(a, x.index) == with_index(b, x.index));
        reveal(Seq::filter);
        assert(with_index(a, x.index) == with_index(front_a, x.index).push(x));
        assert(with_index(b, x.index) == with_index(front_b, x.index).push(y));
        assert(with_index(a, x.index).last() == x);
        assert(with_index(b, x.index).last() == y);
        assert(x == y);
        assert forall|index: Option<i8>| #[trigger]
            with_index(front_a, index) == with_index(front_b, index) by {
            assert(with_index(a, index) == with_index(b, index));
            if index == x.index {
                assert(with_index(front_a, index) =~= with_index(a, index).drop_last());
                assert(with_index(front_b, index) =~= with_index(b, index).drop_last());
            }
        }
        assert(ascending(front_a)) by {
            assert forall|i: int, j: int| 0 <= i < j < front_a.len() implies rank(
                front_a[i].index,
            ) <= rank(front_a[j].index) by {
                assert(front_a[i] == a[i] && front_a[j] == a[j]);
            }
        }
        assert(ascending(front_b)) by {
            assert forall|i: int, j: int| 0 <= i < j < front_b.len() implies rank(
                front_b[i].index,
            ) <= rank(front_b[j].index) by {
                assert(front_b[i] == b[i] && front_b[j] == b[j]);
            }
        }
        lemma_order_is_unique(front_a, front_b);
        assert(a =~= front_a.push(x));
        assert(b =~= front_b.push(y));
    }
}

/// Entries can be put in order in one way only.
pub proof fn lemma_sorted_is_unique(a: Seq<EntryView>, b: Seq<EntryView>, given: Seq<EntryView>)
    requires
        sorted_from(a, given),
        sorted_from(b, given),
    ensures
        a == b,
{
    assert forall|index: Option<i8>| #[trigger] with_index(a, index) == with_index(b, index) by {
        assert(with_index(a, index) == with_index(given, index));
        assert(with_index(b, index) == with_index(given, index));
    }
    lemma_order_is_unique(a, b);
}

/// Taking the entries of one index out of a list in order leaves a list in
/// order.
pub proof fn lemma_without_index_ascending(s: Seq<EntryView>, index: Option<i8>)
    requires
        ascending(s),
    ensures
        ascending(without_index(s, index)),
{
    lemma_filter_keeps_order(s, lacks_index(index));
}

/// The first place in `sorted` at which an entry with the index `index` can
/// stand before every entry that is not of lower rank.
fn insertion_point(sorted: &Vec<LogEntry>, index: Option<i8>) -> (p: usize)
    requires
        ascending(sorted.deep_view()),
    ensures
        p <= sorted.len(),
        forall|j: int| 0 <= j < p ==> rank(#[trigger] sorted.deep_view()[j].index) < rank(index),
        forall|j: int|
            p <= j < sorted.len() ==> rank(index) <= rank(#[trigger] sorted.deep_view()[j].index),
{
    let ghost s = sorted.deep_view();
    let mut p: usize = 0;
    while p < sorted.len() && precedes(sorted[p].index, index)
        invariant
            p <= sorted.len(),
            s == sorted.deep_view(),
            forall|j: int| 0 <= j < p ==> rank(#[trigger] s[j].index) < rank(index),
        decreases sorted.len() - p,
    {
        p = p + 1;
    }
    assert forall|j: int| p <= j < sorted.len() implies rank(index) <= rank(
        #[trigger] s[j].index,
    ) by {
        assert(rank(s[p as int].index) <= rank(s[j].index));
    }
    p
}

/// Puts entries in order: ascending by index, and entries of one index in
/// the order in which they were given.
pub fn sort(entries: Vec<LogEntry>) -> (sorted: Vec<LogEntry>)
    ensures
        sorted_from(sorted.deep_view(), entries.deep_view()),
{
    let ghost given = entries.deep_view();
    let mut rest = entries;
    let mut sorted: Vec<LogEntry> = Vec::new();
    proof {
        assert(rest.deep_view() =~= given.subrange(0, rest.len() as int));
        assert forall|index: Option<i8>| #[trigger]
            with_index(sorted.deep_view(), index) == with_index(
                given.subrange(rest.len() as int, given.len() as int),
                index,
            ) by {
            lemma_filter_nothing(sorted.deep_view(), has_index(index));
            lemma_filter_nothing(
                given.subrange(rest.len() as int, given.len() as int),
                has_index(index),
            );
        }
    }
    while rest.len() > 0
        invariant
            rest.len() <= given.len(),
            rest.deep_view() == given.subrange(0, rest.len() as int),
            ascending(sorted.deep_view()),
            forall|index: Option<i8>| #[trigger]
                with_index(sorted.deep_view(), index) == with_index(
                    given.subrange(rest.len() as int, given.len() as int),
                    index,
                ),
        decreases rest.len(),
    {
        let ghost before = sorted.deep_view();
        let ghost n = rest.len() as int;
        let ghost tail = given.subrange(n, given.len() as int);
        let ghost unsorted = rest.deep_view();
        let entry = rest.pop().unwrap();
        let ghost e = entry@;
        let p = insertion_point(&sorted, entry.index);
        sorted.insert(p, entry);
        proof {
            let after = sorted.deep_view();
            assert(e == unsorted[n - 1]);
            assert(e == given[n - 1]);
            assert(rest.deep_view() =~= given.subrange(0, n - 1));
            assert(after =~= before.insert(p as int, e));
            assert(ascending(after)) by {
                assert forall|i: int, j: int| 0 <= i < j < after.len() implies rank(
                    after[i].index,
                ) <= rank(after[j].index) by {
                    let a = if i < p { i } else { i - 1 };
                    let b = if j < p { j } else { j - 1 };
                    if i != p && j != p {
                        assert(after[i] == before[a]);
                        assert(after[j] == before[b]);
                    } else if i == p {
                        assert(after[j] == before[b]);
                    } else {
                        assert(after[i] == before[a]);
                    }
                }
            }
            let longer = given.subrange(n - 1, given.len() as int);
            assert(longer =~= seq![e] + tail);
            assert forall|index: Option<i8>| #[trigger]
                with_index(after, index) == with_index(longer, index) by {
                let pred = has_index(index);
                let front = before.subrange(0, p as int);
                assert(with_index(before, index) == with_index(tail, index));
                lemma_filter_insert(before, p as int, e, pred);
                lemma_filter_split(before, p as int, pred);
                lemma_filter_one(e, pred);
                Seq::filter_distributes_over_add(seq![e], tail, pred);
                if e.index == index {
                    assert forall|i: int| 0 <= i < front.len() implies !pred(
                        #[trigger] front[i],
                    ) by {
                        assert(front[i] == before[i]);
                    }
                    lemma_filter_nothing(front, pred);
                }
                assert(with_index(after, index) =~= with_index(longer, index));
            }
        }
    }
    proof {
        assert(given.subrange(0, given.len() as int) =~= given);
    }
    sorted
}

} // verus!
