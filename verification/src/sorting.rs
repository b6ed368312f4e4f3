//! Sorting that keeps the order of what compares alike, and the orders the
//! library sorts by.

use crate::persistence::{entries_of, PersistentFileInfo};
use crate::store::TrackedEntry;
use vstd::prelude::*;

verus! {

/// A sorted list with one more item. `stays(x, item)` says that `x`, which
/// is in the list, keeps its place before `item`: the item goes behind the
/// last such `x`.
pub open spec fn insert_sorted<A>(sorted: Seq<A>, item: A, stays: spec_fn(A, A) -> bool) -> Seq<A>
    decreases sorted.len(),
{
    if sorted.len() > 0 && !stays(sorted.last(), item) {
        insert_sorted(sorted.drop_last(), item, stays).push(sorted.last())
    } else {
        sorted.push(item)
    }
}

/// The list sorted by inserting its items one after another. Items of
/// which each may stay before the other keep the order they came in.
pub open spec fn sorted_by<A>(list: Seq<A>, stays: spec_fn(A, A) -> bool) -> Seq<A>
    decreases list.len(),
{
    if list.len() == 0 {
        list
    } else {
        insert_sorted(sorted_by(list.drop_last(), stays), list.last(), stays)
    }
}

/// Every item may stay before every item that follows it.
pub open spec fn is_sorted_by<A>(list: Seq<A>, stays: spec_fn(A, A) -> bool) -> bool {
    forall|i: int, j: int| 0 <= i < j < list.len() ==> stays(#[trigger] list[i], #[trigger] list[j])
}

/// Of any two items one may stay before the other, and staying before
/// carries over a third item.
pub open spec fn is_total_order<A>(stays: spec_fn(A, A) -> bool) -> bool {
    &&& forall|a: A, b: A| #[trigger] stays(a, b) || #[trigger] stays(b, a)
    &&& forall|a: A, b: A, c: A|
        #[trigger] stays(a, b) && #[trigger] stays(b, c) ==> stays(a, c)
}

/// Where an item goes in a sorted list: behind the last item that stays
/// before it.
pub open spec fn is_insertion_point<A>(
    sorted: Seq<A>,
    item: A,
    stays: spec_fn(A, A) -> bool,
    at: int,
) -> bool {
    &&& 0 <= at <= sorted.len()
    &&& forall|k: int| at <= k < sorted.len() ==> !stays(#[trigger] sorted[k], item)
    &&& at > 0 ==> stays(sorted[at - 1], item)
}

/// Inserting an item puts it at its insertion point.
pub proof fn lemma_insert_at_point<A>(
    sorted: Seq<A>,
    item: A,
    stays: spec_fn(A, A) -> bool,
    at: int,
)
    requires
        is_insertion_point(sorted, item, stays, at),
    ensures
        insert_sorted(sorted, item, stays) == sorted.insert(at, item),
    decreases sorted.len(),
{
    if sorted.len() > 0 && !stays(sorted.last(), item) {
        assert(at < sorted.len());
        let init = sorted.drop_last();
        assert(is_insertion_point(init, item, stays, at)) by {
            assert forall|k: int| at <= k < init.len() implies !stays(#[trigger] init[k], item) by {
                assert(init[k] == sorted[k]);
            }
        }
        lemma_insert_at_point(init, item, stays, at);
        assert(init.insert(at, item).push(sorted.last()) =~= sorted.insert(at, item));
    } else {
        if at < sorted.len() {
            assert(!stays(sorted[sorted.len() - 1], item));
        }
        assert(sorted.push(item) =~= sorted.insert(at, item));
    }
}

/// Every item has an insertion point in every list.
pub proof fn lemma_insertion_point_exists<A>(sorted: Seq<A>, item: A, stays: spec_fn(A, A) -> bool)
    ensures
        exists|at: int| is_insertion_point(sorted, item, stays, at),
    decreases sorted.len(),
{
    if sorted.len() > 0 && !stays(sorted.last(), item) {
        let init = sorted.drop_last();
        lemma_insertion_point_exists(init, item, stays);
        let at = choose|at: int| is_insertion_point(init, item, stays, at);
        assert(is_insertion_point(sorted, item, stays, at)) by {
            assert forall|k: int| at <= k < sorted.len() implies !stays(
                #[trigger] sorted[k],
                item,
            ) by {
                if k < init.len() {
                    assert(init[k] == sorted[k]);
                }
            }
            if at > 0 {
                assert(init[at - 1] == sorted[at - 1]);
            }
        }
    } else {
        assert(is_insertion_point(sorted, item, stays, sorted.len() as int));
    }
}

/// Inserting an item adds it to the list and takes nothing away.
pub proof fn lemma_insert_sorted_keeps_items<A>(
    sorted: Seq<A>,
    item: A,
    stays: spec_fn(A, A) -> bool,
)
    ensures
        insert_sorted(sorted, item, stays).len() == sorted.len() + 1,
        insert_sorted(sorted, item, stays).to_multiset() == sorted.to_multiset().insert(item),
{
    broadcast use vstd::seq_lib::group_to_multiset_ensures;

    lemma_insertion_point_exists(sorted, item, stays);
    let at = choose|at: int| is_insertion_point(sorted, item, stays, at);
    lemma_insert_at_point(sorted, item, stays, at);
}

/// Inserting an item into a sorted list leaves it sorted, when the order is
/// total.
pub proof fn lemma_insert_sorted_is_sorted<A>(
    sorted: Seq<A>,
    item: A,
    stays: spec_fn(A, A) -> bool,
)
    requires
        is_total_order(stays),
        is_sorted_by(sorted, stays),
    ensures
        is_sorted_by(insert_sorted(sorted, item, stays), stays),
{
    lemma_insertion_point_exists(sorted, item, stays);
    let at = choose|at: int| is_insertion_point(sorted, item, stays, at);
    lemma_insert_at_point(sorted, item, stays, at);
    let result = sorted.insert(at, item);
    assert forall|i: int, j: int| 0 <= i < j < result.len() implies stays(
        #[trigger] result[i],
        #[trigger] result[j],
    ) by {
        if j == at {
            assert(result[i] == sorted[i]);
            if i < at - 1 {
                assert(stays(sorted[i], sorted[at - 1]));
            }
            assert(stays(sorted[at - 1], item));
        } else if i == at {
            assert(result[j] == sorted[j - 1]);
            assert(!stays(sorted[j - 1], item));
            assert(stays(sorted[j - 1], item) || stays(item, sorted[j - 1]));
        } else if j < at {
            assert(result[i] == sorted[i] && result[j] == sorted[j]);
        } else if i < at {
            assert(result[i] == sorted[i] && result[j] == sorted[j - 1]);
        } else {
            assert(result[i] == sorted[i - 1] && result[j] == sorted[j - 1]);
        }
    }
}

/// The sorted list holds each item of the list as often as the list does.
pub proof fn lemma_sorted_by_keeps_items<A>(list: Seq<A>, stays: spec_fn(A, A) -> bool)
    ensures
        sorted_by(list, stays).len() == list.len(),
        sorted_by(list, stays).to_multiset() == list.to_multiset(),
    decreases list.len(),
{
    broadcast use vstd::seq_lib::group_to_multiset_ensures;

    if list.len() > 0 {
        lemma_sorted_by_keeps_items(list.drop_last(), stays);
        lemma_insert_sorted_keeps_items(sorted_by(list.drop_last(), stays), list.last(), stays);
        assert(list.drop_last().push(list.last()) =~= list);
    }
}

/// The sorted list is sorted, when the order is total.
pub proof fn lemma_sorted_by_is_sorted<A>(list: Seq<A>, stays: spec_fn(A, A) -> bool)
    requires
        is_total_order(stays),
    ensures
        is_sorted_by(sorted_by(list, stays), stays),
    decreases list.len(),
{
    if list.len() > 0 {
        lemma_sorted_by_is_sorted(list.drop_last(), stays);
        lemma_insert_sorted_is_sorted(sorted_by(list.drop_last(), stays), list.last(), stays);
    }
}

/// The order of a listing: what changed later comes first.
pub open spec fn by_recency() -> spec_fn(TrackedEntry, TrackedEntry) -> bool {
    |first: TrackedEntry, second: TrackedEntry| first.updated_at >= second.updated_at
}

/// No entry is followed by one that changed later.
pub open spec fn is_descending(entries: Seq<TrackedEntry>) -> bool {
    forall|i: int, j: int|
        0 <= i <= j < entries.len() ==> (#[trigger] entries[i]).updated_at >= (
        #[trigger] entries[j]).updated_at
}

/// The entries in descending order of their last change. Entries that
/// changed at the same time keep the order they had.
pub open spec fn sorted_by_recency(entries: Seq<TrackedEntry>) -> Seq<TrackedEntry> {
    sorted_by(entries, by_recency())
}

/// The sorted listing is in descending order of the last change, and holds
/// each entry of the listing as often as the listing does.
pub proof fn lemma_sorted_by_recency(entries: Seq<TrackedEntry>)
    ensures
        is_descending(sorted_by_recency(entries)),
        sorted_by_recency(entries).len() == entries.len(),
        sorted_by_recency(entries).to_multiset() == entries.to_multiset(),
{
    let stays = by_recency();
    assert(is_total_order(stays));
    lemma_sorted_by_is_sorted(entries, stays);
    lemma_sorted_by_keeps_items(entries, stays);
    let sorted = sorted_by_recency(entries);
    assert forall|i: int, j: int| 0 <= i <= j < sorted.len() implies (#[trigger] sorted[i]).updated_at
        >= (#[trigger] sorted[j]).updated_at by {
        if i < j {
            assert(stays(sorted[i], sorted[j]));
        }
    }
}

/// Sorts a listing: the entry that changed last comes first, and entries
/// that changed at the same time stay in the order they came in.
pub fn sort_by_recency(files: Vec<PersistentFileInfo>) -> (sorted: Vec<PersistentFileInfo>)
    ensures
        entries_of(sorted@) == sorted_by_recency(entries_of(files@)),
{
    let ghost stays = by_recency();
    let mut sorted: Vec<PersistentFileInfo> = Vec::new();
    let mut i: usize = 0;
    proof {
        assert(entries_of(files@).take(0) =~= Seq::empty());
        assert(entries_of(sorted@) =~= Seq::empty());
    }
    while i < files.len()
        invariant
            stays == by_recency(),
            i <= files.len(),
            sorted@.len() == i,
            entries_of(sorted@) == sorted_by(entries_of(files@).take(i as int), stays),
        decreases files.len() - i,
    {
        let entry = files[i].clone();
        let mut at: usize = sorted.len();
        while at > 0 && sorted[at - 1].updated_at < entry.updated_at
            invariant
                stays == by_recency(),
                at <= sorted@.len(),
                forall|k: int|
                    at <= k < sorted@.len() ==> !stays(#[trigger] entries_of(sorted@)[k], entry@),
            decreases at,
        {
            at -= 1;
            assert(entries_of(sorted@)[at as int] == sorted@[at as int]@);
        }
        proof {
            let before = entries_of(sorted@);
            if at > 0 {
                assert(before[at - 1] == sorted@[at - 1]@);
            }
            assert(is_insertion_point(before, entry@, stays, at as int));
            lemma_insert_at_point(before, entry@, stays, at as int);
            assert(entries_of(files@).take(i + 1).drop_last() =~= entries_of(files@).take(i as int));
            assert(entries_of(files@).take(i + 1).last() == entry@);
            assert(entries_of(sorted@.insert(at as int, entry)) =~= before.insert(at as int, entry@));
        }
        sorted.insert(at, entry);
        i += 1;
    }
    proof {
        assert(entries_of(files@).take(i as int) =~= entries_of(files@));
    }
    sorted
}

/// Whether a text comes before another, or is the same: the texts are
/// compared character by character, and a text comes before every longer
/// text that begins with it.
pub open spec fn text_le(first: Seq<char>, second: Seq<char>) -> bool
    decreases first.len(),
{
    if first.len() == 0 {
        true
    } else if second.len() == 0 {
        false
    } else if first[0] != second[0] {
        first[0] < second[0]
    } else {
        text_le(first.skip(1), second.skip(1))
    }
}

/// Of two texts one comes before the other, or they are the same.
pub proof fn lemma_text_le_total(first: Seq<char>, second: Seq<char>)
    ensures
        text_le(first, second) || text_le(second, first),
    decreases first.len(),
{
    if first.len() > 0 && second.len() > 0 && first[0] == second[0] {
        lemma_text_le_total(first.skip(1), second.skip(1));
    }
}

/// Coming before carries over a third text.
pub proof fn lemma_text_le_transitive(first: Seq<char>, second: Seq<char>, third: Seq<char>)
    requires
        text_le(first, second),
        text_le(second, third),
    ensures
        text_le(first, third),
    decreases first.len(),
{
    if first.len() > 0 && second.len() > 0 && third.len() > 0 {
        if first[0] == second[0] && second[0] == third[0] {
            lemma_text_le_transitive(first.skip(1), second.skip(1), third.skip(1));
        }
    }
}

/// The characters of a text.
pub fn chars_of(text: &str) -> (chars: Vec<char>)
    ensures
        chars@ == text@,
{
    let mut chars: Vec<char> = Vec::new();
    for c in it: text.chars()
        invariant
            it.seq() == text@,
            chars@ == text@.take(it.index() as int),
    {
        chars.push(c);
        assert(chars@ =~= text@.take(it.index() + 1));
    }
    assert(text@.take(text@.len() as int) =~= text@);
    chars
}

/// Whether a text comes before another or is the same.
pub fn text_comes_first(first: &str, second: &str) -> (le: bool)
    ensures
        le == text_le(first@, second@),
{
    let a = chars_of(first);
    let b = chars_of(second);
    let mut i: usize = 0;
    proof {
        assert(a@.skip(0) =~= a@);
        assert(b@.skip(0) =~= b@);
    }
    while i < a.len() && i < b.len()
        invariant
            a@ == first@,
            b@ == second@,
            i <= a@.len(),
            i <= b@.len(),
            text_le(a@, b@) == text_le(a@.skip(i as int), b@.skip(i as int)),
        decreases a@.len() - i,
    {
        proof {
            assert(a@.skip(i as int)[0] == a@[i as int]);
            assert(b@.skip(i as int)[0] == b@[i as int]);
            assert(a@.skip(i as int).skip(1) =~= a@.skip(i + 1));
            assert(b@.skip(i as int).skip(1) =~= b@.skip(i + 1));
        }
        if a[i] != b[i] {
            return a[i] < b[i];
        }
        i += 1;
    }
    i == a.len()
}

} // verus!
