//! Facts about lists that are used throughout.
use vstd::prelude::*;

verus! {

/// Leaving items out brings in no duplicates.
pub proof fn lemma_filter_no_duplicates<T>(items: Seq<T>, keep: spec_fn(T) -> bool)
    requires
        items.no_duplicates(),
    ensures
        items.filter(keep).no_duplicates(),
    decreases items.len(),
{
    reveal(Seq::filter);
    if items.len() > 0 {
        let rest = items.drop_last();
        lemma_filter_no_duplicates(rest, keep);
        if rest.filter(keep).contains(items.last()) {
            rest.lemma_filter_contains_rev(keep, items.last());
            let i = choose|i: int| 0 <= i < rest.len() && rest[i] == items.last();
            assert(items[i] == items[items.len() - 1]);
        }
    }
}

/// Filtering the first items of a list, one at a time.
pub proof fn lemma_filter_step<T>(items: Seq<T>, keep: spec_fn(T) -> bool, i: int)
    requires
        0 <= i < items.len(),
    ensures
        items.take(i + 1).filter(keep) == if keep(items[i]) {
            items.take(i).filter(keep).push(items[i])
        } else {
            items.take(i).filter(keep)
        },
{
    reveal(Seq::filter);
    assert(items.take(i + 1).drop_last() =~= items.take(i));
}

/// Appending an item adds it to what the list contains.
pub proof fn lemma_push_contains<T>(items: Seq<T>, item: T)
    ensures
        items.push(item).to_set() == items.to_set().insert(item),
        forall|other: T| #[trigger]
            items.push(item).contains(other) <==> items.contains(other) || other == item,
{
    assert forall|other: T| #[trigger]
        items.push(item).contains(other) <==> items.contains(other) || other == item by {
        if items.contains(other) {
            let i = choose|i: int| 0 <= i < items.len() && items[i] == other;
            assert(items.push(item)[i] == other);
        }
        assert(items.push(item)[items.len() as int] == item);
        if items.push(item).contains(other) && other != item {
            let i = choose|i: int|
                0 <= i < items.push(item).len() && items.push(item)[i] == other;
            assert(items[i] == other);
        }
    }
    assert(items.push(item).to_set() =~= items.to_set().insert(item));
}

/// The place of the first item that is wanted, or the end.
pub open spec fn first_index<T>(items: Seq<T>, wanted: spec_fn(T) -> bool) -> int
    decreases items.len(),
{
    if items.len() == 0 {
        0
    } else if wanted(items[0]) {
        0
    } else {
        1 + first_index(items.drop_first(), wanted)
    }
}

pub proof fn lemma_first_index<T>(items: Seq<T>, wanted: spec_fn(T) -> bool, at: int)
    requires
        0 <= at <= items.len(),
        forall|i: int| 0 <= i < at ==> !wanted(#[trigger] items[i]),
        at < items.len() ==> wanted(items[at]),
    ensures
        first_index(items, wanted) == at,
    decreases items.len(),
{
    if items.len() > 0 && at > 0 {
        assert(!wanted(items[0]));
        let rest = items.drop_first();
        assert forall|i: int| 0 <= i < at - 1 implies !wanted(#[trigger] rest[i]) by {
            assert(!wanted(items[i + 1]));
        }
        lemma_first_index(rest, wanted, at - 1);
    }
}

/// The first item that is wanted.
pub open spec fn first_item<T>(items: Seq<T>, wanted: spec_fn(T) -> bool) -> Option<T> {
    let at = first_index(items, wanted);
    if at < items.len() {
        Some(items[at])
    } else {
        None
    }
}

/// The first item is one of the items.
pub proof fn lemma_first_item<T>(items: Seq<T>, wanted: spec_fn(T) -> bool)
    ensures
        0 <= first_index(items, wanted) <= items.len(),
        first_item(items, wanted) matches Some(item) ==> items.contains(item) && wanted(item),
        first_item(items, wanted) is None ==> forall|i: int|
            0 <= i < items.len() ==> !wanted(#[trigger] items[i]),
    decreases items.len(),
{
    if items.len() > 0 && !wanted(items[0]) {
        let rest = items.drop_first();
        lemma_first_item(rest, wanted);
        if first_index(rest, wanted) < rest.len() {
            let at = first_index(rest, wanted);
            assert(rest[at] == items[at + 1]);
        } else {
            assert forall|i: int| 0 <= i < items.len() implies !wanted(#[trigger] items[i]) by {
                if i > 0 {
                    assert(rest[i - 1] == items[i]);
                }
            }
        }
    }
}

/// Whether each two items of a list are apart.
pub open spec fn all_apart<T>(items: Seq<T>, apart: spec_fn(T, T) -> bool) -> bool {
    forall|i: int, j: int|
        0 <= i < j < items.len() ==> apart(#[trigger] items[i], #[trigger] items[j])
}

/// Leaving items out of a list keeps the others apart.
pub proof fn lemma_filter_apart<T>(
    items: Seq<T>,
    keep: spec_fn(T) -> bool,
    apart: spec_fn(T, T) -> bool,
)
    requires
        all_apart(items, apart),
    ensures
        all_apart(items.filter(keep), apart),
    decreases items.len(),
{
    reveal(Seq::filter);
    if items.len() > 0 {
        let rest = items.drop_last();
        let kept = rest.filter(keep);
        let last = items.last();
        lemma_filter_apart(rest, keep, apart);
        if keep(last) {
            assert forall|i: int| 0 <= i < kept.len() implies apart(#[trigger] kept[i], last) by {
                assert(kept.contains(kept[i]));
                rest.lemma_filter_contains_rev(keep, kept[i]);
                let k = choose|k: int| 0 <= k < rest.len() && rest[k] == kept[i];
                assert(apart(items[k], items[items.len() - 1]));
            }
        }
    }
}

/// An item that is apart from all items of a list is apart from those that are
/// left of it, too.
pub proof fn lemma_filter_push_apart<T>(
    items: Seq<T>,
    keep: spec_fn(T) -> bool,
    apart: spec_fn(T, T) -> bool,
    item: T,
)
    requires
        all_apart(items, apart),
        forall|i: int| 0 <= i < items.len() && keep(items[i]) ==> apart(#[trigger] items[i], item),
    ensures
        all_apart(items.filter(keep).push(item), apart),
{
    lemma_filter_apart(items, keep, apart);
    let kept = items.filter(keep);
    assert forall|i: int| 0 <= i < kept.len() implies apart(#[trigger] kept[i], item) by {
        assert(kept.contains(kept[i]));
        items.lemma_filter_contains_rev(keep, kept[i]);
        items.lemma_filter_pred(keep, i);
        let k = choose|k: int| 0 <= k < items.len() && items[k] == kept[i];
        assert(apart(items[k], item));
    }
}

/// The first index is that of the first wanted item, or the length where there
/// is none.
pub proof fn the_first_index_is_that_of_a_wanted_item<T>(
    items: Seq<T>,
    wanted: spec_fn(T) -> bool,
)
    ensures
        0 <= first_index(items, wanted) <= items.len(),
        forall|i: int| 0 <= i < first_index(items, wanted) ==> !wanted(#[trigger] items[i]),
        first_index(items, wanted) < items.len() ==> wanted(items[first_index(items, wanted)]),
    decreases items.len(),
{
    if items.len() > 0 && !wanted(items[0]) {
        let rest = items.drop_first();
        the_first_index_is_that_of_a_wanted_item(rest, wanted);
        assert forall|i: int| 0 <= i < first_index(items, wanted) implies !wanted(
            #[trigger] items[i],
        ) by {
            if i > 0 {
                assert(items[i] == rest[i - 1]);
            }
        }
        if first_index(items, wanted) < items.len() {
            assert(items[first_index(items, wanted)] == rest[first_index(rest, wanted)]);
        }
    }
}

} // verus!
