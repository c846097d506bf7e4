//! Sorting by keys.
//!
//! Every sort of the library is a stable sort by a key, and every key is a
//! list of numbers in dictionary order. The order of the items is then fixed:
//! there is exactly one stable order for a list of keys.
use vstd::prelude::*;

verus! {

/// Dictionary order on keys: a shorter key comes before its extensions.
pub open spec fn key_le(left: Seq<u64>, right: Seq<u64>) -> bool
    decreases left.len(),
{
    if left.len() == 0 {
        true
    } else if right.len() == 0 {
        false
    } else if left[0] != right[0] {
        left[0] < right[0]
    } else {
        key_le(left.drop_first(), right.drop_first())
    }
}

pub proof fn lemma_key_le_total(left: Seq<u64>, right: Seq<u64>)
    ensures
        key_le(left, right) || key_le(right, left),
    decreases left.len(),
{
    if left.len() > 0 && right.len() > 0 && left[0] == right[0] {
        lemma_key_le_total(left.drop_first(), right.drop_first());
    }
}

pub proof fn lemma_key_le_transitive(a: Seq<u64>, b: Seq<u64>, c: Seq<u64>)
    requires
        key_le(a, b),
        key_le(b, c),
    ensures
        key_le(a, c),
    decreases a.len(),
{
    if a.len() > 0 && b.len() > 0 && c.len() > 0 && a[0] == b[0] && b[0] == c[0] {
        lemma_key_le_transitive(a.drop_first(), b.drop_first(), c.drop_first());
    }
}

pub proof fn lemma_key_le_antisymmetric(left: Seq<u64>, right: Seq<u64>)
    requires
        key_le(left, right),
        key_le(right, left),
    ensures
        left == right,
    decreases left.len(),
{
    if left.len() > 0 && right.len() > 0 {
        lemma_key_le_antisymmetric(left.drop_first(), right.drop_first());
        assert(left =~= seq![left[0]] + left.drop_first());
        assert(right =~= seq![right[0]] + right.drop_first());
    } else {
        assert(left =~= right);
    }
}

/// Whether `left` comes before or equals `right`.
pub fn key_not_after(left: &Vec<u64>, right: &Vec<u64>) -> (result: bool)
    ensures
        result == key_le(left@, right@),
{
    let mut i: usize = 0;
    assert(left@.skip(0) =~= left@);
    assert(right@.skip(0) =~= right@);
    while i < left.len() && i < right.len()
        invariant
            i <= left@.len(),
            i <= right@.len(),
            key_le(left@, right@) == key_le(left@.skip(i as int), right@.skip(i as int)),
        decreases left@.len() - i,
    {
        if left[i] != right[i] {
            return left[i] < right[i];
        }
        assert(left@.skip(i as int).drop_first() =~= left@.skip(i + 1));
        assert(right@.skip(i as int).drop_first() =~= right@.skip(i + 1));
        i += 1;
    }
    i == left.len()
}

/// The contents of a list of keys.
pub open spec fn contents(keys: Seq<Vec<u64>>) -> Seq<Seq<u64>> {
    Seq::new(keys.len(), |i: int| keys[i]@)
}

/// Whether item `a` comes before item `b`: by key, and by position where the
/// keys are equal.
pub open spec fn before(keys: Seq<Seq<u64>>, a: int, b: int) -> bool {
    &&& key_le(keys[a], keys[b])
    &&& key_le(keys[b], keys[a]) ==> a < b
}

proof fn lemma_before_transitive(keys: Seq<Seq<u64>>, a: int, b: int, c: int)
    requires
        before(keys, a, b),
        before(keys, b, c),
    ensures
        before(keys, a, c),
{
    lemma_key_le_transitive(keys[a], keys[b], keys[c]);
    if key_le(keys[c], keys[a]) {
        lemma_key_le_transitive(keys[c], keys[a], keys[b]);
        lemma_key_le_transitive(keys[b], keys[c], keys[a]);
    }
}

/// Whether each position of the list stands before all later ones.
pub open spec fn ascending(keys: Seq<Seq<u64>>, order: Seq<usize>) -> bool {
    forall|i: int, j: int|
        0 <= i < j < order.len() ==> before(
            keys,
            #[trigger] order[i] as int,
            #[trigger] order[j] as int,
        )
}

/// Whether all positions of the list lie in a range.
pub open spec fn within(order: Seq<usize>, from: int, to: int) -> bool {
    forall|i: int| 0 <= i < order.len() ==> from <= #[trigger] order[i] < to
}

/// The order of a stable sort: `order[i]` is the position, among the keys, of
/// the item that comes out at place `i`.
pub open spec fn is_stable_order(keys: Seq<Seq<u64>>, order: Seq<usize>) -> bool {
    &&& order.len() == keys.len()
    &&& within(order, 0, keys.len() as int)
    &&& ascending(keys, order)
}

/// A list of as many different positions as a range holds has them all.
proof fn lemma_has_all(keys: Seq<Seq<u64>>, order: Seq<usize>, n: int, position: int)
    requires
        order.len() == n,
        within(order, 0, n),
        ascending(keys, order),
        0 <= position < n,
    ensures
        exists|i: int| 0 <= i < n && #[trigger] order[i] == position,
{
    let positions = order.map_values(|p: usize| p as int);
    assert(positions.no_duplicates()) by {
        assert forall|i: int, j: int|
            0 <= i < positions.len() && 0 <= j < positions.len() && i != j implies positions[i]
            != positions[j] by {
            if i < j {
                assert(before(keys, order[i] as int, order[j] as int));
            } else {
                assert(before(keys, order[j] as int, order[i] as int));
            }
        }
    }
    positions.unique_seq_to_set();
    vstd::set_lib::lemma_int_range(0, n);
    let range = vstd::set_lib::set_int_range(0, n);
    assert(positions.to_set().subset_of(range));
    vstd::set_lib::lemma_subset_equality(positions.to_set(), range);
    assert(positions.to_set().contains(position));
    let i = choose|i: int| 0 <= i < positions.len() && positions[i] == position;
    assert(order[i] == position);
}

/// Every item comes out of a stable sort.
pub proof fn stable_order_has_every_item(keys: Seq<Seq<u64>>, order: Seq<usize>, position: int)
    requires
        is_stable_order(keys, order),
        0 <= position < keys.len(),
    ensures
        exists|i: int| 0 <= i < order.len() && #[trigger] order[i] == position,
{
    lemma_has_all(keys, order, keys.len() as int, position);
}

/// There is only one stable order for a list of keys.
pub proof fn stable_order_is_unique(keys: Seq<Seq<u64>>, first: Seq<usize>, second: Seq<usize>)
    requires
        is_stable_order(keys, first),
        is_stable_order(keys, second),
    ensures
        first == second,
{
    assert forall|i: int| 0 <= i < first.len() implies first[i] == second[i] by {
        lemma_same_place(keys, first, second, i);
    }
    assert(first =~= second);
}

proof fn lemma_same_place(keys: Seq<Seq<u64>>, first: Seq<usize>, second: Seq<usize>, i: int)
    requires
        is_stable_order(keys, first),
        is_stable_order(keys, second),
        0 <= i < first.len(),
    ensures
        first[i] == second[i],
    decreases i,
{
    stable_order_has_every_item(keys, second, first[i] as int);
    let k = choose|k: int| 0 <= k < second.len() && second[k] == first[i];
    stable_order_has_every_item(keys, first, second[i] as int);
    let m = choose|m: int| 0 <= m < first.len() && first[m] == second[i];
    if k < i {
        lemma_same_place(keys, first, second, k);
        assert(before(keys, first[k] as int, first[i] as int));
    } else if m < i {
        lemma_same_place(keys, first, second, m);
        assert(before(keys, second[m] as int, second[i] as int));
    } else if k > i && m > i {
        assert(before(keys, second[i] as int, second[k] as int));
        assert(before(keys, first[i] as int, first[m] as int));
    }
}

/// The order in which a stable sort puts the items with the given keys.
pub open spec fn stable_order(keys: Seq<Seq<u64>>) -> Seq<usize> {
    choose|order: Seq<usize>| is_stable_order(keys, order)
}

/// The first place in an ascending list where an item with the given key has
/// to stand.
spec fn place_for(keys: Seq<Seq<u64>>, order: Seq<usize>, key: Seq<u64>) -> int
    decreases order.len(),
{
    if order.len() == 0 || key_le(keys[order.last() as int], key) {
        order.len() as int
    } else {
        place_for(keys, order.drop_last(), key)
    }
}

proof fn lemma_place_for(keys: Seq<Seq<u64>>, order: Seq<usize>, key: Seq<u64>)
    requires
        ascending(keys, order),
    ensures
        0 <= place_for(keys, order, key) <= order.len(),
        forall|i: int|
            0 <= i < place_for(keys, order, key) ==> key_le(keys[#[trigger] order[i] as int], key),
        forall|i: int|
            place_for(keys, order, key) <= i < order.len() ==> !key_le(
                keys[#[trigger] order[i] as int],
                key,
            ),
    decreases order.len(),
{
    if order.len() > 0 {
        if key_le(keys[order.last() as int], key) {
            assert forall|i: int| 0 <= i < order.len() implies key_le(
                keys[#[trigger] order[i] as int],
                key,
            ) by {
                if i < order.len() - 1 {
                    assert(before(keys, order[i] as int, order[order.len() - 1] as int));
                    lemma_key_le_transitive(
                        keys[order[i] as int],
                        keys[order.last() as int],
                        key,
                    );
                }
            }
        } else {
            let rest = order.drop_last();
            assert(ascending(keys, rest)) by {
                assert forall|i: int, j: int| 0 <= i < j < rest.len() implies before(
                    keys,
                    #[trigger] rest[i] as int,
                    #[trigger] rest[j] as int,
                ) by {
                    assert(before(keys, order[i] as int, order[j] as int));
                }
            }
            lemma_place_for(keys, rest, key);
            let place = place_for(keys, rest, key);
            assert forall|i: int| 0 <= i < place implies key_le(
                keys[#[trigger] order[i] as int],
                key,
            ) by {
                assert(rest[i] == order[i]);
            }
            assert forall|i: int| place <= i < order.len() implies !key_le(
                keys[#[trigger] order[i] as int],
                key,
            ) by {
                if i < rest.len() {
                    assert(rest[i] == order[i]);
                }
            }
        }
    }
}

/// Every list of keys has a stable order.
pub proof fn stable_order_exists(keys: Seq<Seq<u64>>) -> (order: Seq<usize>)
    requires
        keys.len() <= usize::MAX,
    ensures
        is_stable_order(keys, order),
        order == stable_order(keys),
    decreases keys.len(),
{
    if keys.len() == 0 {
        let order = Seq::<usize>::empty();
        assert(is_stable_order(keys, order));
        stable_order_is_unique(keys, order, stable_order(keys));
        order
    } else {
        let rest = keys.drop_last();
        let n = keys.len() - 1;
        let start = stable_order_exists(rest);
        assert(ascending(keys, start)) by {
            assert forall|i: int, j: int| 0 <= i < j < start.len() implies before(
                keys,
                #[trigger] start[i] as int,
                #[trigger] start[j] as int,
            ) by {
                assert(before(rest, start[i] as int, start[j] as int));
                assert(rest[start[i] as int] == keys[start[i] as int]);
                assert(rest[start[j] as int] == keys[start[j] as int]);
            }
        }
        let key = keys.last();
        lemma_place_for(keys, start, key);
        let place = place_for(keys, start, key);
        let order = start.insert(place, n as usize);
        assert forall|i: int, j: int| 0 <= i < j < order.len() implies before(
            keys,
            #[trigger] order[i] as int,
            #[trigger] order[j] as int,
        ) by {
            let a = if i < place {
                i
            } else {
                i - 1
            };
            let b = if j < place {
                j
            } else {
                j - 1
            };
            if i != place && j != place {
                assert(order[i] == start[a]);
                assert(order[j] == start[b]);
                assert(before(keys, start[a] as int, start[b] as int));
            } else if j == place {
                assert(order[i] == start[i]);
                assert(key_le(keys[start[i] as int], key));
            } else {
                assert(order[j] == start[b]);
                assert(!key_le(keys[start[b] as int], key));
                lemma_key_le_total(keys[start[b] as int], key);
            }
        }
        assert(within(order, 0, keys.len() as int)) by {
            assert forall|i: int| 0 <= i < order.len() implies 0 <= #[trigger] order[i]
                < keys.len() by {
                if i < place {
                    assert(order[i] == start[i]);
                } else if i > place {
                    assert(order[i] == start[i - 1]);
                }
            }
        }
        assert(is_stable_order(keys, order));
        stable_order_is_unique(keys, order, stable_order(keys));
        order
    }
}

/// The items of a list in the given order.
pub open spec fn arranged<T>(items: Seq<T>, order: Seq<usize>) -> Seq<T> {
    Seq::new(order.len(), |i: int| items[order[i] as int])
}

/// The items of a list, sorted stably by their keys.
pub open spec fn sorted_by<T>(items: Seq<T>, keys: Seq<Seq<u64>>) -> Seq<T> {
    arranged(items, stable_order(keys))
}

/// Sorting neither loses an item nor brings one in, nor repeats one.
pub proof fn sorting_keeps_the_items<T>(items: Seq<T>, keys: Seq<Seq<u64>>)
    requires
        items.len() == keys.len() <= usize::MAX,
    ensures
        sorted_by(items, keys).len() == items.len(),
        forall|item: T| #[trigger]
            sorted_by(items, keys).contains(item) <==> items.contains(item),
        items.no_duplicates() ==> sorted_by(items, keys).no_duplicates(),
{
    let order = stable_order_exists(keys);
    let sorted = sorted_by(items, keys);
    assert forall|item: T| #[trigger] sorted.contains(item) <==> items.contains(item) by {
        if sorted.contains(item) {
            let i = choose|i: int| 0 <= i < sorted.len() && sorted[i] == item;
            assert(items[order[i] as int] == item);
        }
        if items.contains(item) {
            let position = choose|p: int| 0 <= p < items.len() && items[p] == item;
            stable_order_has_every_item(keys, order, position);
            let i = choose|i: int| 0 <= i < order.len() && order[i] == position;
            assert(sorted[i] == item);
        }
    }
    if items.no_duplicates() {
        assert forall|i: int, j: int|
            0 <= i < sorted.len() && 0 <= j < sorted.len() && i != j implies sorted[i]
            != sorted[j] by {
            if i < j {
                assert(before(keys, order[i] as int, order[j] as int));
            } else {
                assert(before(keys, order[j] as int, order[i] as int));
            }
            assert(order[i] != order[j]);
        }
    }
}

/// Sorting puts no item before one with a smaller key, and items with equal
/// keys keep their order.
pub proof fn sorting_orders_the_items<T>(items: Seq<T>, keys: Seq<Seq<u64>>, i: int, j: int)
    requires
        items.len() == keys.len() <= usize::MAX,
        0 <= i < j < items.len(),
    ensures
        before(keys, stable_order(keys)[i] as int, stable_order(keys)[j] as int),
        sorted_by(items, keys)[i] == items[stable_order(keys)[i] as int],
        sorted_by(items, keys)[j] == items[stable_order(keys)[j] as int],
{
    let order = stable_order_exists(keys);
    assert(before(keys, order[i] as int, order[j] as int));
}

/// Merges two ascending lists, the first of which holds the smaller positions.
fn merge(
    keys: &Vec<Vec<u64>>,
    left: &Vec<usize>,
    right: &Vec<usize>,
    from: usize,
    middle: usize,
    to: usize,
) -> (merged: Vec<usize>)
    requires
        from <= middle <= to <= keys@.len(),
        within(left@, from as int, middle as int),
        within(right@, middle as int, to as int),
        left@.len() == middle - from,
        right@.len() == to - middle,
        ascending(contents(keys@), left@),
        ascending(contents(keys@), right@),
    ensures
        within(merged@, from as int, to as int),
        merged@.len() == to - from,
        ascending(contents(keys@), merged@),
{
    let ghost all = contents(keys@);
    let mut merged: Vec<usize> = Vec::new();
    let mut i: usize = 0;
    let mut j: usize = 0;
    while i < left.len() || j < right.len()
        invariant
            all == contents(keys@),
            from <= middle <= to <= keys@.len(),
            within(left@, from as int, middle as int),
            within(right@, middle as int, to as int),
            ascending(all, left@),
            ascending(all, right@),
            i <= left@.len(),
            j <= right@.len(),
            merged@.len() == i + j,
            within(merged@, from as int, to as int),
            ascending(all, merged@),
            forall|a: int, b: int|
                0 <= a < merged@.len() && i <= b < left@.len() ==> before(
                    all,
                    #[trigger] merged@[a] as int,
                    #[trigger] left@[b] as int,
                ),
            forall|a: int, b: int|
                0 <= a < merged@.len() && j <= b < right@.len() ==> before(
                    all,
                    #[trigger] merged@[a] as int,
                    #[trigger] right@[b] as int,
                ),
        decreases left@.len() - i + right@.len() - j,
    {
        let take_left: bool = j == right.len() || (i < left.len() && key_not_after(
            &keys[left[i]],
            &keys[right[j]],
        ));
        if take_left {
            proof {
                assert forall|b: int| j <= b < right@.len() implies before(
                    all,
                    left@[i as int] as int,
                    #[trigger] right@[b] as int,
                ) by {
                    assert(before(all, left@[i as int] as int, right@[j as int] as int));
                    if b > j {
                        lemma_before_transitive(
                            all,
                            left@[i as int] as int,
                            right@[j as int] as int,
                            right@[b] as int,
                        );
                    }
                }
            }
            merged.push(left[i]);
            i += 1;
        } else {
            proof {
                assert forall|b: int| i <= b < left@.len() implies before(
                    all,
                    right@[j as int] as int,
                    #[trigger] left@[b] as int,
                ) by {
                    lemma_key_le_total(
                        all[left@[i as int] as int],
                        all[right@[j as int] as int],
                    );
                    assert(before(all, right@[j as int] as int, left@[i as int] as int));
                    if b > i {
                        lemma_before_transitive(
                            all,
                            right@[j as int] as int,
                            left@[i as int] as int,
                            left@[b] as int,
                        );
                    }
                }
            }
            merged.push(right[j]);
            j += 1;
        }
    }
    merged
}

fn sort_range(keys: &Vec<Vec<u64>>, from: usize, to: usize) -> (order: Vec<usize>)
    requires
        from <= to <= keys@.len(),
    ensures
        within(order@, from as int, to as int),
        order@.len() == to - from,
        ascending(contents(keys@), order@),
    decreases to - from,
{
    if to - from <= 1 {
        let mut order: Vec<usize> = Vec::new();
        if from < to {
            order.push(from);
        }
        return order;
    }
    let middle: usize = from + (to - from) / 2;
    let left = sort_range(keys, from, middle);
    let right = sort_range(keys, middle, to);
    merge(keys, &left, &right, from, middle, to)
}

/// The order in which a stable sort puts the items with the given keys.
pub fn order_by(keys: &Vec<Vec<u64>>) -> (order: Vec<usize>)
    ensures
        is_stable_order(contents(keys@), order@),
        order@ == stable_order(contents(keys@)),
{
    let order = sort_range(keys, 0, keys.len());
    proof {
        assert(is_stable_order(contents(keys@), order@));
        stable_order_is_unique(contents(keys@), order@, stable_order(contents(keys@)));
    }
    order
}

/// The items of a list in the given order.
pub fn arrange<T>(items: Vec<T>, order: &Vec<usize>) -> (result: Vec<T>)
    requires
        within(order@, 0, items@.len() as int),
        forall|i: int, j: int|
            0 <= i < j < order@.len() ==> #[trigger] order@[i] != #[trigger] order@[j],
    ensures
        result@ == arranged(items@, order@),
{
    let ghost all = items@;
    let mut slots: Vec<Option<T>> = Vec::new();
    for item in iter: items
        invariant
            iter.seq() == all,
            slots@.len() == iter.index(),
            forall|k: int| 0 <= k < slots@.len() ==> #[trigger] slots@[k] == Some(all[k]),
    {
        slots.push(Some(item));
    }
    let mut result: Vec<T> = Vec::new();
    let mut i: usize = 0;
    while i < order.len()
        invariant
            i <= order@.len(),
            within(order@, 0, all.len() as int),
            forall|a: int, b: int|
                0 <= a < b < order@.len() ==> #[trigger] order@[a] != #[trigger] order@[b],
            slots@.len() == all.len(),
            forall|k: int|
                i <= k < order@.len() ==> slots@[#[trigger] order@[k] as int] == Some(
                    all[order@[k] as int],
                ),
            result@ == arranged(all, order@.take(i as int)),
        decreases order@.len() - i,
    {
        let mut slot: Option<T> = None;
        let place: usize = order[i];
        core::mem::swap(&mut slot, &mut slots[place]);
        if let Some(item) = slot {
            result.push(item);
        }
        i += 1;
        assert(result@ =~= arranged(all, order@.take(i as int)));
    }
    assert(order@.take(i as int) =~= order@);
    result
}

/// Sorts the items of a list stably by their keys.
pub fn sort_by_keys<T>(items: Vec<T>, keys: &Vec<Vec<u64>>) -> (result: Vec<T>)
    requires
        items@.len() == keys@.len(),
    ensures
        result@ == sorted_by(items@, contents(keys@)),
        result@.len() == items@.len(),
{
    let order = order_by(keys);
    proof {
        assert forall|i: int, j: int| 0 <= i < j < order@.len() implies #[trigger] order@[i]
            != #[trigger] order@[j] by {
            assert(before(contents(keys@), order@[i] as int, order@[j] as int));
        }
    }
    arrange(items, &order)
}

/// Whether two keys differ first at a place that both have.
pub open spec fn part_at(left: Seq<u64>, right: Seq<u64>, place: int) -> bool {
    &&& 0 <= place < left.len()
    &&& place < right.len()
    &&& left[place] != right[place]
    &&& forall|i: int| 0 <= i < place ==> left[i] == right[i]
}

/// The first difference decides the order of two keys, whatever follows it.
pub proof fn the_first_difference_decides(
    left: Seq<u64>,
    right: Seq<u64>,
    after_left: Seq<u64>,
    after_right: Seq<u64>,
    place: int,
)
    requires
        part_at(left, right, place),
    ensures
        key_le(left + after_left, right + after_right) == (left[place] < right[place]),
    decreases left.len(),
{
    let first = left + after_left;
    let second = right + after_right;
    if place > 0 {
        assert(left[0] == right[0]);
        let rest = left.drop_first();
        let other = right.drop_first();
        assert forall|i: int| 0 <= i < place - 1 implies rest[i] == other[i] by {
            assert(left[i + 1] == right[i + 1]);
        }
        the_first_difference_decides(rest, other, after_left, after_right, place - 1);
        assert(first.drop_first() =~= rest + after_left);
        assert(second.drop_first() =~= other + after_right);
    }
}

/// A common start does not matter for the order of two keys.
pub proof fn a_common_start_does_not_matter(start: Seq<u64>, left: Seq<u64>, right: Seq<u64>)
    ensures
        key_le(start + left, start + right) == key_le(left, right),
    decreases start.len(),
{
    if start.len() == 0 {
        assert(start + left =~= left);
        assert(start + right =~= right);
    } else {
        a_common_start_does_not_matter(start.drop_first(), left, right);
        assert((start + left).drop_first() =~= start.drop_first() + left);
        assert((start + right).drop_first() =~= start.drop_first() + right);
    }
}

/// Whether one key comes strictly before another.
pub open spec fn precedes(left: Seq<u64>, right: Seq<u64>) -> bool {
    key_le(left, right) && !key_le(right, left)
}

/// The number in which two keys first differ decides which comes first.
pub proof fn the_smaller_number_comes_first(left: Seq<u64>, right: Seq<u64>, place: int)
    requires
        part_at(left, right, place),
    ensures
        left[place] < right[place] ==> precedes(left, right),
        left[place] > right[place] ==> precedes(right, left),
{
    let none = Seq::<u64>::empty();
    assert(left + none =~= left && right + none =~= right);
    the_first_difference_decides(left, right, none, none, place);
    the_first_difference_decides(right, left, none, none, place);
}

/// Of two keys the one that begins the other comes first.
pub proof fn a_beginning_comes_first(left: Seq<u64>, rest: Seq<u64>)
    ensures
        key_le(left, left + rest),
        rest.len() > 0 ==> precedes(left, left + rest),
{
    let none = Seq::<u64>::empty();
    a_common_start_does_not_matter(left, none, rest);
    a_common_start_does_not_matter(left, rest, none);
    assert(left + none =~= left);
}

} // verus!
