//! Sums of many numbers, in whatever order they come.
use vstd::prelude::*;

use crate::order;
use crate::tree;
use crate::tree::UsageStats;

verus! {

/// One of the three numbers of a usage.
pub open spec fn number(usage: UsageStats, which: int) -> nat {
    if which == 0 {
        usage.logical as nat
    } else if which == 1 {
        usage.physical as nat
    } else {
        usage.files as nat
    }
}

pub open spec fn sum(values: Seq<nat>) -> nat
    decreases values.len(),
{
    if values.len() == 0 {
        0
    } else {
        sum(values.drop_last()) + values.last()
    }
}

/// The sum of the first `n` values of a function.
pub open spec fn sum_of(f: spec_fn(int) -> nat, n: nat) -> nat {
    sum(Seq::new(n, f))
}

pub proof fn lemma_sum_step(f: spec_fn(int) -> nat, n: nat)
    ensures
        sum_of(f, 0) == 0,
        n > 0 ==> sum_of(f, n) == sum_of(f, (n - 1) as nat) + f(n - 1),
{
    if n > 0 {
        assert(Seq::new(n, f).drop_last() =~= Seq::new((n - 1) as nat, f));
    }
}

pub proof fn lemma_sum_same(f: spec_fn(int) -> nat, g: spec_fn(int) -> nat, n: nat)
    requires
        forall|i: int| 0 <= i < n ==> #[trigger] f(i) == g(i),
    ensures
        sum_of(f, n) == sum_of(g, n),
{
    assert(Seq::new(n, f) =~= Seq::new(n, g));
}

pub proof fn lemma_sum_both(f: spec_fn(int) -> nat, g: spec_fn(int) -> nat, n: nat)
    ensures
        sum_of(|i: int| f(i) + g(i), n) == sum_of(f, n) + sum_of(g, n),
    decreases n,
{
    lemma_sum_step(f, n);
    lemma_sum_step(g, n);
    lemma_sum_step(|i: int| f(i) + g(i), n);
    if n > 0 {
        lemma_sum_both(f, g, (n - 1) as nat);
    }
}

pub proof fn lemma_sum_nothing(f: spec_fn(int) -> nat, n: nat)
    requires
        forall|i: int| 0 <= i < n ==> #[trigger] f(i) == 0,
    ensures
        sum_of(f, n) == 0,
    decreases n,
{
    lemma_sum_step(f, n);
    if n > 0 {
        lemma_sum_nothing(f, (n - 1) as nat);
    }
}

/// A sum with at most one value that counts is that value.
pub proof fn lemma_sum_one(f: spec_fn(int) -> nat, n: nat, at: int)
    requires
        0 <= at < n,
        forall|i: int| 0 <= i < n && i != at ==> #[trigger] f(i) == 0,
    ensures
        sum_of(f, n) == f(at),
    decreases n,
{
    lemma_sum_step(f, n);
    if at == n - 1 {
        lemma_sum_nothing(f, (n - 1) as nat);
    } else {
        lemma_sum_one(f, (n - 1) as nat, at);
    }
}

/// A table has the same sum by rows and by columns.
pub proof fn lemma_sum_swapped(g: spec_fn(int, int) -> nat, n: nat, m: nat)
    ensures
        sum_of(|c: int| sum_of(|x: int| g(c, x), m), n) == sum_of(
            |x: int| sum_of(|c: int| g(c, x), n),
            m,
        ),
    decreases n,
{
    let rows = |c: int| sum_of(|x: int| g(c, x), m);
    let columns = |x: int| sum_of(|c: int| g(c, x), n);
    lemma_sum_step(rows, n);
    if n == 0 {
        assert forall|x: int| 0 <= x < m implies #[trigger] columns(x) == 0 by {
            lemma_sum_step(|c: int| g(c, x), 0);
        }
        lemma_sum_nothing(columns, m);
    } else {
        let less = (n - 1) as nat;
        let shorter = |x: int| sum_of(|c: int| g(c, x), less);
        let last = |x: int| g(less as int, x);
        lemma_sum_swapped(g, less, m);
        lemma_sum_both(shorter, last, m);
        assert forall|x: int| 0 <= x < m implies #[trigger] columns(x) == (|x: int|
            shorter(x) + last(x))(x) by {
            lemma_sum_step(|c: int| g(c, x), n);
        }
        lemma_sum_same(columns, |x: int| shorter(x) + last(x), m);
        lemma_sum_same(|x: int| g(less as int, x), last, m);
        assert(rows(less as int) == sum_of(last, m));
    }
}

proof fn lemma_sum_removed(values: Seq<nat>, at: int)
    requires
        0 <= at < values.len(),
    ensures
        sum(values) == sum(values.remove(at)) + values[at],
    decreases values.len(),
{
    if at == values.len() - 1 {
        assert(values.remove(at) =~= values.drop_last());
    } else {
        lemma_sum_removed(values.drop_last(), at);
        assert(values.remove(at).drop_last() =~= values.drop_last().remove(at));
        assert(values.remove(at).last() == values.last());
    }
}

/// The order of the values does not change their sum.
pub proof fn lemma_sum_reordered(keys: Seq<Seq<u64>>, order: Seq<usize>, f: spec_fn(int) -> nat)
    requires
        order::is_stable_order(keys, order),
    ensures
        sum_of(|j: int| f(order[j] as int), keys.len()) == sum_of(f, keys.len()),
    decreases keys.len(),
{
    let n = keys.len();
    lemma_sum_step(f, n);
    if n == 0 {
        lemma_sum_step(|j: int| f(order[j] as int), 0);
    } else {
        order::stable_order_has_every_item(keys, order, n - 1);
        let at = choose|i: int| 0 <= i < order.len() && #[trigger] order[i] == n - 1;
        let rest = order.remove(at);
        let fewer = keys.drop_last();
        assert forall|i: int| 0 <= i < rest.len() implies 0 <= #[trigger] rest[i] < n - 1 by {
            let from = if i < at {
                i
            } else {
                i + 1
            };
            assert(rest[i] == order[from]);
            if from < at {
                assert(order::before(keys, order[from] as int, order[at] as int));
            } else {
                assert(order::before(keys, order[at] as int, order[from] as int));
            }
        }
        assert(order::ascending(fewer, rest)) by {
            assert forall|i: int, j: int| 0 <= i < j < rest.len() implies order::before(
                fewer,
                #[trigger] rest[i] as int,
                #[trigger] rest[j] as int,
            ) by {
                let a = if i < at {
                    i
                } else {
                    i + 1
                };
                let b = if j < at {
                    j
                } else {
                    j + 1
                };
                assert(order::before(keys, order[a] as int, order[b] as int));
            }
        }
        lemma_sum_reordered(fewer, rest, f);
        let values = Seq::new(n, |j: int| f(order[j] as int));
        lemma_sum_removed(values, at);
        assert(values.remove(at) =~= Seq::new(
            (n - 1) as nat,
            |j: int| f(rest[j] as int),
        ));
    }
}

/// Values that are capped one by one have the same capped sum.
pub proof fn lemma_sum_capped(f: spec_fn(int) -> nat, capped: spec_fn(int) -> nat, n: nat)
    requires
        forall|i: int|
            0 <= i < n ==> #[trigger] capped(i) == f(i) || capped(i) == tree::saturated(
                f(i) as int,
            ),
    ensures
        tree::saturated(sum_of(capped, n) as int) == tree::saturated(sum_of(f, n) as int),
    decreases n,
{
    lemma_sum_step(f, n);
    lemma_sum_step(capped, n);
    if n > 0 {
        lemma_sum_capped(f, capped, (n - 1) as nat);
        assert(capped(n - 1) == f(n - 1) || capped(n - 1) == tree::saturated(f(n - 1) as int));
    }
}

} // verus!
