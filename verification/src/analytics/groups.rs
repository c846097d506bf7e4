//! Groups of files add up to all files.
use vstd::prelude::*;

use crate::analytics;
use crate::analytics::GroupLine;
use crate::order;
use crate::sums;
use crate::text;
use crate::tree;
use crate::tree::UsageStats;

verus! {

/// What the groups take up.
pub open spec fn group_usages(rows: Seq<GroupLine>) -> Seq<UsageStats> {
    Seq::new(rows.len(), |r: int| rows[r].stats.usage)
}

/// What the file at a place adds to the group of a name.
spec fn group_share(
    names: Seq<Seq<char>>,
    usages: Seq<UsageStats>,
    which: int,
    name: Seq<char>,
) -> spec_fn(int) -> nat {
    |i: int|
        if names[i] == name {
            sums::number(usages[i], which)
        } else {
            0
        }
}

proof fn lemma_group_total(
    names: Seq<Seq<char>>,
    usages: Seq<UsageStats>,
    which: int,
    name: Seq<char>,
)
    requires
        names.len() == usages.len(),
    ensures
        sums::number(analytics::group_total(names, usages, name).usage, which) == tree::saturated(
            sums::sum_of(group_share(names, usages, which, name), names.len()) as int,
        ),
    decreases names.len(),
{
    let shares = group_share(names, usages, which, name);
    sums::lemma_sum_step(shares, names.len());
    if names.len() > 0 {
        let fewer = names.drop_last();
        let less = usages.drop_last();
        lemma_group_total(fewer, less, which, name);
        sums::lemma_sum_same(group_share(fewer, less, which, name), shares, fewer.len());
    }
}

proof fn lemma_usage_sum(usages: Seq<UsageStats>, which: int)
    ensures
        sums::number(analytics::usage_sum(usages), which) == tree::saturated(
            sums::sum_of(|i: int| sums::number(usages[i], which), usages.len()) as int,
        ),
    decreases usages.len(),
{
    let numbers = |i: int| sums::number(usages[i], which);
    sums::lemma_sum_step(numbers, usages.len());
    if usages.len() > 0 {
        let less = usages.drop_last();
        lemma_usage_sum(less, which);
        sums::lemma_sum_same(|i: int| sums::number(less[i], which), numbers, less.len());
    }
}

proof fn lemma_groups_add_up(
    rows: Seq<GroupLine>,
    names: Seq<Seq<char>>,
    usages: Seq<UsageStats>,
    which: int,
)
    requires
        names.len() == usages.len(),
        analytics::is_grouping(rows, names, usages),
    ensures
        sums::number(analytics::usage_sum(group_usages(rows)), which) == sums::number(
            analytics::usage_sum(usages),
            which,
        ),
{
    let n = names.len();
    let numbers = |i: int| sums::number(usages[i], which);
    let stated = |r: int| sums::number(group_usages(rows)[r], which);
    let table = |r: int, i: int|
        if names[i] == rows[r].name {
            sums::number(usages[i], which)
        } else {
            0
        };
    let groups = |r: int| sums::sum_of(|i: int| table(r, i), n);
    let columns = |i: int| sums::sum_of(|r: int| table(r, i), rows.len());
    lemma_usage_sum(usages, which);
    lemma_usage_sum(group_usages(rows), which);
    sums::lemma_sum_same(
        |r: int| sums::number(group_usages(rows)[r], which),
        stated,
        rows.len(),
    );
    assert forall|r: int| 0 <= r < rows.len() implies #[trigger] stated(r) == groups(r) || stated(r)
        == tree::saturated(groups(r) as int) by {
        assert(names.contains(rows[r].name));
        lemma_group_total(names, usages, which, rows[r].name);
        sums::lemma_sum_same(
            |i: int| table(r, i),
            group_share(names, usages, which, rows[r].name),
            n,
        );
    }
    sums::lemma_sum_capped(groups, stated, rows.len());
    sums::lemma_sum_swapped(table, rows.len(), n);
    assert forall|i: int| 0 <= i < n implies #[trigger] columns(i) == numbers(i) by {
        let column = |r: int| table(r, i);
        assert(names.contains(names[i]));
        let at = choose|r: int| 0 <= r < rows.len() && (#[trigger] rows[r]).name == names[i];
        assert forall|r: int| 0 <= r < rows.len() && r != at implies #[trigger] column(r) == 0 by {
            if r < at {
                assert(rows[r].name != rows[at].name);
            } else {
                assert(rows[at].name != rows[r].name);
            }
        }
        sums::lemma_sum_one(column, rows.len(), at);
    }
    sums::lemma_sum_same(columns, numbers, n);
}

/// The groups of some files together take up what the files take up.
pub proof fn groups_add_up_to_all_files(
    rows: Seq<GroupLine>,
    names: Seq<Seq<char>>,
    usages: Seq<UsageStats>,
)
    requires
        names.len() == usages.len(),
        analytics::is_grouping(rows, names, usages),
    ensures
        analytics::usage_sum(group_usages(rows)) == analytics::usage_sum(usages),
{
    lemma_groups_add_up(rows, names, usages, 0);
    lemma_groups_add_up(rows, names, usages, 1);
    lemma_groups_add_up(rows, names, usages, 2);
}

/// How many files the groups hold.
pub open spec fn files_in(rows: Seq<GroupLine>) -> u64
    decreases rows.len(),
{
    if rows.len() == 0 {
        0
    } else {
        tree::saturated(files_in(rows.drop_last()) + rows.last().stats.files)
    }
}

/// One for each file.
spec fn one_each(count: nat) -> Seq<UsageStats> {
    Seq::new(count, |i: int| UsageStats { logical: 1, physical: 0, files: 0 })
}

/// The groups with their number of files in place of what they take up.
spec fn counting(rows: Seq<GroupLine>, names: Seq<Seq<char>>) -> Seq<GroupLine> {
    Seq::new(
        rows.len(),
        |r: int|
            GroupLine {
                name: rows[r].name,
                stats: analytics::group_total(names, one_each(names.len()), rows[r].name),
            },
    )
}

proof fn lemma_counted(names: Seq<Seq<char>>, usages: Seq<UsageStats>, name: Seq<char>)
    requires
        names.len() == usages.len(),
    ensures
        analytics::group_total(names, usages, name).files == analytics::group_total(
            names,
            one_each(names.len()),
            name,
        ).usage.logical,
        names.contains(name) ==> analytics::group_total(names, usages, name).files > 0,
    decreases names.len(),
{
    if names.len() > 0 {
        let fewer = names.drop_last();
        lemma_counted(fewer, usages.drop_last(), name);
        assert(one_each(names.len()).drop_last() =~= one_each(fewer.len()));
        if names.contains(name) && names.last() != name {
            let i = choose|i: int| 0 <= i < names.len() && names[i] == name;
            assert(fewer[i] == name);
        }
    }
}

proof fn lemma_files_in(rows: Seq<GroupLine>, counted: Seq<GroupLine>)
    requires
        rows.len() == counted.len(),
        forall|r: int|
            0 <= r < rows.len() ==> (#[trigger] rows[r]).stats.files
                == counted[r].stats.usage.logical,
    ensures
        files_in(rows) == analytics::usage_sum(group_usages(counted)).logical,
    decreases rows.len(),
{
    if rows.len() > 0 {
        lemma_files_in(rows.drop_last(), counted.drop_last());
        assert(group_usages(counted).drop_last() =~= group_usages(counted.drop_last()));
        assert(rows[rows.len() - 1].stats.files == counted[rows.len() - 1].stats.usage.logical);
    }
}

proof fn lemma_one_each(count: nat)
    ensures
        analytics::usage_sum(one_each(count)).logical == tree::saturated(count as int),
    decreases count,
{
    if count > 0 {
        lemma_one_each((count - 1) as nat);
        assert(one_each(count).drop_last() =~= one_each((count - 1) as nat));
    }
}

/// The groups of some files together hold as many files as there are, and none
/// of them is empty.
pub proof fn every_file_is_in_one_group(
    rows: Seq<GroupLine>,
    names: Seq<Seq<char>>,
    usages: Seq<UsageStats>,
)
    requires
        names.len() == usages.len(),
        analytics::is_grouping(rows, names, usages),
    ensures
        files_in(rows) == tree::saturated(names.len() as int),
        forall|r: int| 0 <= r < rows.len() ==> (#[trigger] rows[r]).stats.files > 0,
{
    let ones = one_each(names.len());
    let counted = counting(rows, names);
    assert forall|r: int| 0 <= r < rows.len() implies (#[trigger] rows[r]).stats.files
        == counted[r].stats.usage.logical && rows[r].stats.files > 0 by {
        lemma_counted(names, usages, rows[r].name);
    }
    assert(analytics::is_grouping(counted, names, ones)) by {
        assert forall|i: int, j: int| 0 <= i < j < counted.len() implies order::key_le(
            text::text_key((#[trigger] counted[i]).name),
            text::text_key((#[trigger] counted[j]).name),
        ) && counted[i].name != counted[j].name by {
            assert(rows[i].name != rows[j].name);
        }
        assert forall|i: int| 0 <= i < counted.len() implies names.contains(
            (#[trigger] counted[i]).name,
        ) by {
            assert(names.contains(rows[i].name));
        }
        assert forall|name: Seq<char>| #[trigger] names.contains(name) implies exists|i: int|
            0 <= i < counted.len() && (#[trigger] counted[i]).name == name by {
            let i = choose|i: int| 0 <= i < rows.len() && (#[trigger] rows[i]).name == name;
            assert(counted[i].name == name);
        }
    }
    lemma_groups_add_up(counted, names, ones, 0);
    lemma_files_in(rows, counted);
    lemma_one_each(names.len());
}

} // verus!
