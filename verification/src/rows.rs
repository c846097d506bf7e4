//! The rows of the analysis views.
use vstd::prelude::*;
use vstd::string::StringExecFns;

use crate::analytics;
use crate::analytics::{
    AnalysisIndex, AnalysisSummary, DuplicateEntry, DuplicateGroup, EntryModel, FileRecord,
    GroupLine, GroupModel, GroupRow, IndexModel,
};
use crate::app;
use crate::app::{AnalysisRow, RowModel, ViewKind};
use crate::filter;
use crate::filter::{FilterExpression, PredicateModel};
use crate::lists;
use crate::order;
use crate::path;
use crate::path::FilePath;
use crate::snapshot;
use crate::snapshot::{ChangeRecord, ComparisonModel, SnapshotComparison};
use crate::text;
use crate::tree;
use crate::tree::{SizeMode, SortDirection, SortKey, SortSpec, UsageStats};

verus! {

/// The largest number of rows that a view holds.
pub const MAX_ANALYSIS_ROWS: usize = 100_000;

/// The files that a filter admits; without a filter, all.
pub open spec fn admitted(
    filter: Option<Seq<PredicateModel>>,
    mode: SizeMode,
    now: u64,
) -> spec_fn(FileRecord) -> bool {
    |file: FileRecord|
        match filter {
            Some(filter) => filter::admits_all(filter, filter::file_subject(file), mode, now),
            None => true,
        }
}

fn admits(filter: &Option<FilterExpression>, file: &FileRecord, mode: SizeMode, now: u64) -> (result:
    bool)
    ensures
        result == admitted(filter::filter_view(*filter), mode, now)(*file),
{
    match filter {
        Some(filter) => filter.matches_file_at(file, mode, now),
        None => true,
    }
}

/// The places of the files that a filter admits.
fn admitted_places(
    files: &Vec<FileRecord>,
    filter: &Option<FilterExpression>,
    mode: SizeMode,
    now: u64,
) -> (places: Vec<usize>)
    ensures
        order::within(places@, 0, files@.len() as int),
        analytics::chosen_files(files@, places@) == files@.filter(
            admitted(filter::filter_view(*filter), mode, now),
        ),
{
    let ghost keep = admitted(filter::filter_view(*filter), mode, now);
    let mut places: Vec<usize> = Vec::new();
    let mut i: usize = 0;
    proof {
        reveal(Seq::filter);
        assert(files@.take(0) =~= Seq::empty());
        assert(analytics::chosen_files(files@, places@) =~= files@.take(0).filter(keep));
    }
    while i < files.len()
        invariant
            i <= files@.len(),
            keep == admitted(filter::filter_view(*filter), mode, now),
            order::within(places@, 0, i as int),
            analytics::chosen_files(files@, places@) == files@.take(i as int).filter(keep),
        decreases files@.len() - i,
    {
        let ghost before = places@;
        proof {
            lists::lemma_filter_step(files@, keep, i as int);
        }
        if admits(filter, &files[i], mode, now) {
            places.push(i);
            assert(analytics::chosen_files(files@, places@) =~= analytics::chosen_files(
                files@,
                before,
            ).push(files@[i as int]));
        }
        i += 1;
    }
    assert(files@.take(i as int) =~= files@);
    places
}

/// The sort key of a file name that may be missing: no name comes first.
pub open spec fn optional_name_key(name: Option<Seq<u8>>) -> Seq<u64> {
    match name {
        Some(name) => seq![1u64] + path::bytes_key(name),
        None => seq![0u64],
    }
}

/// What a file is sorted by, apart from its path. All count as one file.
pub open spec fn file_rank(file: FileRecord, key: SortKey, mode: SizeMode) -> Seq<u64> {
    match key {
        SortKey::Size => seq![file.usage.amount(mode)],
        SortKey::Files => Seq::empty(),
        SortKey::Name => optional_name_key(path::file_name_of(file.path@)),
        SortKey::Kind => seq![file.category.rank()],
    }
}

/// The sort key of a file: by the chosen key in its direction, then by path.
pub open spec fn file_key(file: FileRecord, sort: SortSpec, mode: SizeMode) -> Seq<u64> {
    sort.direction.directed_key(file_rank(file, sort.key, mode)) + path::path_key(file.path@)
}

pub open spec fn file_keys(files: Seq<FileRecord>, sort: SortSpec, mode: SizeMode) -> Seq<
    Seq<u64>,
> {
    Seq::new(files.len(), |i: int| file_key(files[i], sort, mode))
}

fn append_key(key: &mut Vec<u64>, more: &Vec<u64>)
    ensures
        final(key)@ == old(key)@ + more@,
{
    let ghost before = key@;
    let mut i: usize = 0;
    assert(before + more@.take(0) =~= before);
    while i < more.len()
        invariant
            i <= more@.len(),
            key@ == before + more@.take(i as int),
        decreases more@.len() - i,
    {
        key.push(more[i]);
        i += 1;
        assert(key@ =~= before + more@.take(i as int));
    }
    assert(more@.take(i as int) =~= more@);
}

fn key_of_file(file: &FileRecord, sort: SortSpec, mode: SizeMode) -> (key: Vec<u64>)
    ensures
        key@ == file_key(*file, sort, mode),
{
    let mut first: Vec<u64> = Vec::new();
    match sort.key {
        SortKey::Size => {
            first.push(file.usage.size(mode));
            assert(first@ =~= seq![file.usage.amount(mode)]);
        },
        SortKey::Files => {
            assert(first@ =~= Seq::empty());
        },
        SortKey::Name => {
            match file.path.file_name() {
                Some(name) => {
                    first.push(1);
                    assert(first@ =~= seq![1u64]);
                    path::push_bytes_key(&mut first, name.as_bytes());
                },
                None => {
                    first.push(0);
                    assert(first@ =~= seq![0u64]);
                },
            }
        },
        SortKey::Kind => {
            first.push(file.category.place());
            assert(first@ =~= seq![file.category.rank()]);
        },
    }
    let mut key = sort.direction.direct_key(&first);
    append_key(&mut key, &file.path.sort_key());
    key
}

/// The name that is shown for a path.
pub open spec fn shown_name(path: Seq<u8>) -> Seq<char> {
    text::lossy_text(tree::base_name(path))
}

pub fn name_of(path: &FilePath) -> (name: String)
    ensures
        name@ == shown_name(path@),
{
    tree::base_name_of(path).display()
}

/// The row of a file.
pub open spec fn file_row(file: FileRecord) -> RowModel {
    RowModel {
        label: shown_name(file.path@),
        path: Some(file.path),
        usage: file.usage,
        files: 1,
        detail: file.category.label_text() + " · "@ + match file.extension {
            Some(extension) => extension@,
            None => "no extension"@,
        },
        indent: 0,
    }
}

fn row_of_file(file: &FileRecord) -> (row: AnalysisRow)
    ensures
        row@ == file_row(*file),
{
    let mut detail = file.category.label().to_owned();
    detail.append(" · ");
    match &file.extension {
        Some(extension) => {
            detail.append(extension.as_str());
        },
        None => {
            detail.append("no extension");
        },
    }
    AnalysisRow {
        label: name_of(&file.path),
        path: Some(file.path.clone()),
        usage: file.usage,
        files: 1,
        detail,
        indent: 0,
    }
}

/// The files that a filter admits, sorted.
pub open spec fn largest_files(
    files: Seq<FileRecord>,
    filter: Option<Seq<PredicateModel>>,
    sort: SortSpec,
    mode: SizeMode,
    now: u64,
) -> Seq<FileRecord> {
    let chosen = files.filter(admitted(filter, mode, now));
    order::sorted_by(chosen, file_keys(chosen, sort, mode))
}

/// The rows of the first files, as many as a view holds.
pub open spec fn largest_rows(
    files: Seq<FileRecord>,
    filter: Option<Seq<PredicateModel>>,
    sort: SortSpec,
    mode: SizeMode,
    now: u64,
) -> Seq<RowModel> {
    let sorted = largest_files(files, filter, sort, mode, now);
    let count = if sorted.len() > MAX_ANALYSIS_ROWS {
        MAX_ANALYSIS_ROWS as nat
    } else {
        sorted.len()
    };
    Seq::new(count, |i: int| file_row(sorted[i]))
}

/// The rows of the largest files, and whether there are more files than that.
fn rows_of_files(
    files: &Vec<FileRecord>,
    filter: &Option<FilterExpression>,
    sort: SortSpec,
    mode: SizeMode,
    now: u64,
) -> (result: (Vec<AnalysisRow>, bool))
    ensures
        app::row_views(result.0@) == largest_rows(
            files@,
            filter::filter_view(*filter),
            sort,
            mode,
            now,
        ),
        result.1 == (largest_files(files@, filter::filter_view(*filter), sort, mode, now).len()
            > MAX_ANALYSIS_ROWS),
{
    let places = admitted_places(files, filter, mode, now);
    let ghost chosen = analytics::chosen_files(files@, places@);
    let mut keys: Vec<Vec<u64>> = Vec::new();
    let mut i: usize = 0;
    while i < places.len()
        invariant
            i <= places@.len(),
            order::within(places@, 0, files@.len() as int),
            chosen == analytics::chosen_files(files@, places@),
            order::contents(keys@) == file_keys(chosen, sort, mode).take(i as int),
            keys@.len() == i,
        decreases places@.len() - i,
    {
        let ghost before = keys@;
        keys.push(key_of_file(&files[places[i]], sort, mode));
        i += 1;
        proof {
            assert(order::contents(keys@) =~= order::contents(before).push(
                file_key(chosen[i - 1], sort, mode),
            ));
            assert(order::contents(keys@) =~= file_keys(chosen, sort, mode).take(i as int));
        }
    }
    assert(order::contents(keys@) =~= file_keys(chosen, sort, mode));
    let sorted = order::order_by(&keys);
    let ghost stated = largest_files(files@, filter::filter_view(*filter), sort, mode, now);
    assert(stated =~= order::arranged(chosen, sorted@));
    let truncated: bool = sorted.len() > MAX_ANALYSIS_ROWS;
    let count: usize = if truncated {
        MAX_ANALYSIS_ROWS
    } else {
        sorted.len()
    };
    let mut rows: Vec<AnalysisRow> = Vec::new();
    let mut k: usize = 0;
    while k < count
        invariant
            k <= count <= sorted@.len(),
            sorted@.len() == places@.len(),
            order::within(sorted@, 0, places@.len() as int),
            order::within(places@, 0, files@.len() as int),
            chosen == analytics::chosen_files(files@, places@),
            stated == order::arranged(chosen, sorted@),
            rows@.len() == k,
            forall|j: int| 0 <= j < k ==> (#[trigger] rows@[j])@ == file_row(stated[j]),
        decreases count - k,
    {
        let place: usize = places[sorted[k]];
        rows.push(row_of_file(&files[place]));
        assert(stated[k as int] == files@[place as int]);
        k += 1;
    }
    assert(app::row_views(rows@) =~= largest_rows(
        files@,
        filter::filter_view(*filter),
        sort,
        mode,
        now,
    ));
    (rows, truncated)
}

/// The rows of groups, under the name of what they are grouped by.
pub open spec fn group_rows(groups: Seq<GroupLine>, section: Seq<char>) -> Seq<RowModel> {
    Seq::new(
        groups.len(),
        |i: int|
            RowModel {
                label: groups[i].name,
                path: None,
                usage: groups[i].stats.usage,
                files: groups[i].stats.files,
                detail: section,
                indent: 0,
            },
    )
}

fn append_group_rows(rows: &mut Vec<AnalysisRow>, section: &str, groups: &Vec<GroupRow>)
    ensures
        app::row_views(final(rows)@) == app::row_views(old(rows)@) + group_rows(
            analytics::group_lines(groups@),
            section@,
        ),
{
    let ghost before = app::row_views(rows@);
    let ghost all = group_rows(analytics::group_lines(groups@), section@);
    let mut i: usize = 0;
    assert(before + all.take(0) =~= before);
    while i < groups.len()
        invariant
            i <= groups@.len(),
            all == group_rows(analytics::group_lines(groups@), section@),
            app::row_views(rows@) == before + all.take(i as int),
        decreases groups@.len() - i,
    {
        let group: &GroupRow = &groups[i];
        push_row(
            rows,
            AnalysisRow {
                label: group.name.clone(),
                path: None,
                usage: group.stats.usage,
                files: group.stats.files,
                detail: section.to_owned(),
                indent: 0,
            },
        );
        assert(app::row_views(rows@) =~= before + all.take(i + 1));
        i += 1;
    }
    assert(all.take(i as int) =~= all);
}

fn push_row(rows: &mut Vec<AnalysisRow>, row: AnalysisRow)
    ensures
        app::row_views(final(rows)@) == app::row_views(old(rows)@).push(row@),
        final(rows)@.len() == old(rows)@.len() + 1,
{
    let ghost before = rows@;
    rows.push(row);
    assert(app::row_views(rows@) =~= app::row_views(before).push(row@));
}

/// The rows of the files by category, extension and age.
pub open spec fn type_rows(
    files: Seq<FileRecord>,
    filter: Option<Seq<PredicateModel>>,
    mode: SizeMode,
    now: u64,
) -> Seq<RowModel> {
    let chosen = files.filter(admitted(filter, mode, now));
    let usages = analytics::file_usages(chosen);
    group_rows(analytics::grouped(analytics::category_names(chosen), usages), "Category"@)
        + group_rows(analytics::grouped(analytics::extension_names(chosen), usages), "Extension"@)
        + group_rows(analytics::grouped(analytics::age_names(chosen, now), usages), "Age"@)
}

fn rows_of_types(
    files: &Vec<FileRecord>,
    filter: &Option<FilterExpression>,
    mode: SizeMode,
    now: u64,
) -> (rows: Vec<AnalysisRow>)
    ensures
        app::row_views(rows@) == type_rows(files@, filter::filter_view(*filter), mode, now),
{
    let places = admitted_places(files, filter, mode, now);
    let ghost chosen = analytics::chosen_files(files@, places@);
    let ghost usages = analytics::file_usages(chosen);
    let summary: AnalysisSummary = analytics::summary_of(files, &places, now);
    proof {
        let categories = analytics::group_lines(summary.categories@);
        let extensions = analytics::group_lines(summary.extensions@);
        let ages = analytics::group_lines(summary.age_buckets@);
        analytics::grouping_is_unique(
            categories,
            analytics::grouped(analytics::category_names(chosen), usages),
            analytics::category_names(chosen),
            usages,
        );
        analytics::grouping_is_unique(
            extensions,
            analytics::grouped(analytics::extension_names(chosen), usages),
            analytics::extension_names(chosen),
            usages,
        );
        analytics::grouping_is_unique(
            ages,
            analytics::grouped(analytics::age_names(chosen, now), usages),
            analytics::age_names(chosen, now),
            usages,
        );
    }
    let mut rows: Vec<AnalysisRow> = Vec::new();
    append_group_rows(&mut rows, "Category", &summary.categories);
    append_group_rows(&mut rows, "Extension", &summary.extensions);
    append_group_rows(&mut rows, "Age", &summary.age_buckets);
    assert(app::row_views(rows@) =~= type_rows(
        files@,
        filter::filter_view(*filter),
        mode,
        now,
    ));
    rows
}

/// The copies that a filter admits, going by what the index knows of the file.
pub open spec fn shown_copies(
    files: Seq<FileRecord>,
    filter: Option<Seq<PredicateModel>>,
    mode: SizeMode,
    now: u64,
) -> spec_fn(EntryModel) -> bool {
    |entry: EntryModel|
        match analytics::file_at(files, entry.path@) {
            Some(file) => admitted(filter, mode, now)(file),
            None => true,
        }
}

/// The first characters of a hash.
pub open spec fn short_hash(hash: Seq<char>) -> Seq<char> {
    if hash.len() < 12 {
        hash
    } else {
        hash.take(12)
    }
}

/// The row of a group of duplicates.
pub open spec fn duplicate_row(number: int, group: GroupModel, shown: nat) -> RowModel {
    RowModel {
        label: "Group "@ + text::decimal((number + 1) as nat) + " · "@ + text::decimal(shown)
            + "/"@ + text::decimal(group.files.len()) + " copies"@,
        path: None,
        usage: UsageStats {
            logical: group.reclaimable_logical,
            physical: group.physical_total,
            files: group.files.len() as u64,
        },
        files: group.files.len() as u64,
        detail: "reclaimable · "@ + short_hash(group.hash),
        indent: 0,
    }
}

/// The row of one of several copies.
pub open spec fn copy_row(entry: EntryModel) -> RowModel {
    RowModel {
        label: shown_name(entry.path@),
        path: Some(entry.path),
        usage: entry.usage,
        files: 1,
        detail: if entry.hardlink_aliases.len() == 0 {
            "exact duplicate"@
        } else {
            text::decimal(entry.hardlink_aliases.len()) + " hardlink alias(es)"@
        },
        indent: 1,
    }
}

pub open spec fn copy_rows(entries: Seq<EntryModel>) -> Seq<RowModel> {
    Seq::new(entries.len(), |i: int| copy_row(entries[i]))
}

/// The rows of one group: nothing where no copy is shown.
pub open spec fn one_group_rows(
    number: int,
    group: GroupModel,
    shows: spec_fn(EntryModel) -> bool,
) -> Seq<RowModel> {
    let shown = group.files.filter(shows);
    if shown.len() == 0 {
        Seq::empty()
    } else {
        seq![duplicate_row(number, group, shown.len())] + copy_rows(shown)
    }
}

/// The rows of groups of duplicates, in their order.
pub open spec fn duplicate_rows(
    groups: Seq<GroupModel>,
    shows: spec_fn(EntryModel) -> bool,
) -> Seq<RowModel>
    decreases groups.len(),
{
    if groups.len() == 0 {
        Seq::empty()
    } else {
        duplicate_rows(groups.drop_last(), shows) + one_group_rows(
            groups.len() - 1,
            groups.last(),
            shows,
        )
    }
}

fn row_of_group(number: usize, group: &DuplicateGroup, shown: usize) -> (row: AnalysisRow)
    requires
        number < usize::MAX,
    ensures
        row@ == duplicate_row(number as int, group@, shown as nat),
{
    let mut label = "Group ".to_owned();
    text::push_count(&mut label, number + 1);
    label.append(" · ");
    text::push_count(&mut label, shown);
    label.append("/");
    text::push_count(&mut label, group.files.len());
    label.append(" copies");
    let letters = text::chars_of(group.hash.as_str());
    let length: usize = if letters.len() < 12 {
        letters.len()
    } else {
        12
    };
    let mut detail = "reclaimable · ".to_owned();
    let short = text::text_range(&letters, 0, length);
    assert(short@ =~= short_hash(group.hash@));
    detail.append(short.as_str());
    let files: u64 = group.files.len() as u64;
    AnalysisRow {
        label,
        path: None,
        usage: UsageStats {
            logical: group.reclaimable_logical,
            physical: group.physical_total,
            files,
        },
        files,
        detail,
        indent: 0,
    }
}

fn row_of_copy(entry: &DuplicateEntry) -> (row: AnalysisRow)
    ensures
        row@ == copy_row(entry@),
{
    let detail = if entry.hardlink_aliases.len() == 0 {
        "exact duplicate".to_owned()
    } else {
        let mut detail = String::new();
        text::push_count(&mut detail, entry.hardlink_aliases.len());
        detail.append(" hardlink alias(es)");
        assert(detail@ =~= text::decimal(entry.hardlink_aliases@.len())
            + " hardlink alias(es)"@);
        detail
    };
    AnalysisRow {
        label: name_of(&entry.path),
        path: Some(entry.path.clone()),
        usage: entry.usage,
        files: 1,
        detail,
        indent: 1,
    }
}

fn shows_copy(
    files: &Vec<FileRecord>,
    filter: &Option<FilterExpression>,
    entry: &DuplicateEntry,
    mode: SizeMode,
    now: u64,
) -> (result: bool)
    ensures
        result == shown_copies(files@, filter::filter_view(*filter), mode, now)(entry@),
{
    match analytics::find_file(files, &entry.path) {
        Some(place) => admits(filter, &files[place], mode, now),
        None => true,
    }
}

fn rows_of_group(
    files: &Vec<FileRecord>,
    filter: &Option<FilterExpression>,
    number: usize,
    group: &DuplicateGroup,
    mode: SizeMode,
    now: u64,
) -> (rows: Vec<AnalysisRow>)
    requires
        number < usize::MAX,
    ensures
        app::row_views(rows@) == one_group_rows(
            number as int,
            group@,
            shown_copies(files@, filter::filter_view(*filter), mode, now),
        ),
{
    let ghost shows = shown_copies(files@, filter::filter_view(*filter), mode, now);
    let ghost entries = group@.files;
    let mut copies: Vec<AnalysisRow> = Vec::new();
    let mut i: usize = 0;
    proof {
        reveal(Seq::filter);
        assert(entries.take(0) =~= Seq::empty());
        assert(app::row_views(copies@) =~= copy_rows(entries.take(0).filter(shows)));
    }
    while i < group.files.len()
        invariant
            i <= group.files@.len(),
            entries == group@.files,
            shows == shown_copies(files@, filter::filter_view(*filter), mode, now),
            app::row_views(copies@) == copy_rows(entries.take(i as int).filter(shows)),
            copies@.len() == entries.take(i as int).filter(shows).len(),
        decreases group.files@.len() - i,
    {
        proof {
            lists::lemma_filter_step(entries, shows, i as int);
            assert(entries[i as int] == group.files@[i as int]@);
        }
        if shows_copy(files, filter, &group.files[i], mode, now) {
            let ghost before = entries.take(i as int).filter(shows);
            push_row(&mut copies, row_of_copy(&group.files[i]));
            assert(app::row_views(copies@) =~= copy_rows(before.push(entries[i as int])));
        }
        i += 1;
    }
    assert(entries.take(i as int) =~= entries);
    let mut rows: Vec<AnalysisRow> = Vec::new();
    assert(app::row_views(rows@) =~= Seq::empty());
    if copies.len() == 0 {
        return rows;
    }
    push_row(&mut rows, row_of_group(number, group, copies.len()));
    append_all(&mut rows, copies);
    assert(app::row_views(rows@) =~= one_group_rows(number as int, group@, shows));
    rows
}

fn append_all(rows: &mut Vec<AnalysisRow>, more: Vec<AnalysisRow>)
    ensures
        app::row_views(final(rows)@) == app::row_views(old(rows)@) + app::row_views(more@),
{
    let ghost before = rows@;
    let ghost added = more@;
    let mut more = more;
    rows.append(&mut more);
    assert(app::row_views(rows@) =~= app::row_views(before) + app::row_views(added));
}

fn rows_of_duplicates(
    files: &Vec<FileRecord>,
    filter: &Option<FilterExpression>,
    groups: &Vec<DuplicateGroup>,
    mode: SizeMode,
    now: u64,
) -> (rows: Vec<AnalysisRow>)
    ensures
        app::row_views(rows@) == duplicate_rows(
            analytics::group_views(groups@),
            shown_copies(files@, filter::filter_view(*filter), mode, now),
        ),
{
    let ghost shows = shown_copies(files@, filter::filter_view(*filter), mode, now);
    let ghost all = analytics::group_views(groups@);
    let mut rows: Vec<AnalysisRow> = Vec::new();
    let mut i: usize = 0;
    assert(app::row_views(rows@) =~= duplicate_rows(all.take(0), shows));
    while i < groups.len()
        invariant
            i <= groups@.len(),
            all == analytics::group_views(groups@),
            shows == shown_copies(files@, filter::filter_view(*filter), mode, now),
            app::row_views(rows@) == duplicate_rows(all.take(i as int), shows),
        decreases groups@.len() - i,
    {
        assert(all.take(i + 1).drop_last() =~= all.take(i as int));
        let more = rows_of_group(files, filter, i, &groups[i], mode, now);
        append_all(&mut rows, more);
        i += 1;
    }
    assert(all.take(i as int) =~= all);
    rows
}

/// What a change is about: what it took up last.
pub open spec fn change_usage(change: ChangeRecord) -> Option<UsageStats> {
    match change.current {
        Some(usage) => Some(usage),
        None => change.previous,
    }
}

/// The changes that are shown: those that a filter admits, or those whose path
/// contains a query while there is no filter.
pub open spec fn shown_changes(
    files: Seq<FileRecord>,
    filter: Option<Seq<PredicateModel>>,
    query: Option<Seq<char>>,
    mode: SizeMode,
    now: u64,
) -> spec_fn(ChangeRecord) -> bool {
    |change: ChangeRecord|
        match filter {
            Some(filter) => filter::admits_all(
                filter,
                filter::path_subject(
                    change.path@,
                    snapshot::usage_or_zero(change_usage(change)),
                    match analytics::file_at(files, change.path@) {
                        Some(file) => Some(file.modified_seconds),
                        None => None,
                    },
                ),
                mode,
                now,
            ),
            None => match query {
                Some(query) => text::contains_text(
                    text::lowercase(text::lossy_text(change.path@)),
                    text::lowercase(query),
                ),
                None => true,
            },
        }
}

/// The row of a change.
pub open spec fn change_row(change: ChangeRecord) -> RowModel {
    RowModel {
        label: shown_name(change.path@),
        path: Some(change.path),
        usage: snapshot::usage_or_zero(change_usage(change)),
        files: snapshot::usage_or_zero(change_usage(change)).files,
        detail: change.kind.label_text() + " "@ + change.object.label_text() + " · "@
            + text::signed_decimal(change.logical_delta as int) + " logical bytes"@,
        indent: 0,
    }
}

pub open spec fn change_rows(changes: Seq<ChangeRecord>) -> Seq<RowModel> {
    Seq::new(changes.len(), |i: int| change_row(changes[i]))
}

fn usage_of_change(change: &ChangeRecord) -> (usage: Option<UsageStats>)
    ensures
        usage == change_usage(*change),
{
    match change.current {
        Some(usage) => Some(usage),
        None => change.previous,
    }
}

fn shows_change(
    files: &Vec<FileRecord>,
    filter: &Option<FilterExpression>,
    query: &Option<String>,
    change: &ChangeRecord,
    mode: SizeMode,
    now: u64,
) -> (result: bool)
    ensures
        result == shown_changes(
            files@,
            filter::filter_view(*filter),
            tree::text_view(*query),
            mode,
            now,
        )(*change),
{
    match filter {
        Some(filter) => {
            let usage = snapshot::or_zero(usage_of_change(change));
            let modified: Option<i64> = match analytics::find_file(files, &change.path) {
                Some(place) => Some(files[place].modified_seconds),
                None => None,
            };
            filter.matches_path_usage_at(&change.path, usage, modified, mode, now)
        },
        None => match query {
            Some(query) => {
                let shown = change.path.display();
                let lower = query.as_str().to_lowercase();
                text::contains_lower(shown.as_str(), lower.as_str())
            },
            None => true,
        },
    }
}

fn row_of_change(change: &ChangeRecord) -> (row: AnalysisRow)
    ensures
        row@ == change_row(*change),
{
    let usage = snapshot::or_zero(usage_of_change(change));
    let mut detail = change.kind.label().to_owned();
    detail.append(" ");
    detail.append(change.object.label());
    detail.append(" · ");
    text::push_signed(&mut detail, change.logical_delta);
    detail.append(" logical bytes");
    AnalysisRow {
        label: name_of(&change.path),
        path: Some(change.path.clone()),
        usage,
        files: usage.files,
        detail,
        indent: 0,
    }
}

fn rows_of_changes(
    files: &Vec<FileRecord>,
    filter: &Option<FilterExpression>,
    query: &Option<String>,
    changes: &Vec<ChangeRecord>,
    mode: SizeMode,
    now: u64,
) -> (rows: Vec<AnalysisRow>)
    ensures
        app::row_views(rows@) == change_rows(
            changes@.filter(
                shown_changes(
                    files@,
                    filter::filter_view(*filter),
                    tree::text_view(*query),
                    mode,
                    now,
                ),
            ),
        ),
{
    let ghost shows = shown_changes(
        files@,
        filter::filter_view(*filter),
        tree::text_view(*query),
        mode,
        now,
    );
    let mut rows: Vec<AnalysisRow> = Vec::new();
    let mut i: usize = 0;
    proof {
        reveal(Seq::filter);
        assert(changes@.take(0) =~= Seq::empty());
        assert(app::row_views(rows@) =~= change_rows(changes@.take(0).filter(shows)));
    }
    while i < changes.len()
        invariant
            i <= changes@.len(),
            shows == shown_changes(
                files@,
                filter::filter_view(*filter),
                tree::text_view(*query),
                mode,
                now,
            ),
            app::row_views(rows@) == change_rows(changes@.take(i as int).filter(shows)),
        decreases changes@.len() - i,
    {
        proof {
            lists::lemma_filter_step(changes@, shows, i as int);
        }
        if shows_change(files, filter, query, &changes[i], mode, now) {
            let ghost before = changes@.take(i as int).filter(shows);
            push_row(&mut rows, row_of_change(&changes[i]));
            assert(app::row_views(rows@) =~= change_rows(before.push(changes@[i as int])));
        }
        i += 1;
    }
    assert(changes@.take(i as int) =~= changes@);
    rows
}

/// The sort key of a path that may be missing: no path comes first.
pub open spec fn optional_path_key(path: Option<FilePath>) -> Seq<u64> {
    match path {
        Some(path) => seq![1u64] + path::path_key(path@),
        None => seq![0u64],
    }
}

/// The sort key of a row: by the chosen key in its direction, then by path.
pub open spec fn row_key(row: RowModel, sort: SortSpec, mode: SizeMode) -> Seq<u64> {
    let first = match sort.key {
        SortKey::Size => seq![row.usage.amount(mode)],
        SortKey::Files => seq![row.files],
        SortKey::Name => text::text_key(text::lowercase(row.label)),
        SortKey::Kind => text::text_key(row.detail),
    };
    sort.direction.directed_key(first) + optional_path_key(row.path)
}

pub open spec fn row_keys(rows: Seq<RowModel>, sort: SortSpec, mode: SizeMode) -> Seq<Seq<u64>> {
    Seq::new(rows.len(), |i: int| row_key(rows[i], sort, mode))
}

fn key_of_row(row: &AnalysisRow, sort: SortSpec, mode: SizeMode) -> (key: Vec<u64>)
    ensures
        key@ == row_key(row@, sort, mode),
{
    let mut first: Vec<u64> = Vec::new();
    assert(first@ =~= Seq::empty());
    match sort.key {
        SortKey::Size => {
            first.push(row.usage.size(mode));
            assert(first@ =~= seq![row.usage.amount(mode)]);
        },
        SortKey::Files => {
            first.push(row.files);
            assert(first@ =~= seq![row.files]);
        },
        SortKey::Name => {
            let lower = row.label.as_str().to_lowercase();
            text::push_text_key(&mut first, lower.as_str());
            assert(first@ =~= text::text_key(text::lowercase(row.label@)));
        },
        SortKey::Kind => {
            text::push_text_key(&mut first, row.detail.as_str());
            assert(first@ =~= text::text_key(row.detail@));
        },
    }
    let mut key = sort.direction.direct_key(&first);
    let ghost start = key@;
    match &row.path {
        Some(path) => {
            key.push(1);
            append_key(&mut key, &path.sort_key());
            assert(key@ =~= start + (seq![1u64] + path::path_key(path@)));
        },
        None => {
            key.push(0);
            assert(key@ =~= start + seq![0u64]);
        },
    }
    key
}

/// The rows of a list, sorted.
pub open spec fn sorted_rows(rows: Seq<RowModel>, sort: SortSpec, mode: SizeMode) -> Seq<RowModel> {
    order::sorted_by(rows, row_keys(rows, sort, mode))
}

fn sort_rows(rows: Vec<AnalysisRow>, sort: SortSpec, mode: SizeMode) -> (sorted: Vec<AnalysisRow>)
    ensures
        app::row_views(sorted@) == sorted_rows(app::row_views(rows@), sort, mode),
{
    let ghost all = app::row_views(rows@);
    let ghost start = rows@;
    let mut keys: Vec<Vec<u64>> = Vec::new();
    let mut i: usize = 0;
    while i < rows.len()
        invariant
            i <= rows@.len(),
            all == app::row_views(rows@),
            keys@.len() == i,
            order::contents(keys@) == row_keys(all, sort, mode).take(i as int),
        decreases rows@.len() - i,
    {
        let ghost before = keys@;
        keys.push(key_of_row(&rows[i], sort, mode));
        i += 1;
        proof {
            assert(order::contents(keys@) =~= order::contents(before).push(
                row_key(all[i - 1], sort, mode),
            ));
            assert(order::contents(keys@) =~= row_keys(all, sort, mode).take(i as int));
        }
    }
    let ghost stated = row_keys(all, sort, mode);
    assert(order::contents(keys@) =~= stated);
    let sorted = order::sort_by_keys(rows, &keys);
    proof {
        let order = order::stable_order_exists(stated);
        assert forall|k: int| 0 <= k < order.len() implies app::row_views(sorted@)[k]
            == sorted_rows(all, sort, mode)[k] by {
            assert(0 <= order[k] < stated.len());
        }
        assert(app::row_views(sorted@) =~= sorted_rows(all, sort, mode));
    }
    sorted
}

/// The groups of duplicates that an index knows of.
pub open spec fn known_groups(index: IndexModel) -> Seq<GroupModel> {
    match index.duplicates {
        Some(groups) => groups,
        None => Seq::empty(),
    }
}

/// The changes of a comparison, if there is one.
pub open spec fn known_changes(comparison: Option<ComparisonModel>) -> Seq<ChangeRecord> {
    match comparison {
        Some(comparison) => comparison.changes,
        None => Seq::empty(),
    }
}

/// What determines the rows of an analysis view, apart from the view and the
/// index.
pub struct RowContext {
    pub comparison: Option<ComparisonModel>,
    pub filter: Option<Seq<PredicateModel>>,
    pub query: Option<Seq<char>>,
    pub sort: SortSpec,
    pub mode: SizeMode,
    pub now: u64,
}

/// All rows of an analysis view.
pub open spec fn all_rows(view: ViewKind, index: IndexModel, context: RowContext) -> Seq<RowModel> {
    let RowContext { comparison, filter, query, sort, mode, now } = context;
    match view {
        ViewKind::Tree => Seq::empty(),
        ViewKind::Largest => largest_rows(index.files, filter, sort, mode, now),
        ViewKind::Types => sorted_rows(type_rows(index.files, filter, mode, now), sort, mode),
        ViewKind::Duplicates => duplicate_rows(
            known_groups(index),
            shown_copies(index.files, filter, mode, now),
        ),
        ViewKind::Changes => sorted_rows(
            change_rows(
                known_changes(comparison).filter(
                    shown_changes(index.files, filter, query, mode, now),
                ),
            ),
            sort,
            mode,
        ),
    }
}

/// The rows of an analysis view, as many as a view holds.
pub open spec fn view_rows(view: ViewKind, index: IndexModel, context: RowContext) -> Seq<RowModel> {
    let rows = all_rows(view, index, context);
    if rows.len() > MAX_ANALYSIS_ROWS {
        rows.take(MAX_ANALYSIS_ROWS as int)
    } else {
        rows
    }
}

/// Whether a view would have more rows than it holds.
pub open spec fn is_truncated(view: ViewKind, index: IndexModel, context: RowContext) -> bool {
    let RowContext { comparison, filter, query, sort, mode, now } = context;
    if view == ViewKind::Largest {
        largest_files(index.files, filter, sort, mode, now).len() > MAX_ANALYSIS_ROWS
    } else {
        all_rows(view, index, context).len() > MAX_ANALYSIS_ROWS
    }
}

/// The rows of an analysis view, and whether some were left out.
pub fn build_rows(
    view: ViewKind,
    index: &AnalysisIndex,
    comparison: &Option<SnapshotComparison>,
    filter: &Option<FilterExpression>,
    query: &Option<String>,
    sort: SortSpec,
    mode: SizeMode,
    now: u64,
) -> (result: (Vec<AnalysisRow>, bool))
    ensures
        ({
            let context = RowContext {
                comparison: snapshot::comparison_view(*comparison),
                filter: filter::filter_view(*filter),
                query: tree::text_view(*query),
                sort,
                mode,
                now,
            };
            &&& app::row_views(result.0@) == view_rows(view, index@, context)
            &&& result.1 == is_truncated(view, index@, context)
        }),
{
    let mut truncated: bool = false;
    let mut rows: Vec<AnalysisRow> = Vec::new();
    assert(app::row_views(rows@) =~= Seq::empty());
    match view {
        ViewKind::Tree => {},
        ViewKind::Largest => {
            let (found, more) = rows_of_files(&index.files, filter, sort, mode, now);
            rows = found;
            truncated = more;
        },
        ViewKind::Types => {
            rows = sort_rows(rows_of_types(&index.files, filter, mode, now), sort, mode);
        },
        ViewKind::Duplicates => {
            match &index.duplicates {
                Some(groups) => {
                    rows = rows_of_duplicates(&index.files, filter, groups, mode, now);
                },
                None => {},
            }
        },
        ViewKind::Changes => {
            match comparison {
                Some(comparison) => {
                    rows =
                    sort_rows(
                        rows_of_changes(
                            &index.files,
                            filter,
                            query,
                            &comparison.changes,
                            mode,
                            now,
                        ),
                        sort,
                        mode,
                    );
                },
                None => {
                    proof {
                        lemma_no_rows(sort, mode);
                        reveal(Seq::filter);
                        let shows = shown_changes(
                            index.files@,
                            filter::filter_view(*filter),
                            tree::text_view(*query),
                            mode,
                            now,
                        );
                        assert(change_rows(Seq::<ChangeRecord>::empty().filter(shows))
                            =~= Seq::empty());
                    }
                },
            }
        },
    }
    let ghost all = app::row_views(rows@);
    if rows.len() > MAX_ANALYSIS_ROWS {
        rows.truncate(MAX_ANALYSIS_ROWS);
        truncated = true;
        assert(app::row_views(rows@) =~= all.take(MAX_ANALYSIS_ROWS as int));
    }
    (rows, truncated)
}

proof fn lemma_no_rows(sort: SortSpec, mode: SizeMode)
    ensures
        sorted_rows(Seq::empty(), sort, mode) == Seq::<RowModel>::empty(),
{
    let none = Seq::<RowModel>::empty();
    order::sorting_keeps_the_items(none, row_keys(none, sort, mode));
    assert(sorted_rows(none, sort, mode) =~= none);
}

/// A view never holds more rows than the limit.
pub proof fn rows_are_bounded(view: ViewKind, index: IndexModel, context: RowContext)
    ensures
        view_rows(view, index, context).len() <= MAX_ANALYSIS_ROWS,
        !is_truncated(view, index, context) ==> view_rows(view, index, context) == all_rows(
            view,
            index,
            context,
        ),
{
}

/// Sorted by size from the top, the files of the view come in falling order of
/// their size, and no file that is left out is larger than one that is shown.
pub proof fn the_largest_files_are_shown(
    files: Seq<FileRecord>,
    filter: Option<Seq<PredicateModel>>,
    mode: SizeMode,
    now: u64,
    i: int,
    j: int,
)
    requires
        files.len() <= usize::MAX,
        ({
            let sort = SortSpec { key: SortKey::Size, direction: SortDirection::Descending };
            &&& 0 <= i < largest_rows(files, filter, sort, mode, now).len()
            &&& i <= j < largest_files(files, filter, sort, mode, now).len()
        }),
    ensures
        ({
            let sort = SortSpec { key: SortKey::Size, direction: SortDirection::Descending };
            largest_rows(files, filter, sort, mode, now)[i].usage.amount(mode) >= largest_files(
                files,
                filter,
                sort,
                mode,
                now,
            )[j].usage.amount(mode)
        }),
{
    let sort = SortSpec { key: SortKey::Size, direction: SortDirection::Descending };
    let chosen = files.filter(admitted(filter, mode, now));
    let keys = file_keys(chosen, sort, mode);
    files.lemma_filter_len(admitted(filter, mode, now));
    let order = order::stable_order_exists(keys);
    if i < j {
        order::sorting_orders_the_items(chosen, keys, i, j);
        let a = order[i] as int;
        let b = order[j] as int;
        assert(order::key_le(keys[a], keys[b]));
        assert(keys[a][0] == sort.direction.directed_key(seq![chosen[a].usage.amount(mode)])[0]);
        assert(keys[b][0] == sort.direction.directed_key(seq![chosen[b].usage.amount(mode)])[0]);
    }
}

/// Files that rank differently part at a place that both ranks have.
proof fn lemma_ranks_part(left: FileRecord, right: FileRecord, key: SortKey, mode: SizeMode) -> (place:
    int)
    requires
        file_rank(left, key, mode) != file_rank(right, key, mode),
    ensures
        order::part_at(file_rank(left, key, mode), file_rank(right, key, mode), place),
{
    let first = file_rank(left, key, mode);
    let second = file_rank(right, key, mode);
    match (path::file_name_of(left.path@), path::file_name_of(right.path@)) {
        (Some(name), Some(other)) => {
            if key == SortKey::Name {
                let place = path::bytes_keys_part(name, other);
                assert(order::part_at(first, second, place + 1)) by {
                    assert forall|i: int| 0 <= i < place + 1 implies first[i] == second[i] by {
                        if i > 0 {
                            assert(path::bytes_key(name)[i - 1] == path::bytes_key(other)[i - 1]);
                        }
                    }
                }
                place + 1
            } else {
                assert(first =~= second || order::part_at(first, second, 0));
                0
            }
        },
        _ => {
            assert(first =~= second || order::part_at(first, second, 0));
            0
        },
    }
}

/// Of two files that rank differently the one that ranks lower comes first in
/// ascending order and last in descending order.
pub proof fn the_direction_decides_between_ranks(
    left: FileRecord,
    right: FileRecord,
    sort: SortSpec,
    mode: SizeMode,
)
    requires
        file_rank(left, sort.key, mode) != file_rank(right, sort.key, mode),
    ensures
        order::key_le(file_key(left, sort, mode), file_key(right, sort, mode)) == match sort.direction {
            SortDirection::Ascending => order::key_le(
                file_rank(left, sort.key, mode),
                file_rank(right, sort.key, mode),
            ),
            SortDirection::Descending => order::key_le(
                file_rank(right, sort.key, mode),
                file_rank(left, sort.key, mode),
            ),
        },
        !(order::key_le(file_key(left, sort, mode), file_key(right, sort, mode)) && order::key_le(
            file_key(right, sort, mode),
            file_key(left, sort, mode),
        )),
{
    let first = file_rank(left, sort.key, mode);
    let second = file_rank(right, sort.key, mode);
    let place = lemma_ranks_part(left, right, sort.key, mode);
    let none = Seq::<u64>::empty();
    let here = sort.direction.directed_key(first);
    let there = sort.direction.directed_key(second);
    let left_path = path::path_key(left.path@);
    let right_path = path::path_key(right.path@);
    order::the_first_difference_decides(first, second, none, none, place);
    order::the_first_difference_decides(second, first, none, none, place);
    assert(first + none =~= first && second + none =~= second);
    assert(order::part_at(here, there, place));
    order::the_first_difference_decides(here, there, left_path, right_path, place);
    order::the_first_difference_decides(there, here, right_path, left_path, place);
}

/// Files of one rank come in the order of their paths, whatever the direction.
/// Where the number of files counts, these are all files.
pub proof fn files_of_one_rank_come_by_path(
    left: FileRecord,
    right: FileRecord,
    sort: SortSpec,
    mode: SizeMode,
)
    requires
        file_rank(left, sort.key, mode) == file_rank(right, sort.key, mode),
    ensures
        order::key_le(file_key(left, sort, mode), file_key(right, sort, mode)) == order::key_le(
            path::path_key(left.path@),
            path::path_key(right.path@),
        ),
{
    order::a_common_start_does_not_matter(
        sort.direction.directed_key(file_rank(left, sort.key, mode)),
        path::path_key(left.path@),
        path::path_key(right.path@),
    );
}

/// Of two files one comes first, and both do only if they have the same path.
pub proof fn only_one_of_two_files_comes_first(
    left: FileRecord,
    right: FileRecord,
    sort: SortSpec,
    mode: SizeMode,
)
    ensures
        order::key_le(file_key(left, sort, mode), file_key(right, sort, mode)) || order::key_le(
            file_key(right, sort, mode),
            file_key(left, sort, mode),
        ),
        order::key_le(file_key(left, sort, mode), file_key(right, sort, mode)) && order::key_le(
            file_key(right, sort, mode),
            file_key(left, sort, mode),
        ) ==> path::same_path(left.path@, right.path@),
{
    let first = path::path_key(left.path@);
    let second = path::path_key(right.path@);
    order::lemma_key_le_total(file_key(left, sort, mode), file_key(right, sort, mode));
    if file_rank(left, sort.key, mode) != file_rank(right, sort.key, mode) {
        the_direction_decides_between_ranks(left, right, sort, mode);
    } else {
        files_of_one_rank_come_by_path(left, right, sort, mode);
        files_of_one_rank_come_by_path(right, left, sort, mode);
        if order::key_le(first, second) && order::key_le(second, first) {
            order::lemma_key_le_antisymmetric(first, second);
            path::path_keys_tell_paths_apart(left.path@, right.path@);
        }
    }
}

/// The other direction turns round the files that rank differently, and leaves
/// those of one rank in the order of their paths.
pub proof fn the_other_direction_turns_files_round(
    left: FileRecord,
    right: FileRecord,
    sort: SortSpec,
    mode: SizeMode,
)
    ensures
        ({
            let other = SortSpec { key: sort.key, direction: sort.direction.opposite() };
            let here = order::key_le(file_key(left, sort, mode), file_key(right, sort, mode));
            if file_rank(left, sort.key, mode) != file_rank(right, sort.key, mode) {
                here == order::key_le(file_key(right, other, mode), file_key(left, other, mode))
            } else {
                here == order::key_le(file_key(left, other, mode), file_key(right, other, mode))
            }
        }),
{
    let other = SortSpec { key: sort.key, direction: sort.direction.opposite() };
    if file_rank(left, sort.key, mode) != file_rank(right, sort.key, mode) {
        the_direction_decides_between_ranks(left, right, sort, mode);
        the_direction_decides_between_ranks(right, left, other, mode);
    } else {
        files_of_one_rank_come_by_path(left, right, sort, mode);
        files_of_one_rank_come_by_path(left, right, other, mode);
    }
}

/// In the list of files the ranks rise or fall with the direction, and the
/// paths rise among files of one rank.
pub proof fn files_are_listed_by_rank_and_path(
    files: Seq<FileRecord>,
    filter: Option<Seq<PredicateModel>>,
    sort: SortSpec,
    mode: SizeMode,
    now: u64,
    i: int,
    j: int,
)
    requires
        files.len() <= usize::MAX,
        0 <= i < j < largest_files(files, filter, sort, mode, now).len(),
    ensures
        ({
            let listed = largest_files(files, filter, sort, mode, now);
            let first = file_rank(listed[i], sort.key, mode);
            let second = file_rank(listed[j], sort.key, mode);
            if first == second {
                order::key_le(path::path_key(listed[i].path@), path::path_key(listed[j].path@))
            } else {
                match sort.direction {
                    SortDirection::Ascending => order::key_le(first, second),
                    SortDirection::Descending => order::key_le(second, first),
                }
            }
        }),
{
    let chosen = files.filter(admitted(filter, mode, now));
    let keys = file_keys(chosen, sort, mode);
    files.lemma_filter_len(admitted(filter, mode, now));
    let order = order::stable_order_exists(keys);
    order::sorting_orders_the_items(chosen, keys, i, j);
    let left = chosen[order[i] as int];
    let right = chosen[order[j] as int];
    if file_rank(left, sort.key, mode) == file_rank(right, sort.key, mode) {
        files_of_one_rank_come_by_path(left, right, sort, mode);
    } else {
        the_direction_decides_between_ranks(left, right, sort, mode);
    }
}

/// Listed by size, the larger of two files comes first going down and last going
/// up; the size is the one that the way to measure asks for.
pub proof fn larger_files_come_first(left: FileRecord, right: FileRecord, mode: SizeMode)
    ensures
        ({
            let down = SortSpec { key: SortKey::Size, direction: SortDirection::Descending };
            let up = SortSpec { key: SortKey::Size, direction: SortDirection::Ascending };
            let amount = |file: FileRecord|
                if mode == SizeMode::Logical {
                    file.usage.logical
                } else {
                    file.usage.physical
                };
            &&& amount(left) > amount(right) ==> order::precedes(
                file_key(left, down, mode),
                file_key(right, down, mode),
            )
            &&& amount(left) < amount(right) ==> order::precedes(
                file_key(left, up, mode),
                file_key(right, up, mode),
            )
        }),
{
    let down = SortSpec { key: SortKey::Size, direction: SortDirection::Descending };
    let up = SortSpec { key: SortKey::Size, direction: SortDirection::Ascending };
    if left.usage.amount(mode) != right.usage.amount(mode) {
        order::the_smaller_number_comes_first(
            file_key(left, down, mode),
            file_key(right, down, mode),
            0,
        );
        order::the_smaller_number_comes_first(
            file_key(left, up, mode),
            file_key(right, up, mode),
            0,
        );
    }
}

/// Listed by kind, files come by category: images, video, audio, archives,
/// documents, code, and last the others.
pub proof fn files_come_by_category(left: FileRecord, right: FileRecord, mode: SizeMode)
    ensures
        ({
            let up = SortSpec { key: SortKey::Kind, direction: SortDirection::Ascending };
            let down = SortSpec { key: SortKey::Kind, direction: SortDirection::Descending };
            let place = |category: analytics::FileCategory|
                match category {
                    analytics::FileCategory::Image => 0int,
                    analytics::FileCategory::Video => 1,
                    analytics::FileCategory::Audio => 2,
                    analytics::FileCategory::Archive => 3,
                    analytics::FileCategory::Document => 4,
                    analytics::FileCategory::Code => 5,
                    analytics::FileCategory::Other => 6,
                };
            &&& place(left.category) < place(right.category) ==> order::precedes(
                file_key(left, up, mode),
                file_key(right, up, mode),
            )
            &&& place(left.category) > place(right.category) ==> order::precedes(
                file_key(left, down, mode),
                file_key(right, down, mode),
            )
        }),
{
    let up = SortSpec { key: SortKey::Kind, direction: SortDirection::Ascending };
    let down = SortSpec { key: SortKey::Kind, direction: SortDirection::Descending };
    if left.category != right.category {
        order::the_smaller_number_comes_first(
            file_key(left, up, mode),
            file_key(right, up, mode),
            0,
        );
        order::the_smaller_number_comes_first(
            file_key(left, down, mode),
            file_key(right, down, mode),
            0,
        );
    }
}

/// Sorted by size or by files, the row with more comes first going down and last
/// going up.
pub proof fn rows_come_by_amount(left: RowModel, right: RowModel, mode: SizeMode)
    ensures
        ({
            let key = |row: RowModel, key: SortKey, direction: SortDirection|
                row_key(row, SortSpec { key, direction }, mode);
            let down = SortDirection::Descending;
            let up = SortDirection::Ascending;
            let amount = |row: RowModel|
                if mode == SizeMode::Logical {
                    row.usage.logical
                } else {
                    row.usage.physical
                };
            &&& amount(left) > amount(right) ==> order::precedes(
                key(left, SortKey::Size, down),
                key(right, SortKey::Size, down),
            )
            &&& amount(left) < amount(right) ==> order::precedes(
                key(left, SortKey::Size, up),
                key(right, SortKey::Size, up),
            )
            &&& left.files > right.files ==> order::precedes(
                key(left, SortKey::Files, down),
                key(right, SortKey::Files, down),
            )
            &&& left.files < right.files ==> order::precedes(
                key(left, SortKey::Files, up),
                key(right, SortKey::Files, up),
            )
        }),
{
    lemma_first_number_decides(left, right, SortKey::Size, mode);
    lemma_first_number_decides(left, right, SortKey::Files, mode);
}

proof fn lemma_first_number_decides(left: RowModel, right: RowModel, key: SortKey, mode: SizeMode)
    requires
        key == SortKey::Size || key == SortKey::Files,
    ensures
        forall|direction: SortDirection|
            #![trigger row_key(left, SortSpec { key, direction }, mode)]
            row_key(left, SortSpec { key, direction }, mode)[0] < row_key(
                right,
                SortSpec { key, direction },
                mode,
            )[0] ==> order::precedes(
                row_key(left, SortSpec { key, direction }, mode),
                row_key(right, SortSpec { key, direction }, mode),
            ),
{
    assert forall|direction: SortDirection|
        #![trigger row_key(left, SortSpec { key, direction }, mode)]
        row_key(left, SortSpec { key, direction }, mode)[0] < row_key(
            right,
            SortSpec { key, direction },
            mode,
        )[0] implies order::precedes(
        row_key(left, SortSpec { key, direction }, mode),
        row_key(right, SortSpec { key, direction }, mode),
    ) by {
        order::the_smaller_number_comes_first(
            row_key(left, SortSpec { key, direction }, mode),
            row_key(right, SortSpec { key, direction }, mode),
            0,
        );
    }
}

/// Sorted by name or by kind upwards, rows come by their label in small letters
/// or by their detail, letter by letter.
pub proof fn rows_come_by_their_texts(
    left: RowModel,
    right: RowModel,
    first: Seq<char>,
    second: Seq<char>,
    mode: SizeMode,
    place: int,
    by_name: bool,
)
    requires
        by_name ==> first == text::lowercase(left.label) && second == text::lowercase(right.label),
        !by_name ==> first == left.detail && second == right.detail,
        0 <= place <= first.len(),
        place < second.len(),
        forall|i: int| 0 <= i < place ==> first[i] == second[i],
        place < first.len() ==> first[place] < second[place],
    ensures
        ({
            let key = if by_name {
                SortKey::Name
            } else {
                SortKey::Kind
            };
            let up = SortSpec { key, direction: SortDirection::Ascending };
            let down = SortSpec { key, direction: SortDirection::Descending };
            &&& order::precedes(row_key(left, up, mode), row_key(right, up, mode))
            &&& order::precedes(row_key(right, down, mode), row_key(left, down, mode))
        }),
{
    let key = if by_name {
        SortKey::Name
    } else {
        SortKey::Kind
    };
    let up = SortSpec { key, direction: SortDirection::Ascending };
    let down = SortSpec { key, direction: SortDirection::Descending };
    text::texts_part_where_they_differ(first, second, place);
    assert(order::part_at(row_key(left, up, mode), row_key(right, up, mode), place));
    assert(order::part_at(row_key(right, down, mode), row_key(left, down, mode), place));
    order::the_smaller_number_comes_first(row_key(left, up, mode), row_key(right, up, mode), place);
    order::the_smaller_number_comes_first(
        row_key(right, down, mode),
        row_key(left, down, mode),
        place,
    );
}

/// The row of a file shows its path, its name and its own usage.
pub proof fn file_rows_show_their_file(file: FileRecord)
    ensures
        file_row(file).path == Some(file.path),
        file_row(file).usage == file.usage,
        file_row(file).files == 1,
        file_row(file).indent == 0,
        path::file_name_of(file.path@) is Some ==> file_row(file).label == text::lossy_text(
            path::file_name_of(file.path@)->0,
        ),
        file.extension is None ==> file_row(file).detail == file.category.label_text() + " · "@
            + "no extension"@,
        file.extension is Some ==> file_row(file).detail == file.category.label_text() + " · "@
            + file.extension->0@,
{
}

/// A group is shown by a row with what could be freed, what its copies take up
/// and how many there are; the rows of its shown copies follow, set in.
pub proof fn groups_show_what_could_be_freed(
    number: int,
    group: GroupModel,
    shows: spec_fn(EntryModel) -> bool,
)
    requires
        group.files.len() <= u64::MAX,
        0 <= number,
    ensures
        ({
            let rows = one_group_rows(number, group, shows);
            let shown = group.files.filter(shows);
            &&& shown.len() == 0 ==> rows.len() == 0
            &&& shown.len() > 0 ==> {
                &&& rows.len() == 1 + shown.len()
                &&& rows[0].usage.logical == group.reclaimable_logical
                &&& rows[0].usage.physical == group.physical_total
                &&& rows[0].usage.files == group.files.len()
                &&& rows[0].files == group.files.len()
                &&& rows[0].path is None && rows[0].indent == 0
                &&& rows[0].label == "Group "@ + text::decimal((number + 1) as nat) + " · "@
                    + text::decimal(shown.len()) + "/"@ + text::decimal(group.files.len())
                    + " copies"@
                &&& forall|i: int|
                    #![trigger rows[i + 1]]
                    0 <= i < shown.len() ==> rows[i + 1].path == Some(shown[i].path) && rows[i
                        + 1].usage == shown[i].usage && rows[i + 1].files == 1 && rows[i + 1].indent
                        == 1
            }
        }),
{
}

/// The groups are shown in their order, one after the other.
pub proof fn one_more_group_is_shown_last(
    groups: Seq<GroupModel>,
    group: GroupModel,
    shows: spec_fn(EntryModel) -> bool,
)
    ensures
        duplicate_rows(Seq::empty(), shows) == Seq::<RowModel>::empty(),
        duplicate_rows(groups.push(group), shows) == duplicate_rows(groups, shows)
            + one_group_rows(groups.len() as int, group, shows),
{
    assert(groups.push(group).drop_last() =~= groups);
}

/// Of a hash the first 12 letters are shown.
pub proof fn hashes_are_cut_short(hash: Seq<char>)
    ensures
        hash.len() >= 12 ==> short_hash(hash).len() == 12 && short_hash(hash).is_prefix_of(hash),
        hash.len() < 12 ==> short_hash(hash) == hash,
{
}

/// The row of a change shows the usage after it, or what was there before where
/// nothing is left.
pub proof fn changes_show_what_is_there(change: ChangeRecord)
    ensures
        change_row(change).path == Some(change.path),
        change.current is Some ==> change_row(change).usage == change.current->0,
        change.current is None && change.previous is Some ==> change_row(change).usage
            == change.previous->0,
        change_row(change).files == change_row(change).usage.files,
        change_row(change).indent == 0,
        change_row(change).detail == change.kind.label_text() + " "@ + change.object.label_text()
            + " · "@ + text::signed_decimal(change.logical_delta as int) + " logical bytes"@,
{
}

/// No more than 100,000 rows are shown, the first of them.
pub proof fn the_first_rows_are_shown(view: ViewKind, index: IndexModel, context: RowContext)
    ensures
        view_rows(view, index, context).len() <= 100_000,
        all_rows(view, index, context).len() <= 100_000 ==> view_rows(view, index, context)
            == all_rows(view, index, context),
        all_rows(view, index, context).len() > 100_000 ==> view_rows(view, index, context).len()
            == 100_000 && view_rows(view, index, context).is_prefix_of(
            all_rows(view, index, context),
        ),
{
}

/// A listed file is one of the index that the filter admits, and each such file
/// is listed.
pub proof fn admitted_files_are_listed(
    files: Seq<FileRecord>,
    filter: Option<Seq<PredicateModel>>,
    sort: SortSpec,
    mode: SizeMode,
    now: u64,
    file: FileRecord,
)
    requires
        files.len() <= usize::MAX,
    ensures
        largest_files(files, filter, sort, mode, now).contains(file) <==> files.contains(file) && (
        filter is None || filter::admits_all(filter->0, filter::file_subject(file), mode, now)),
{
    let keep = admitted(filter, mode, now);
    let chosen = files.filter(keep);
    files.lemma_filter_len(keep);
    order::sorting_keeps_the_items(chosen, file_keys(chosen, sort, mode));
    if chosen.contains(file) {
        files.lemma_filter_contains_rev(keep, file);
        let k = choose|k: int| 0 <= k < chosen.len() && chosen[k] == file;
        files.lemma_filter_pred(keep, k);
    }
    if files.contains(file) && keep(file) {
        let k = choose|k: int| 0 <= k < files.len() && files[k] == file;
        files.lemma_filter_contains(keep, k);
    }
}

/// The rows of the listed files are those of the files in their order.
pub proof fn listed_files_have_their_row(
    files: Seq<FileRecord>,
    filter: Option<Seq<PredicateModel>>,
    sort: SortSpec,
    mode: SizeMode,
    now: u64,
    i: int,
)
    requires
        0 <= i < largest_rows(files, filter, sort, mode, now).len(),
    ensures
        ({
            let listed = largest_files(files, filter, sort, mode, now);
            let rows = largest_rows(files, filter, sort, mode, now);
            &&& rows.len() == if listed.len() > 100_000 {
                100_000
            } else {
                listed.len()
            }
            &&& rows[i] == file_row(listed[i])
        }),
{
}

/// A copy is shown where its file is admitted, or is no longer in the index.
pub proof fn copies_are_shown_with_their_file(
    files: Seq<FileRecord>,
    filter: Option<Seq<PredicateModel>>,
    mode: SizeMode,
    now: u64,
    entry: EntryModel,
)
    ensures
        ({
            let shown = shown_copies(files, filter, mode, now)(entry);
            let file = analytics::file_at(files, entry.path@);
            &&& filter is None ==> shown
            &&& file is None ==> shown
            &&& filter is Some && file is Some ==> shown == filter::admits_all(
                filter->0,
                filter::file_subject(file->0),
                mode,
                now,
            )
        }),
{
}

/// A change is shown where the filter admits it by what is there, or without a
/// filter where its path holds the query, whatever the case.
pub proof fn changes_are_shown_by_filter_or_query(
    files: Seq<FileRecord>,
    filter: Option<Seq<PredicateModel>>,
    query: Option<Seq<char>>,
    mode: SizeMode,
    now: u64,
    change: ChangeRecord,
)
    ensures
        ({
            let shown = shown_changes(files, filter, query, mode, now)(change);
            &&& filter is None && query is None ==> shown
            &&& filter is None && query is Some ==> shown == text::contains_text(
                text::lowercase(text::lossy_text(change.path@)),
                text::lowercase(query->0),
            )
            &&& filter is Some && change.current is Some ==> shown == filter::admits_all(
                filter->0,
                filter::path_subject(
                    change.path@,
                    change.current->0,
                    match analytics::file_at(files, change.path@) {
                        Some(file) => Some(file.modified_seconds),
                        None => None,
                    },
                ),
                mode,
                now,
            )
        }),
{
}

/// Each view shows its own rows; the tree has none here.
pub proof fn each_view_has_its_rows(index: IndexModel, context: RowContext)
    ensures
        all_rows(ViewKind::Tree, index, context).len() == 0,
        all_rows(ViewKind::Largest, index, context) == largest_rows(
            index.files,
            context.filter,
            context.sort,
            context.mode,
            context.now,
        ),
        all_rows(ViewKind::Types, index, context) == sorted_rows(
            type_rows(index.files, context.filter, context.mode, context.now),
            context.sort,
            context.mode,
        ),
        index.duplicates is None ==> all_rows(ViewKind::Duplicates, index, context).len() == 0,
        index.duplicates is Some ==> all_rows(ViewKind::Duplicates, index, context)
            == duplicate_rows(
            index.duplicates->0,
            shown_copies(index.files, context.filter, context.mode, context.now),
        ),
        context.comparison is Some ==> all_rows(ViewKind::Changes, index, context) == sorted_rows(
            change_rows(
                context.comparison->0.changes.filter(
                    shown_changes(
                        index.files,
                        context.filter,
                        context.query,
                        context.mode,
                        context.now,
                    ),
                ),
            ),
            context.sort,
            context.mode,
        ),
{
}

/// The row of a group of files shows its name, its section and its totals.
pub proof fn group_rows_show_their_totals(groups: Seq<GroupLine>, section: Seq<char>, i: int)
    requires
        0 <= i < groups.len(),
    ensures
        group_rows(groups, section).len() == groups.len(),
        group_rows(groups, section)[i].label == groups[i].name,
        group_rows(groups, section)[i].usage == groups[i].stats.usage,
        group_rows(groups, section)[i].files == groups[i].stats.files,
        group_rows(groups, section)[i].detail == section,
        group_rows(groups, section)[i].path is None,
{
}

} // verus!
